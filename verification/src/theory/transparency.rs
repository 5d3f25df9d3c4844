//! The transparency of bracket abstraction: a point-free definition applied to
//! arguments reduces to what its body reduces to with the arguments put in.

use crate::bracket::{
    abstract_rule, eliminate_abstractions, lemma_canonicalize_orderly, lemma_height_zero,
    lemma_step_height, lemma_step_orderly, lemma_well_formed_orderly, node_contains, node_orderly,
    orderly, rule_defined, step, step_node, term_contains, term_has_abstraction,
};
use crate::canonical::{
    canonical, canonicalize, lemma_canonicalize_canonical, lemma_canonicalize_well_formed,
    node_canonical, splice_head,
};
use crate::combinator::{abstract_last, eliminate, Definition};
use crate::context::{lookup, substitute, substitute_node, substituted_nodes};
use crate::measure::{lemma_canonicalize_height, term_height};
use crate::reduction::normalize;
use crate::term::{node_well_formed, symbol, well_formed, Node, Term};
use crate::theory::abstraction::{
    abstract_all, abstraction, apply_all, bound, instantiate_tree, is_primitive_name,
    lemma_abstract_all_applied, occurs,
};
use crate::theory::calculus::{
    app, develop_times, lemma_normal_form_unique, lemma_reaches_development, lemma_reaches_joined,
    lemma_reaches_more, lemma_reaches_normal, normal, reaches, Tree,
};
use crate::theory::normal::{
    lemma_canonical_spine, lemma_normalize_canonical, lemma_stable_normal, lemma_tree_injective,
};
use crate::theory::normalization::lemma_normalize_follows;
use crate::theory::semantics::{
    applied, lemma_normalize_reaches, lemma_tree_canonicalize, lemma_tree_concat,
    lemma_tree_pointwise, lemma_tree_short, lemma_tree_splice, lemma_well_formed_solid, node_solid,
    node_tree, solid, term_tree,
};
use crate::theory::strategy::{lemma_strategy_normalizes, pass_times};
use vstd::prelude::*;

verus! {

/// A variable occurs in a well-formed term exactly where it occurs in what the term
/// stands for.
pub proof fn lemma_occurs(t: Term, v: Seq<char>)
    requires
        well_formed(t),
    ensures
        occurs(term_tree(t), v) <==> term_contains(t, Node::Atom(v)),
    decreases t, 1nat,
{
    let last = t.last();
    assert(node_well_formed(last));
    lemma_node_occurs(last, v);
    if t.len() == 1 {
        if term_contains(t, Node::Atom(v)) {
            let i = choose|i: int|
                0 <= i < t.len() && node_contains(#[trigger] t[i], Node::Atom(v));
            assert(t[i] == last);
        }
    } else {
        let prefix = t.drop_last();
        assert forall|i: int| 0 <= i < prefix.len() implies node_well_formed(
            #[trigger] prefix[i],
        ) by {
            assert(prefix[i] == t[i]);
            assert(node_well_formed(t[i]));
        }
        lemma_occurs(prefix, v);
        if term_contains(prefix, Node::Atom(v)) {
            let i = choose|i: int|
                0 <= i < prefix.len() && node_contains(#[trigger] prefix[i], Node::Atom(v));
            assert(prefix[i] == t[i]);
        }
        if term_contains(t, Node::Atom(v)) {
            let i = choose|i: int|
                0 <= i < t.len() && node_contains(#[trigger] t[i], Node::Atom(v));
            if i < t.len() - 1 {
                assert(prefix[i] == t[i]);
            }
        }
    }
}

/// A variable occurs in a well-formed node exactly where it occurs in what the node
/// stands for.
pub proof fn lemma_node_occurs(n: Node, v: Seq<char>)
    requires
        node_well_formed(n),
    ensures
        occurs(node_tree(n), v) <==> node_contains(n, Node::Atom(v)),
    decreases n, 0nat,
{
    match n {
        Node::Atom(_) => {},
        Node::Group(body) => lemma_occurs(body, v),
        Node::Abstraction(_, _) => {},
    }
}

/// The elimination rule on a canonical, well-formed body gives a node that stands for
/// the bracket abstraction of what the body stands for.
pub proof fn lemma_rule_tree(body: Term, v: Seq<char>)
    requires
        well_formed(body),
        canonical(body),
    ensures
        rule_defined(body, v),
        node_tree(abstract_rule(body, v)) == abstraction(term_tree(body), v),
{
    assert(node_well_formed(body[0]) && node_canonical(body[0]));
    if body.len() == 1 {
        lemma_tree_short(symbol('K'), body[0], body[0]);
    } else {
        let prefix = body.drop_last();
        let last = body.last();
        assert(node_well_formed(last) && node_canonical(last));
        assert forall|i: int| 0 <= i < prefix.len() implies node_well_formed(
            #[trigger] prefix[i],
        ) by {
            assert(prefix[i] == body[i]);
            assert(node_well_formed(body[i]));
        }
        lemma_occurs(prefix, v);
        lemma_node_occurs(last, v);
        if last is Group {
            lemma_canonical_spine(last->Group_0);
        }
        assert(node_tree(last) == Tree::Leaf(v) <==> last == Node::Atom(v));
        let p = term_tree(prefix);
        let q = node_tree(last);
        assert(term_tree(body) == app(p, q));
        let pending_prefix = Node::Abstraction(prefix, v);
        let pending_last = Node::Abstraction(seq![last], v);
        lemma_tree_short(last, last, last);
        lemma_tree_short(symbol('S'), pending_prefix, pending_last);
        lemma_tree_short(symbol('C'), pending_prefix, last);
        lemma_tree_short(symbol('B'), Node::Group(prefix), pending_last);
        lemma_tree_short(symbol('K'), Node::Group(prefix.push(last)), last);
        assert(prefix.push(last) =~= body);
    }
}

/// An orderly term is solid.
pub proof fn lemma_orderly_solid(t: Term)
    requires
        orderly(t),
    ensures
        solid(t),
    decreases t, 1nat,
{
    assert forall|i: int| 0 <= i < t.len() implies node_solid(#[trigger] t[i]) by {
        assert(node_orderly(t[i]));
        lemma_node_orderly_solid(t[i]);
    }
}

/// An orderly node is solid.
pub proof fn lemma_node_orderly_solid(n: Node)
    requires
        node_orderly(n),
    ensures
        node_solid(n),
    decreases n, 0nat,
{
    match n {
        Node::Atom(_) => {},
        Node::Group(body) => lemma_orderly_solid(body),
        Node::Abstraction(body, _) => {
            lemma_well_formed_orderly(body);
            lemma_orderly_solid(body);
        },
    }
}

/// One substitution step on a canonical, orderly term changes nothing in what the term
/// stands for.
pub proof fn lemma_step_tree(t: Term)
    requires
        canonical(t),
        orderly(t),
    ensures
        term_tree(step(t)) == term_tree(t),
    decreases t, 1nat,
{
    assert forall|i: int| 0 <= i < t.len() implies node_tree(#[trigger] step(t)[i]) == node_tree(
        t[i],
    ) by {
        assert(node_canonical(t[i]) && node_orderly(t[i]));
        lemma_node_step_tree(t[i]);
    }
    lemma_tree_pointwise(step(t), t);
}

/// One substitution step on a canonical, orderly node changes nothing in what the node
/// stands for.
pub proof fn lemma_node_step_tree(n: Node)
    requires
        node_canonical(n),
        node_orderly(n),
    ensures
        node_tree(step_node(n)) == node_tree(n),
    decreases n, 0nat,
{
    match n {
        Node::Atom(_) => {},
        Node::Group(body) => lemma_step_tree(body),
        Node::Abstraction(body, v) => lemma_rule_tree(body, v),
    }
}

/// The elimination of abstractions from an orderly term has a result, which is canonical
/// and well-formed and stands for what the term stood for.
pub proof fn lemma_eliminate_tree(t: Term)
    requires
        orderly(t),
    ensures
        eliminate_abstractions(t) is Some,
        canonical(eliminate_abstractions(t)->0),
        well_formed(eliminate_abstractions(t)->0),
        term_tree(eliminate_abstractions(t)->0) == term_tree(t),
    decreases term_height(t),
{
    let tidy = canonicalize(t);
    lemma_canonicalize_canonical(t);
    lemma_canonicalize_orderly(t);
    lemma_orderly_solid(t);
    lemma_tree_canonicalize(t);
    if term_has_abstraction(tidy) {
        lemma_step_orderly(tidy);
        lemma_step_tree(tidy);
        lemma_canonicalize_height(t);
        lemma_height_zero(tidy);
        lemma_step_height(tidy);
        lemma_eliminate_tree(step(tidy));
    } else {
        lemma_well_formed_orderly(tidy);
    }
}

/// The name that a substitution puts in the place of a name: the argument of the last
/// parameter of that name, if there is one.
pub open spec fn binding(params: Seq<Seq<char>>, arguments: Seq<Seq<char>>, name: Seq<char>)
    -> Option<Seq<char>>
    decreases params.len(),
{
    if params.len() == 0 || arguments.len() != params.len() {
        None
    } else if params.last() == name {
        Some(arguments.last())
    } else {
        binding(params.drop_last(), arguments.drop_last(), name)
    }
}

/// The node with every parameter replaced by the atom that is its argument.
pub open spec fn instantiate_node(n: Node, params: Seq<Seq<char>>, arguments: Seq<Seq<char>>)
    -> Node
    decreases n,
{
    match n {
        Node::Atom(name) => match binding(params, arguments, name) {
            Some(argument) => Node::Atom(argument),
            None => n,
        },
        Node::Group(body) => Node::Group(instantiate(body, params, arguments)),
        Node::Abstraction(_, _) => n,
    }
}

/// The term with every parameter replaced by the atom that is its argument, all at once.
pub open spec fn instantiate(t: Term, params: Seq<Seq<char>>, arguments: Seq<Seq<char>>) -> Term
    decreases t,
{
    Seq::new(
        t.len(),
        |i: int|
            if 0 <= i < t.len() {
                instantiate_node(t[i], params, arguments)
            } else {
                t[i]
            },
    )
}

/// The atoms of the given names, in order.
pub open spec fn named(names: Seq<Seq<char>>) -> Term {
    Seq::new(names.len(), |i: int| Node::Atom(names[i]))
}

/// The leaves of the given names, in order.
pub open spec fn leaves(names: Seq<Seq<char>>) -> Seq<Tree> {
    Seq::new(names.len(), |i: int| Tree::Leaf(names[i]))
}

/// A substitution of atoms binds a name to the leaf of the atom that it puts in its place.
pub proof fn lemma_binding_bound(
    params: Seq<Seq<char>>,
    arguments: Seq<Seq<char>>,
    name: Seq<char>,
)
    ensures
        bound(params, leaves(arguments), name) == match binding(params, arguments, name) {
            Some(argument) => Some(Tree::Leaf(argument)),
            None => None,
        },
    decreases params.len(),
{
    if params.len() > 0 && arguments.len() == params.len() {
        assert(leaves(arguments).drop_last() =~= leaves(arguments.drop_last()));
        lemma_binding_bound(params.drop_last(), arguments.drop_last(), name);
    }
}

/// Substitution of atoms keeps a term well-formed and canonical, and what the new term
/// stands for is what the old one stood for with the same substitution made in it.
pub proof fn lemma_instantiate(t: Term, params: Seq<Seq<char>>, arguments: Seq<Seq<char>>)
    requires
        well_formed(t),
    ensures
        well_formed(instantiate(t, params, arguments)),
        canonical(t) ==> canonical(instantiate(t, params, arguments)),
        term_tree(instantiate(t, params, arguments)) == instantiate_tree(
            term_tree(t),
            params,
            leaves(arguments),
        ),
    decreases t, 1nat,
{
    let result = instantiate(t, params, arguments);
    assert forall|i: int| 0 <= i < t.len() implies node_well_formed(#[trigger] result[i]) && (
    node_canonical(t[i]) ==> node_canonical(result[i])) && (t[i] is Group <==> result[i] is Group)
        && node_tree(result[i]) == instantiate_tree(node_tree(t[i]), params, leaves(arguments)) by {
        assert(node_well_formed(t[i]));
        lemma_instantiate_node(t[i], params, arguments);
    }
    if canonical(t) {
        assert forall|i: int| 0 <= i < result.len() implies node_canonical(
            #[trigger] result[i],
        ) by {
            assert(node_canonical(t[i]));
        }
    }
    lemma_instantiate_fold(t, params, arguments, t.len() as int);
    assert(t.subrange(0, t.len() as int) =~= t);
    assert(result.subrange(0, t.len() as int) =~= result);
}

/// Substitution of atoms, on the first `k` nodes of a term.
proof fn lemma_instantiate_fold(
    t: Term,
    params: Seq<Seq<char>>,
    arguments: Seq<Seq<char>>,
    k: int,
)
    requires
        1 <= k <= t.len(),
        forall|i: int|
            0 <= i < t.len() ==> node_tree(#[trigger] instantiate(t, params, arguments)[i])
                == instantiate_tree(node_tree(t[i]), params, leaves(arguments)),
    ensures
        term_tree(instantiate(t, params, arguments).subrange(0, k)) == instantiate_tree(
            term_tree(t.subrange(0, k)),
            params,
            leaves(arguments),
        ),
    decreases k,
{
    let result = instantiate(t, params, arguments);
    let front = t.subrange(0, k);
    let new_front = result.subrange(0, k);
    assert(new_front.last() == result[k - 1]);
    assert(front.last() == t[k - 1]);
    if k > 1 {
        lemma_instantiate_fold(t, params, arguments, k - 1);
        assert(front.drop_last() =~= t.subrange(0, k - 1));
        assert(new_front.drop_last() =~= result.subrange(0, k - 1));
    } else {
        assert(new_front[0] == result[0]);
        assert(front[0] == t[0]);
    }
}

/// Substitution of atoms keeps a node well-formed and canonical, and what the new node
/// stands for is what the old one stood for with the same substitution made in it.
pub proof fn lemma_instantiate_node(n: Node, params: Seq<Seq<char>>, arguments: Seq<Seq<char>>)
    requires
        node_well_formed(n),
    ensures
        node_well_formed(instantiate_node(n, params, arguments)),
        node_canonical(n) ==> node_canonical(instantiate_node(n, params, arguments)),
        n is Group <==> instantiate_node(n, params, arguments) is Group,
        node_tree(instantiate_node(n, params, arguments)) == instantiate_tree(
            node_tree(n),
            params,
            leaves(arguments),
        ),
    decreases n, 0nat,
{
    match n {
        Node::Atom(name) => lemma_binding_bound(params, arguments, name),
        Node::Group(body) => lemma_instantiate(body, params, arguments),
        Node::Abstraction(_, _) => {},
    }
}

/// A tree applied to atoms, as nodes and as leaves.
pub proof fn lemma_applied_named(function: Tree, names: Seq<Seq<char>>)
    ensures
        applied(function, named(names)) == apply_all(function, leaves(names)),
    decreases names.len(),
{
    if names.len() > 0 {
        lemma_applied_named(function, names.drop_last());
        assert(named(names).drop_last() =~= named(names.drop_last()));
        assert(leaves(names).drop_last() =~= leaves(names.drop_last()));
    }
}

/// A well-formed term followed by atoms is well-formed.
pub proof fn lemma_followed_by_atoms(t: Term, names: Seq<Seq<char>>)
    requires
        well_formed(t),
    ensures
        well_formed(t + named(names)),
{
    let whole = t + named(names);
    assert forall|i: int| 0 <= i < whole.len() implies node_well_formed(#[trigger] whole[i]) by {
        if i < t.len() {
            assert(node_well_formed(t[i]));
        }
    }
}

/// The elimination of the parameters of a definition with a well-formed body has a
/// result; its body is well-formed, and stands for the bracket abstraction of all
/// parameters from what the body stood for.
pub proof fn lemma_eliminate_definition_tree(definition: Definition)
    requires
        well_formed(definition.body),
    ensures
        eliminate(definition) is Some,
        well_formed(eliminate(definition)->0.body),
        term_tree(eliminate(definition)->0.body) == abstract_all(
            term_tree(definition.body),
            definition.params,
        ),
    decreases definition.params.len(),
{
    if definition.params.len() > 0 {
        let wrapped = abstract_last(definition).body;
        let pending = Node::Abstraction(definition.body, definition.params.last());
        assert(wrapped[0] == pending);
        assert forall|i: int| 0 <= i < wrapped.len() implies node_orderly(
            #[trigger] wrapped[i],
        ) by {}
        lemma_eliminate_tree(wrapped);
        lemma_tree_short(pending, pending, pending);
        let next = Definition {
            name: definition.name,
            params: definition.params.drop_last(),
            body: eliminate_abstractions(wrapped)->0,
        };
        lemma_eliminate_definition_tree(next);
    }
}

/// Bracket abstraction is transparent. Take a definition whose body is well-formed
/// and whose parameters carry no name of a primitive, and as many atoms as it
/// has parameters. Then the body with the atoms in the place of the parameters, and the
/// point-free body applied to the atoms, reduce to the same normal form: where reduction
/// has a result for both, on whatever fuel, the two results are equal. Where a name
/// stands twice among the parameters, the later one binds.
pub proof fn lemma_elimination_transparent(
    definition: Definition,
    arguments: Seq<Seq<char>>,
    direct_fuel: nat,
    applied_fuel: nat,
)
    requires
        well_formed(definition.body),
        arguments.len() == definition.params.len(),
        forall|i: int|
            0 <= i < definition.params.len() ==> !is_primitive_name(
                #[trigger] definition.params[i],
            ),
        normalize(
            instantiate(definition.body, definition.params, arguments),
            direct_fuel,
        ) is Ok,
        normalize(eliminate(definition)->0.body + named(arguments), applied_fuel) is Ok,
    ensures
        eliminate(definition) is Some,
        normalize(instantiate(definition.body, definition.params, arguments), direct_fuel)
            == normalize(eliminate(definition)->0.body + named(arguments), applied_fuel),
{
    let direct = instantiate(definition.body, definition.params, arguments);
    lemma_eliminate_definition_tree(definition);
    let point_free = eliminate(definition)->0.body;
    let applied_term = point_free + named(arguments);
    let first = normalize(direct, direct_fuel)->Ok_0;
    let second = normalize(applied_term, applied_fuel)->Ok_0;

    lemma_instantiate(definition.body, definition.params, arguments);
    lemma_followed_by_atoms(point_free, arguments);
    lemma_tree_concat(point_free, named(arguments));
    lemma_applied_named(term_tree(point_free), arguments);
    let steps = lemma_abstract_all_applied(
        term_tree(definition.body),
        definition.params,
        leaves(arguments),
    );

    lemma_normalize_reaches(direct, direct_fuel);
    lemma_normalize_reaches(applied_term, applied_fuel);
    lemma_normalize_canonical(direct, direct_fuel);
    lemma_normalize_canonical(applied_term, applied_fuel);
    lemma_stable_normal(first);
    lemma_stable_normal(second);
    lemma_reaches_joined(
        term_tree(applied_term),
        term_tree(direct),
        term_tree(first),
        steps,
        direct_fuel,
    );
    lemma_normal_form_unique(
        term_tree(applied_term),
        term_tree(first),
        term_tree(second),
        steps + direct_fuel,
        applied_fuel,
    );
    lemma_tree_injective(first, second);
}

/// Reduction finds the normal form: where what a well-formed term stands for
/// reaches a normal form by reductions in a row, reduction of the term has a result on
/// the fuel that is returned, and the result stands for that normal form.
pub proof fn lemma_normalize_complete(t: Term, normal_form: Tree, steps: nat) -> (fuel: nat)
    requires
        well_formed(t),
        reaches(term_tree(t), normal_form, steps),
        normal(normal_form),
    ensures
        normalize(t, fuel) is Ok,
        term_tree(normalize(t, fuel)->Ok_0) == normal_form,
{
    let passes = lemma_strategy_normalizes(term_tree(t), normal_form, steps);
    assert(pass_times(term_tree(t), passes) == normal_form);
    lemma_normalize_follows(t, passes, passes);
    passes
}

/// Where the body of a definition, with atoms in the place of the parameters, reduces to
/// a normal form, the point-free body applied to the atoms reduces to the same normal
/// form, on the fuel that is returned. The body is to be well-formed, and no
/// parameter may carry the name of a primitive.
pub proof fn lemma_applied_follows_direct(
    definition: Definition,
    arguments: Seq<Seq<char>>,
    direct_fuel: nat,
) -> (applied_fuel: nat)
    requires
        well_formed(definition.body),
        arguments.len() == definition.params.len(),
        forall|i: int|
            0 <= i < definition.params.len() ==> !is_primitive_name(
                #[trigger] definition.params[i],
            ),
        normalize(
            instantiate(definition.body, definition.params, arguments),
            direct_fuel,
        ) is Ok,
    ensures
        eliminate(definition) is Some,
        normalize(eliminate(definition)->0.body + named(arguments), applied_fuel) == normalize(
            instantiate(definition.body, definition.params, arguments),
            direct_fuel,
        ),
{
    let direct = instantiate(definition.body, definition.params, arguments);
    lemma_eliminate_definition_tree(definition);
    let point_free = eliminate(definition)->0.body;
    let applied_term = point_free + named(arguments);
    let result = normalize(direct, direct_fuel)->Ok_0;

    lemma_instantiate(definition.body, definition.params, arguments);
    lemma_followed_by_atoms(point_free, arguments);
    lemma_tree_concat(point_free, named(arguments));
    lemma_applied_named(term_tree(point_free), arguments);
    let steps = lemma_abstract_all_applied(
        term_tree(definition.body),
        definition.params,
        leaves(arguments),
    );
    lemma_normalize_reaches(direct, direct_fuel);
    lemma_normalize_canonical(direct, direct_fuel);
    lemma_stable_normal(result);
    lemma_reaches_joined(
        term_tree(applied_term),
        term_tree(direct),
        term_tree(result),
        steps,
        direct_fuel,
    );
    let applied_fuel = lemma_normalize_complete(
        applied_term,
        term_tree(result),
        steps + direct_fuel,
    );
    lemma_normalize_canonical(applied_term, applied_fuel);
    lemma_tree_injective(normalize(applied_term, applied_fuel)->Ok_0, result);
    applied_fuel
}

/// Where the point-free body of a definition, applied to atoms, reduces to a normal
/// form, the body with the atoms in the place of the parameters reduces to the same
/// normal form, on the fuel that is returned. The body is to be well-formed,
/// and no parameter may carry the name of a primitive.
pub proof fn lemma_direct_follows_applied(
    definition: Definition,
    arguments: Seq<Seq<char>>,
    applied_fuel: nat,
) -> (direct_fuel: nat)
    requires
        well_formed(definition.body),
        arguments.len() == definition.params.len(),
        forall|i: int|
            0 <= i < definition.params.len() ==> !is_primitive_name(
                #[trigger] definition.params[i],
            ),
        normalize(eliminate(definition)->0.body + named(arguments), applied_fuel) is Ok,
    ensures
        eliminate(definition) is Some,
        normalize(instantiate(definition.body, definition.params, arguments), direct_fuel)
            == normalize(eliminate(definition)->0.body + named(arguments), applied_fuel),
{
    let direct = instantiate(definition.body, definition.params, arguments);
    lemma_eliminate_definition_tree(definition);
    let point_free = eliminate(definition)->0.body;
    let applied_term = point_free + named(arguments);
    let result = normalize(applied_term, applied_fuel)->Ok_0;

    lemma_instantiate(definition.body, definition.params, arguments);
    lemma_followed_by_atoms(point_free, arguments);
    lemma_tree_concat(point_free, named(arguments));
    lemma_applied_named(term_tree(point_free), arguments);
    let steps = lemma_abstract_all_applied(
        term_tree(definition.body),
        definition.params,
        leaves(arguments),
    );
    lemma_normalize_reaches(applied_term, applied_fuel);
    lemma_normalize_canonical(applied_term, applied_fuel);
    lemma_stable_normal(result);

    let n = if steps >= applied_fuel {
        steps
    } else {
        applied_fuel
    };
    let developed = develop_times(term_tree(applied_term), n);
    lemma_reaches_more(term_tree(applied_term), term_tree(direct), steps, n);
    lemma_reaches_more(term_tree(applied_term), term_tree(result), applied_fuel, n);
    lemma_reaches_development(term_tree(applied_term), term_tree(direct), n);
    lemma_reaches_development(term_tree(applied_term), term_tree(result), n);
    lemma_reaches_normal(term_tree(result), developed, n);

    let direct_fuel = lemma_normalize_complete(direct, term_tree(result), n);
    lemma_normalize_canonical(direct, direct_fuel);
    lemma_tree_injective(normalize(direct, direct_fuel)->Ok_0, result);
    direct_fuel
}

/// A defined name behaves as its definition says. Take a context in which the name of a
/// definition is bound to its point-free body, and atoms that the context does not
/// define. Then the name applied to the atoms, after substitution, reduces to what the
/// body of the definition reduces to with the atoms in the place of the parameters, on
/// the fuel that is returned. The body is to be well-formed, and no parameter may
/// carry the name of a primitive.
pub proof fn lemma_defined_name_behaves(
    definition: Definition,
    definitions: Seq<Definition>,
    arguments: Seq<Seq<char>>,
    direct_fuel: nat,
) -> (applied_fuel: nat)
    requires
        well_formed(definition.body),
        arguments.len() == definition.params.len(),
        forall|i: int|
            0 <= i < definition.params.len() ==> !is_primitive_name(
                #[trigger] definition.params[i],
            ),
        lookup(definitions, definition.name) == Some(eliminate(definition)->0.body),
        forall|i: int| 0 <= i < arguments.len() ==> lookup(definitions, #[trigger] arguments[i])
            is None,
        normalize(
            instantiate(definition.body, definition.params, arguments),
            direct_fuel,
        ) is Ok,
    ensures
        normalize(
            substitute(seq![Node::Atom(definition.name)] + named(arguments), definitions),
            applied_fuel,
        ) == normalize(instantiate(definition.body, definition.params, arguments), direct_fuel),
{
    let first = lemma_applied_follows_direct(definition, arguments, direct_fuel);
    lemma_eliminate_definition_tree(definition);
    let point_free = eliminate(definition)->0.body;
    let call = seq![Node::Atom(definition.name)] + named(arguments);
    let raw = seq![Node::Group(point_free)] + named(arguments);
    let unfolded = point_free + named(arguments);
    assert(substituted_nodes(call, definitions) =~= raw) by {
        assert forall|i: int| 0 <= i < call.len() implies substitute_node(call[i], definitions)
            == raw[i] by {
            if i > 0 {
                assert(call[i] == Node::Atom(arguments[i - 1]));
            }
        }
    }
    assert(well_formed(raw)) by {
        assert forall|i: int| 0 <= i < raw.len() implies node_well_formed(#[trigger] raw[i]) by {}
    }
    lemma_followed_by_atoms(point_free, arguments);
    lemma_canonicalize_well_formed(raw);
    lemma_well_formed_solid(raw);
    lemma_tree_canonicalize(raw);
    lemma_tree_splice(raw);
    assert(splice_head(raw) =~= unfolded);
    lemma_normalize_same_tree(unfolded, canonicalize(raw), first)
}

/// Well-formed terms that stand for the same tree reduce to the same normal form: where
/// reduction has a result for one of them, it has the same result for the other, on the
/// fuel that is returned.
pub proof fn lemma_normalize_same_tree(t: Term, u: Term, fuel: nat) -> (other: nat)
    requires
        well_formed(t),
        well_formed(u),
        term_tree(t) == term_tree(u),
        normalize(t, fuel) is Ok,
    ensures
        normalize(u, other) == normalize(t, fuel),
{
    let result = normalize(t, fuel)->Ok_0;
    lemma_normalize_reaches(t, fuel);
    lemma_normalize_canonical(t, fuel);
    lemma_stable_normal(result);
    let other = lemma_normalize_complete(u, term_tree(result), fuel);
    lemma_normalize_canonical(u, other);
    lemma_tree_injective(normalize(u, other)->Ok_0, result);
    other
}

} // verus!
