//! What terms stand for: the application tree of a term, which canonicalisation keeps
//! and which a rewriting pass reduces.

use crate::canonical::{
    canonicalize, lemma_canonicalize_well_formed, regroup, regroup_node, regroup_times, splice_head,
    unwrap_single,
};
use crate::error::CombinatorError;
use crate::measure::term_size;
use crate::reduction::{
    blocked, fires, head_rewrite, node_blocked, normalize, rewrite, rewrite_node,
};
use crate::term::{
    lemma_primitive_symbols_distinct, node_well_formed, symbol, well_formed, Node, Term,
};
use crate::theory::abstraction::abstraction;
use crate::theory::calculus::{
    app, head, lemma_primitives_distinct, lemma_reaches_first, lemma_reaches_more,
    lemma_redex_spine, par, primitive, reaches, spine, Tree,
};
use crate::theory::strategy::{
    head_contract, lemma_head_contract_app, lemma_head_contract_par, lemma_head_redex,
};
use vstd::prelude::*;

verus! {

/// What a node stands for: an atom for a leaf, a group for what its body stands for, and
/// an abstraction for the bracket abstraction of what its body stands for.
pub open spec fn node_tree(n: Node) -> Tree
    decreases n,
{
    match n {
        Node::Atom(name) => Tree::Leaf(name),
        Node::Group(body) => term_tree(body),
        Node::Abstraction(body, v) => abstraction(term_tree(body), v),
    }
}

/// What a term stands for: its first node applied to the others, one after the other.
/// An empty term stands for nothing; it is given the leaf without a name.
pub open spec fn term_tree(t: Term) -> Tree
    decreases t,
{
    if t.len() == 0 {
        Tree::Leaf(Seq::empty())
    } else if t.len() == 1 {
        node_tree(t[0])
    } else {
        app(term_tree(t.drop_last()), node_tree(t.last()))
    }
}

/// The tree applied to what the nodes stand for, one after the other.
pub open spec fn applied(function: Tree, arguments: Term) -> Tree
    decreases arguments.len(),
{
    if arguments.len() == 0 {
        function
    } else {
        app(applied(function, arguments.drop_last()), node_tree(arguments.last()))
    }
}

/// A term stands for its first node applied to the rest.
pub proof fn lemma_tree_applied(t: Term)
    requires
        t.len() > 0,
    ensures
        term_tree(t) == applied(node_tree(t[0]), t.subrange(1, t.len() as int)),
    decreases t.len(),
{
    let rest = t.subrange(1, t.len() as int);
    if t.len() == 1 {
        assert(rest.len() == 0);
    } else {
        lemma_tree_applied(t.drop_last());
        assert(t.drop_last().subrange(1, t.len() - 1) =~= rest.drop_last());
        assert(rest.last() == t.last());
    }
}

/// Applying to two runs of arguments in turn is applying to both at once.
pub proof fn lemma_applied_concat(function: Tree, a: Term, b: Term)
    ensures
        applied(function, a + b) == applied(applied(function, a), b),
    decreases b.len(),
{
    if b.len() == 0 {
        assert(a + b =~= a);
    } else {
        lemma_applied_concat(function, a, b.drop_last());
        assert((a + b).drop_last() =~= a + b.drop_last());
        assert((a + b).last() == b.last());
    }
}

/// A term followed by more nodes stands for the term applied to them.
pub proof fn lemma_tree_concat(a: Term, b: Term)
    requires
        a.len() > 0,
    ensures
        term_tree(a + b) == applied(term_tree(a), b),
{
    lemma_tree_applied(a);
    lemma_tree_applied(a + b);
    let rest = a.subrange(1, a.len() as int);
    assert((a + b).subrange(1, (a + b).len() as int) =~= rest + b);
    lemma_applied_concat(node_tree(a[0]), rest, b);
}

/// Arguments that stand for the same trees, one by one, give the same application.
pub proof fn lemma_applied_pointwise(function: Tree, a: Term, b: Term)
    requires
        a.len() == b.len(),
        forall|i: int| 0 <= i < a.len() ==> node_tree(#[trigger] a[i]) == node_tree(b[i]),
    ensures
        applied(function, a) == applied(function, b),
    decreases a.len(),
{
    if a.len() > 0 {
        assert forall|i: int| 0 <= i < a.drop_last().len() implies node_tree(
            #[trigger] a.drop_last()[i],
        ) == node_tree(b.drop_last()[i]) by {
            assert(a.drop_last()[i] == a[i]);
            assert(b.drop_last()[i] == b[i]);
        }
        lemma_applied_pointwise(function, a.drop_last(), b.drop_last());
        assert(node_tree(a[a.len() - 1]) == node_tree(b[a.len() - 1]));
    }
}

/// Terms whose nodes stand for the same trees, one by one, stand for the same tree.
pub proof fn lemma_tree_pointwise(a: Term, b: Term)
    requires
        a.len() == b.len(),
        forall|i: int| 0 <= i < a.len() ==> node_tree(#[trigger] a[i]) == node_tree(b[i]),
    ensures
        term_tree(a) == term_tree(b),
{
    if a.len() > 0 {
        lemma_tree_applied(a);
        lemma_tree_applied(b);
        let rest_a = a.subrange(1, a.len() as int);
        let rest_b = b.subrange(1, b.len() as int);
        assert forall|i: int| 0 <= i < rest_a.len() implies node_tree(#[trigger] rest_a[i])
            == node_tree(rest_b[i]) by {
            assert(rest_a[i] == a[i + 1]);
            assert(rest_b[i] == b[i + 1]);
        }
        assert(node_tree(a[0]) == node_tree(b[0]));
        lemma_applied_pointwise(node_tree(a[0]), rest_a, rest_b);
    }
}

/// A term in which no term, group or abstraction body is empty.
pub open spec fn solid(t: Term) -> bool
    decreases t,
{
    t.len() > 0 && forall|i: int| 0 <= i < t.len() ==> node_solid(#[trigger] t[i])
}

/// A node in which no group or abstraction body is empty.
pub open spec fn node_solid(n: Node) -> bool
    decreases n,
{
    match n {
        Node::Atom(_) => true,
        Node::Group(body) => solid(body),
        Node::Abstraction(body, _) => solid(body),
    }
}

/// A regrouping pass keeps a solid term solid.
pub proof fn lemma_regroup_solid(t: Term)
    requires
        solid(t),
    ensures
        solid(regroup(t)),
    decreases t, 1nat,
{
    let spliced = splice_head(t);
    assert(node_solid(t[0]));
    assert forall|i: int| 0 <= i < spliced.len() implies node_solid(
        #[trigger] regroup(t)[i],
    ) by {
        let source = spliced[i];
        if t[0] is Group {
            let body = t[0]->Group_0;
            if i < body.len() {
                assert(source == body[i]);
                assert(node_solid(body[i]));
            } else {
                assert(source == t[i - body.len() + 1]);
                assert(node_solid(t[i - body.len() + 1]));
            }
        } else {
            assert(node_solid(t[i]));
        }
        if source is Group && source->Group_0.len() == 1 {
            assert(node_solid(source->Group_0[0]));
        }
        lemma_regroup_node_solid(unwrap_single(source));
    }
}

/// A regrouping pass keeps a solid node solid.
pub proof fn lemma_regroup_node_solid(n: Node)
    requires
        node_solid(n),
    ensures
        node_solid(regroup_node(n)),
    decreases n, 0nat,
{
    match n {
        Node::Atom(_) => {},
        Node::Group(body) => lemma_regroup_solid(body),
        Node::Abstraction(body, _) => lemma_regroup_solid(body),
    }
}

/// Splicing a leading group changes nothing in what a term stands for.
pub proof fn lemma_tree_splice(t: Term)
    requires
        solid(t),
    ensures
        term_tree(splice_head(t)) == term_tree(t),
{
    assert(node_solid(t[0]));
    if t[0] is Group {
        let body = t[0]->Group_0;
        let rest = t.subrange(1, t.len() as int);
        lemma_tree_applied(t);
        lemma_tree_concat(body, rest);
    }
}

/// A regrouping pass changes nothing in what a term stands for.
pub proof fn lemma_tree_regroup(t: Term)
    requires
        solid(t),
    ensures
        term_tree(regroup(t)) == term_tree(t),
    decreases t, 1nat,
{
    let spliced = splice_head(t);
    assert(node_solid(t[0]));
    assert forall|i: int| 0 <= i < spliced.len() implies node_tree(
        #[trigger] regroup(t)[i],
    ) == node_tree(spliced[i]) by {
        let source = spliced[i];
        if t[0] is Group {
            let body = t[0]->Group_0;
            if i < body.len() {
                assert(source == body[i]);
                assert(node_solid(body[i]));
            } else {
                assert(source == t[i - body.len() + 1]);
                assert(node_solid(t[i - body.len() + 1]));
            }
        } else {
            assert(node_solid(t[i]));
        }
        if source is Group && source->Group_0.len() == 1 {
            assert(node_solid(source->Group_0[0]));
        }
        lemma_node_tree_regroup(unwrap_single(source));
    }
    lemma_tree_pointwise(regroup(t), spliced);
    lemma_tree_splice(t);
}

/// A regrouping pass changes nothing in what a node stands for.
pub proof fn lemma_node_tree_regroup(n: Node)
    requires
        node_solid(n),
    ensures
        node_tree(regroup_node(n)) == node_tree(n),
    decreases n, 0nat,
{
    match n {
        Node::Atom(_) => {},
        Node::Group(body) => lemma_tree_regroup(body),
        Node::Abstraction(body, _) => lemma_tree_regroup(body),
    }
}

/// A well-formed term is solid.
pub proof fn lemma_well_formed_solid(t: Term)
    requires
        well_formed(t),
    ensures
        solid(t),
    decreases t, 1nat,
{
    assert forall|i: int| 0 <= i < t.len() implies node_solid(#[trigger] t[i]) by {
        assert(node_well_formed(t[i]));
        lemma_node_well_formed_solid(t[i]);
    }
}

/// A well-formed node is solid.
pub proof fn lemma_node_well_formed_solid(n: Node)
    requires
        node_well_formed(n),
    ensures
        node_solid(n),
    decreases n, 0nat,
{
    match n {
        Node::Atom(_) => {},
        Node::Group(body) => lemma_well_formed_solid(body),
        Node::Abstraction(_, _) => {},
    }
}

/// Parallel reduction of a function and of each of its arguments is parallel reduction
/// of the application.
pub proof fn lemma_par_applied(function: Tree, reduct: Tree, a: Term, b: Term)
    requires
        par(function, reduct),
        a.len() == b.len(),
        forall|i: int| 0 <= i < a.len() ==> par(node_tree(#[trigger] a[i]), node_tree(b[i])),
    ensures
        par(applied(function, a), applied(reduct, b)),
    decreases a.len(),
{
    if a.len() > 0 {
        assert forall|i: int| 0 <= i < a.drop_last().len() implies par(
            node_tree(#[trigger] a.drop_last()[i]),
            node_tree(b.drop_last()[i]),
        ) by {
            assert(a.drop_last()[i] == a[i]);
            assert(b.drop_last()[i] == b[i]);
        }
        lemma_par_applied(function, reduct, a.drop_last(), b.drop_last());
        assert(par(node_tree(a[a.len() - 1]), node_tree(b[a.len() - 1])));
    }
}

/// Parallel reduction of each node of a term is parallel reduction of the term.
pub proof fn lemma_par_pointwise(a: Term, b: Term)
    requires
        a.len() == b.len(),
        forall|i: int| 0 <= i < a.len() ==> par(node_tree(#[trigger] a[i]), node_tree(b[i])),
    ensures
        par(term_tree(a), term_tree(b)),
{
    if a.len() > 0 {
        lemma_tree_applied(a);
        lemma_tree_applied(b);
        let rest_a = a.subrange(1, a.len() as int);
        let rest_b = b.subrange(1, b.len() as int);
        assert forall|i: int| 0 <= i < rest_a.len() implies par(
            node_tree(#[trigger] rest_a[i]),
            node_tree(rest_b[i]),
        ) by {
            assert(rest_a[i] == a[i + 1]);
            assert(rest_b[i] == b[i + 1]);
        }
        assert(par(node_tree(a[0]), node_tree(b[0])));
        lemma_par_applied(node_tree(a[0]), node_tree(b[0]), rest_a, rest_b);
    }
}

/// What two and three nodes in a row stand for.
pub proof fn lemma_tree_short(a: Node, b: Node, c: Node)
    ensures
        term_tree(seq![a]) == node_tree(a),
        term_tree(seq![a, b]) == app(node_tree(a), node_tree(b)),
        term_tree(seq![a, b, c]) == app(app(node_tree(a), node_tree(b)), node_tree(c)),
{
    assert(seq![a, b].drop_last() =~= seq![a]);
    assert(seq![a, b, c].drop_last() =~= seq![a, b]);
}

/// What four nodes in a row stand for.
pub proof fn lemma_tree_four(a: Node, b: Node, c: Node, d: Node)
    ensures
        term_tree(seq![a, b, c, d]) == app(
            app(app(node_tree(a), node_tree(b)), node_tree(c)),
            node_tree(d),
        ),
{
    lemma_tree_short(a, b, c);
    assert(seq![a, b, c, d].drop_last() =~= seq![a, b, c]);
}

/// The rewrite at the head of a function is the rewrite at the head of the function
/// applied to arguments.
pub proof fn lemma_head_contract_applied(function: Tree, arguments: Term)
    requires
        head_contract(function) is Some,
    ensures
        head_contract(applied(function, arguments)) == Some(
            applied(head_contract(function)->0, arguments),
        ),
    decreases arguments.len(),
{
    if arguments.len() > 0 {
        lemma_head_contract_applied(function, arguments.drop_last());
        lemma_head_contract_app(
            applied(function, arguments.drop_last()),
            node_tree(arguments.last()),
        );
    }
}

/// The rewrite at the head of a term is the rewrite at the head of what the term
/// stands for.
pub proof fn lemma_head_rewrite_tree(t: Term)
    requires
        head_rewrite(t) is Some,
    ensures
        head_contract(term_tree(t)) == Some(term_tree(head_rewrite(t)->0)),
{
    let next = head_rewrite(t)->0;
    lemma_primitive_symbols_distinct();
    lemma_primitives_distinct();
    reveal_with_fuel(spine, 4);
    reveal_with_fuel(head, 4);
    if t.len() >= 2 && t[0] == symbol('I') {
        let rest = t.subrange(2, t.len() as int);
        assert(t =~= seq![t[0], t[1]] + rest);
        assert(next =~= seq![t[1]] + rest);
        lemma_tree_concat(seq![t[0], t[1]], rest);
        lemma_tree_concat(seq![t[1]], rest);
        lemma_tree_short(t[0], t[1], t[1]);
        lemma_tree_short(t[1], t[1], t[1]);
        let redex = app(primitive('I'), node_tree(t[1]));
        lemma_head_redex(redex);
        lemma_head_redex(primitive('I'));
        lemma_redex_spine(redex);
        assert(head_contract(redex) == Some(node_tree(t[1])));
        lemma_head_contract_applied(redex, rest);
    } else if t.len() >= 3 && t[0] == symbol('K') {
        let rest = t.subrange(3, t.len() as int);
        assert(t =~= seq![t[0], t[1], t[2]] + rest);
        lemma_tree_concat(seq![t[0], t[1], t[2]], rest);
        lemma_tree_concat(seq![t[1]], rest);
        lemma_tree_short(t[0], t[1], t[2]);
        lemma_tree_short(t[1], t[1], t[1]);
        let partial = app(primitive('K'), node_tree(t[1]));
        let redex = app(partial, node_tree(t[2]));
        lemma_head_redex(partial);
        lemma_redex_spine(redex);
        assert(head_contract(redex) == Some(node_tree(t[1])));
        lemma_head_contract_applied(redex, rest);
    } else {
        let rest = t.subrange(4, t.len() as int);
        let x = node_tree(t[1]);
        let y = node_tree(t[2]);
        let z = node_tree(t[3]);
        assert(t =~= seq![t[0], t[1], t[2], t[3]] + rest);
        lemma_tree_concat(seq![t[0], t[1], t[2], t[3]], rest);
        lemma_tree_four(t[0], t[1], t[2], t[3]);
        let pair = Node::Group(seq![t[2], t[3]]);
        lemma_tree_short(t[2], t[3], t[3]);
        let partial = app(app(node_tree(t[0]), x), y);
        let redex = app(partial, z);
        lemma_head_redex(partial);
        lemma_redex_spine(redex);
        if t[0] == symbol('S') {
            let front = seq![t[1], t[3], pair];
            lemma_tree_concat(front, rest);
            lemma_tree_short(t[1], t[3], pair);
            assert(head_contract(redex) == Some(app(app(x, z), app(y, z))));
        } else if t[0] == symbol('B') {
            let front = seq![t[1], pair];
            lemma_tree_concat(front, rest);
            lemma_tree_short(t[1], pair, pair);
            assert(head_contract(redex) == Some(app(x, app(y, z))));
        } else {
            let front = seq![t[1], t[3], t[2]];
            lemma_tree_concat(front, rest);
            lemma_tree_short(t[1], t[3], t[2]);
            assert(head_contract(redex) == Some(app(app(x, z), y)));
        }
        lemma_head_contract_applied(redex, rest);
    }
}

/// The rewrite at the head of a term is a parallel reduction of what the term stands
/// for, and keeps the term well-formed.
pub proof fn lemma_head_rewrite_par(t: Term)
    requires
        well_formed(t),
        head_rewrite(t) is Some,
    ensures
        par(term_tree(t), term_tree(head_rewrite(t)->0)),
        well_formed(head_rewrite(t)->0),
{
    let next = head_rewrite(t)->0;
    lemma_head_rewrite_tree(t);
    lemma_head_contract_par(term_tree(t));
    lemma_primitive_symbols_distinct();
    assert forall|i: int| 0 <= i < t.len() implies node_well_formed(t[i]) by {}
    if t.len() >= 4 {
        let pair = Node::Group(seq![t[2], t[3]]);
        assert(node_well_formed(pair)) by {
            assert forall|i: int| 0 <= i < 2 implies node_well_formed(
                #[trigger] pair->Group_0[i],
            ) by {}
        }
    }
    assert forall|i: int| 0 <= i < next.len() implies node_well_formed(#[trigger] next[i]) by {
        if t.len() >= 2 && t[0] == symbol('I') {
            assert(next[i] == t[i + 1]);
        } else if t.len() >= 3 && t[0] == symbol('K') {
            if i > 0 {
                assert(next[i] == t[i + 2]);
            }
        } else if t[0] == symbol('S') || t[0] == symbol('C') {
            if i >= 3 {
                assert(next[i] == t[i + 1]);
            }
        } else {
            if i >= 2 {
                assert(next[i] == t[i + 2]);
            }
        }
    }
}

/// A rewriting pass over a well-formed term meets no abstraction, is a parallel
/// reduction of what the term stands for, and keeps the term well-formed.
pub proof fn lemma_rewrite_par(t: Term)
    requires
        well_formed(t),
    ensures
        !blocked(t),
        par(term_tree(t), term_tree(rewrite(t))),
        well_formed(rewrite(t)),
    decreases t, 1nat,
{
    assert forall|i: int| 0 <= i < t.len() implies !node_blocked(#[trigger] t[i]) && par(
        node_tree(t[i]),
        node_tree(rewrite_node(t[i])),
    ) && node_well_formed(rewrite_node(t[i])) by {
        assert(node_well_formed(t[i]));
        lemma_node_rewrite_par(t[i]);
    }
    if head_rewrite(t) is Some {
        lemma_head_rewrite_par(t);
    } else {
        let next = rewrite(t);
        assert forall|i: int| 0 <= i < t.len() implies par(
            node_tree(#[trigger] t[i]),
            node_tree(next[i]),
        ) by {}
        lemma_par_pointwise(t, next);
        assert forall|i: int| 0 <= i < next.len() implies node_well_formed(#[trigger] next[i]) by {
            assert(node_well_formed(rewrite_node(t[i])));
        }
    }
}

/// A rewriting pass over a well-formed node meets no abstraction, is a parallel
/// reduction of what the node stands for, and keeps the node well-formed.
pub proof fn lemma_node_rewrite_par(n: Node)
    requires
        node_well_formed(n),
    ensures
        !node_blocked(n),
        par(node_tree(n), node_tree(rewrite_node(n))),
        node_well_formed(rewrite_node(n)),
    decreases n, 0nat,
{
    match n {
        Node::Atom(_) => {},
        Node::Group(body) => lemma_rewrite_par(body),
        Node::Abstraction(_, _) => {},
    }
}

/// The normal form that reduction gives for a well-formed term is reached, in what the
/// terms stand for, by as many parallel reductions as there was fuel; and a well-formed
/// term never makes reduction meet an abstraction.
pub proof fn lemma_normalize_reaches(t: Term, fuel: nat)
    requires
        well_formed(t),
    ensures
        normalize(t, fuel) != Err::<Term, CombinatorError>(CombinatorError::InvariantViolation),
        normalize(t, fuel) matches Ok(normal) ==> well_formed(normal) && reaches(
            term_tree(t),
            term_tree(normal),
            fuel,
        ),
    decreases fuel,
{
    let tidy = canonicalize(t);
    lemma_canonicalize_well_formed(t);
    lemma_well_formed_solid(t);
    lemma_tree_canonicalize(t);
    lemma_rewrite_par(tidy);
    if !fires(tidy) {
        assert(reaches(term_tree(t), term_tree(tidy), 0));
        lemma_reaches_more(term_tree(t), term_tree(tidy), 0, fuel);
    } else if fuel > 0 {
        let next = rewrite(tidy);
        lemma_normalize_reaches(next, (fuel - 1) as nat);
        if normalize(t, fuel) is Ok {
            lemma_reaches_first(
                term_tree(t),
                term_tree(next),
                term_tree(normalize(t, fuel)->Ok_0),
                (fuel - 1) as nat,
            );
        }
    }
}

/// Passes keep a solid term solid, and change nothing in what it stands for.
pub proof fn lemma_tree_regroup_times(t: Term, n: nat)
    requires
        solid(t),
    ensures
        solid(regroup_times(t, n)),
        term_tree(regroup_times(t, n)) == term_tree(t),
    decreases n,
{
    if n > 0 {
        lemma_tree_regroup_times(t, (n - 1) as nat);
        lemma_regroup_solid(regroup_times(t, (n - 1) as nat));
        lemma_tree_regroup(regroup_times(t, (n - 1) as nat));
    }
}

/// The canonical form of a solid term is solid, and stands for what the term stands for.
pub proof fn lemma_tree_canonicalize(t: Term)
    requires
        solid(t),
    ensures
        solid(canonicalize(t)),
        term_tree(canonicalize(t)) == term_tree(t),
{
    lemma_tree_regroup_times(t, term_size(t));
}

} // verus!
