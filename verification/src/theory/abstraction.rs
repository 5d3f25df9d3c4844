//! Bracket abstraction on application trees, and its transparency: the abstraction of a
//! variable from a tree, applied to an argument, reduces to the tree with the argument in
//! the place of the variable.

use crate::theory::calculus::{
    app, lemma_par_rules, lemma_reaches_app, lemma_reaches_first, lemma_reaches_joined,
    lemma_reaches_more, lemma_reaches_self, par, primitive, reaches, tree_size, Tree,
};
use vstd::prelude::*;

verus! {

/// Whether the variable `v` occurs in the tree.
pub open spec fn occurs(t: Tree, v: Seq<char>) -> bool
    decreases t,
{
    match t {
        Tree::Leaf(x) => x == v,
        Tree::App(function, argument) => occurs(*function, v) || occurs(*argument, v),
    }
}

/// Bracket abstraction on a tree: a tree without `v` that, applied to an argument,
/// reduces to the given tree with the argument in the place of `v`.
pub open spec fn abstraction(t: Tree, v: Seq<char>) -> Tree
    decreases t,
{
    match t {
        Tree::Leaf(x) => if x == v {
            primitive('I')
        } else {
            app(primitive('K'), t)
        },
        Tree::App(function, argument) => {
            if occurs(*function, v) && occurs(*argument, v) {
                app(app(primitive('S'), abstraction(*function, v)), abstraction(*argument, v))
            } else if occurs(*function, v) {
                app(app(primitive('C'), abstraction(*function, v)), *argument)
            } else if *argument == Tree::Leaf(v) {
                *function
            } else if occurs(*argument, v) {
                app(app(primitive('B'), *function), abstraction(*argument, v))
            } else {
                app(primitive('K'), t)
            }
        },
    }
}

/// Whether the name is that of one of the five primitives.
pub open spec fn is_primitive_name(name: Seq<char>) -> bool {
    name == seq!['S'] || name == seq!['K'] || name == seq!['I'] || name == seq!['B'] || name
        == seq!['C']
}

/// What a substitution puts in the place of a name: the argument of the last parameter
/// of that name, if there is one. The parameters are bound to the arguments one by one.
pub open spec fn bound(params: Seq<Seq<char>>, args: Seq<Tree>, name: Seq<char>) -> Option<Tree>
    decreases params.len(),
{
    if params.len() == 0 || args.len() != params.len() {
        None
    } else if params.last() == name {
        Some(args.last())
    } else {
        bound(params.drop_last(), args.drop_last(), name)
    }
}

/// The tree with every parameter replaced by its argument, all at once.
pub open spec fn instantiate_tree(t: Tree, params: Seq<Seq<char>>, args: Seq<Tree>) -> Tree
    decreases t,
{
    match t {
        Tree::Leaf(name) => match bound(params, args, name) {
            Some(argument) => argument,
            None => t,
        },
        Tree::App(function, argument) => app(
            instantiate_tree(*function, params, args),
            instantiate_tree(*argument, params, args),
        ),
    }
}

/// A name that is no parameter is bound to nothing.
pub proof fn lemma_unbound(params: Seq<Seq<char>>, args: Seq<Tree>, name: Seq<char>)
    requires
        !params.contains(name),
    ensures
        bound(params, args, name) is None,
    decreases params.len(),
{
    if params.len() > 0 && args.len() == params.len() {
        assert(params.last() == params[params.len() - 1]);
        assert forall|i: int| 0 <= i < params.drop_last().len() implies params.drop_last()[i]
            != name by {
            assert(params.drop_last()[i] == params[i]);
        }
        lemma_unbound(params.drop_last(), args.drop_last(), name);
    }
}

/// Binding one more variable changes nothing in a tree in which the variable does not
/// occur.
pub proof fn lemma_instantiate_fresh(
    t: Tree,
    params: Seq<Seq<char>>,
    args: Seq<Tree>,
    v: Seq<char>,
    argument: Tree,
)
    requires
        !occurs(t, v),
        args.len() == params.len(),
    ensures
        instantiate_tree(t, params.push(v), args.push(argument)) == instantiate_tree(
            t,
            params,
            args,
        ),
    decreases t,
{
    assert(params.push(v).drop_last() =~= params);
    assert(args.push(argument).drop_last() =~= args);
    match t {
        Tree::Leaf(_) => {},
        Tree::App(function, other) => {
            lemma_instantiate_fresh(*function, params, args, v, argument);
            lemma_instantiate_fresh(*other, params, args, v, argument);
        },
    }
}

/// Bracket abstraction is transparent under any substitution for other variables: the
/// abstraction of `v` from a tree, with parameters replaced by arguments and then applied
/// to one argument more, reduces to the tree with the parameters and `v` replaced. No
/// parameter may carry the name of a primitive, since abstraction introduces primitives.
pub proof fn lemma_abstraction_applied(
    t: Tree,
    v: Seq<char>,
    params: Seq<Seq<char>>,
    args: Seq<Tree>,
    argument: Tree,
)
    requires
        args.len() == params.len(),
        forall|i: int| 0 <= i < params.len() ==> !is_primitive_name(#[trigger] params[i]),
    ensures
        reaches(
            app(instantiate_tree(abstraction(t, v), params, args), argument),
            instantiate_tree(t, params.push(v), args.push(argument)),
            tree_size(t),
        ),
    decreases t,
{
    reveal_with_fuel(instantiate_tree, 3);
    let extended = params.push(v);
    let values = args.push(argument);
    assert(extended.drop_last() =~= params);
    assert(values.drop_last() =~= args);
    assert(seq!['S'][0] == 'S' && seq!['K'][0] == 'K' && seq!['I'][0] == 'I' && seq!['B'][0]
        == 'B' && seq!['C'][0] == 'C');
    assert(!params.contains(seq!['S']) && !params.contains(seq!['K']) && !params.contains(
        seq!['I'],
    ) && !params.contains(seq!['B']) && !params.contains(seq!['C']));
    lemma_unbound(params, args, seq!['S']);
    lemma_unbound(params, args, seq!['K']);
    lemma_unbound(params, args, seq!['I']);
    lemma_unbound(params, args, seq!['B']);
    lemma_unbound(params, args, seq!['C']);
    let applied = app(instantiate_tree(abstraction(t, v), params, args), argument);
    let target = instantiate_tree(t, extended, values);
    match t {
        Tree::Leaf(x) => {
            let same = instantiate_tree(t, params, args);
            lemma_par_rules(argument, argument, argument);
            lemma_par_rules(same, argument, argument);
            if x == v {
                assert(abstraction(t, v) == primitive('I'));
                assert(instantiate_tree(primitive('I'), params, args) == primitive('I'));
                assert(extended.last() == v);
                assert(bound(extended, values, v) == Some(argument));
                assert(target == argument);
                assert(par(applied, target));
            } else {
                assert(abstraction(t, v) == app(primitive('K'), t));
                assert(instantiate_tree(primitive('K'), params, args) == primitive('K'));
                assert(bound(extended, values, x) == bound(params, args, x));
                assert(target == same);
                assert(par(applied, target));
            }
            lemma_reaches_self(target, 0);
            lemma_reaches_first(applied, target, target, 0);
        },
        Tree::App(function, other) => {
            let p = *function;
            let q = *other;
            let n = tree_size(t);
            let ap = instantiate_tree(abstraction(p, v), params, args);
            let aq = instantiate_tree(abstraction(q, v), params, args);
            let ip = instantiate_tree(p, params, args);
            let iq = instantiate_tree(q, params, args);
            let tp = instantiate_tree(p, extended, values);
            let tq = instantiate_tree(q, extended, values);
            lemma_par_rules(ap, aq, argument);
            lemma_par_rules(ap, iq, argument);
            lemma_par_rules(ip, aq, argument);
            lemma_par_rules(app(ip, iq), argument, argument);
            if occurs(p, v) && occurs(q, v) {
                lemma_abstraction_applied(p, v, params, args, argument);
                lemma_abstraction_applied(q, v, params, args, argument);
                lemma_reaches_more(app(ap, argument), tp, tree_size(p), (n - 1) as nat);
                lemma_reaches_more(app(aq, argument), tq, tree_size(q), (n - 1) as nat);
                lemma_reaches_app(
                    app(ap, argument),
                    app(aq, argument),
                    tp,
                    tq,
                    (n - 1) as nat,
                );
                lemma_reaches_first(
                    applied,
                    app(app(ap, argument), app(aq, argument)),
                    target,
                    (n - 1) as nat,
                );
            } else if occurs(p, v) {
                lemma_abstraction_applied(p, v, params, args, argument);
                lemma_instantiate_fresh(q, params, args, v, argument);
                lemma_reaches_more(app(ap, argument), tp, tree_size(p), (n - 1) as nat);
                lemma_reaches_self(iq, (n - 1) as nat);
                lemma_reaches_app(app(ap, argument), iq, tp, tq, (n - 1) as nat);
                lemma_reaches_first(applied, app(app(ap, argument), iq), target, (n - 1) as nat);
            } else if q == Tree::Leaf(v) {
                lemma_instantiate_fresh(p, params, args, v, argument);
                lemma_reaches_self(target, n);
            } else if occurs(q, v) {
                lemma_abstraction_applied(q, v, params, args, argument);
                lemma_instantiate_fresh(p, params, args, v, argument);
                lemma_reaches_more(app(aq, argument), tq, tree_size(q), (n - 1) as nat);
                lemma_reaches_self(ip, (n - 1) as nat);
                lemma_reaches_app(ip, app(aq, argument), tp, tq, (n - 1) as nat);
                lemma_reaches_first(applied, app(ip, app(aq, argument)), target, (n - 1) as nat);
            } else {
                lemma_instantiate_fresh(p, params, args, v, argument);
                lemma_instantiate_fresh(q, params, args, v, argument);
                lemma_reaches_self(target, (n - 1) as nat);
                lemma_reaches_first(applied, target, target, (n - 1) as nat);
            }
        },
    }
}

/// Bracket abstraction of every parameter, the last one first.
pub open spec fn abstract_all(t: Tree, params: Seq<Seq<char>>) -> Tree
    decreases params.len(),
{
    if params.len() == 0 {
        t
    } else {
        abstract_all(abstraction(t, params.last()), params.drop_last())
    }
}

/// The tree applied to the arguments, one after the other.
pub open spec fn apply_all(function: Tree, args: Seq<Tree>) -> Tree
    decreases args.len(),
{
    if args.len() == 0 {
        function
    } else {
        app(apply_all(function, args.drop_last()), args.last())
    }
}

/// Bracket abstraction of all parameters is transparent: the abstraction applied to as
/// many arguments as there are parameters reduces, in the number of reductions that is
/// returned, to the tree with each parameter replaced by its argument.
pub proof fn lemma_abstract_all_applied(t: Tree, params: Seq<Seq<char>>, args: Seq<Tree>) -> (n:
    nat)
    requires
        args.len() == params.len(),
        forall|i: int| 0 <= i < params.len() ==> !is_primitive_name(#[trigger] params[i]),
    ensures
        reaches(
            apply_all(abstract_all(t, params), args),
            instantiate_tree(t, params, args),
            n,
        ),
    decreases params.len(),
{
    if params.len() == 0 {
        assert(instantiate_tree(t, params, args) == t) by {
            lemma_instantiate_nothing(t, params, args);
        }
        assert(reaches(t, t, 0));
        0
    } else {
        let v = params.last();
        let argument = args.last();
        let inner = abstraction(t, v);
        assert forall|i: int| 0 <= i < params.drop_last().len() implies !is_primitive_name(
            #[trigger] params.drop_last()[i],
        ) by {
            assert(params.drop_last()[i] == params[i]);
        }
        let first = lemma_abstract_all_applied(inner, params.drop_last(), args.drop_last());
        lemma_abstraction_applied(t, v, params.drop_last(), args.drop_last(), argument);
        assert(params.drop_last().push(v) =~= params);
        assert(args.drop_last().push(argument) =~= args);
        let applied_inner = apply_all(abstract_all(inner, params.drop_last()), args.drop_last());
        let instance = instantiate_tree(inner, params.drop_last(), args.drop_last());
        lemma_reaches_self(argument, first);
        lemma_reaches_app(applied_inner, argument, instance, argument, first);
        lemma_reaches_joined(
            app(applied_inner, argument),
            app(instance, argument),
            instantiate_tree(t, params, args),
            first,
            tree_size(t),
        );
        first + tree_size(t)
    }
}

/// The empty substitution changes nothing.
pub proof fn lemma_instantiate_nothing(t: Tree, params: Seq<Seq<char>>, args: Seq<Tree>)
    requires
        params.len() == 0,
    ensures
        instantiate_tree(t, params, args) == t,
    decreases t,
{
    match t {
        Tree::Leaf(_) => {},
        Tree::App(function, argument) => {
            lemma_instantiate_nothing(*function, params, args);
            lemma_instantiate_nothing(*argument, params, args);
        },
    }
}

} // verus!
