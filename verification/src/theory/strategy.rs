//! The reduction strategy on application trees: the redex at the head is rewritten
//! first, and only a tree without one is rewritten inside its arguments. The strategy
//! finds the normal form of every tree that has one.

use crate::theory::calculus::{
    app, applies_one, applies_three, applies_two, first, head, is_redex, left, lemma_par_app,
    lemma_par_rules, lemma_primitives_distinct, lemma_redex_spine, normal, par, primitive, reaches,
    right, second, spine, tree_size, Tree,
};
use vstd::prelude::*;

verus! {

/// What the rewrite rule at the root of a redex gives.
pub open spec fn contract(t: Tree) -> Tree {
    if applies_one(t, 'I') {
        right(t)
    } else if applies_two(t, 'K') {
        first(t)
    } else if applies_three(t, 'S') {
        app(app(first(t), right(t)), app(second(t), right(t)))
    } else if applies_three(t, 'B') {
        app(first(t), app(second(t), right(t)))
    } else {
        app(app(first(t), right(t)), second(t))
    }
}

/// The rewrite of the redex at the head of the tree: of the primitive at the bottom of
/// the spine with exactly the arguments that its rule needs. There is none where the
/// head is no primitive or has too few arguments.
pub open spec fn head_contract(t: Tree) -> Option<Tree>
    decreases t,
{
    match t {
        Tree::Leaf(_) => None,
        Tree::App(function, argument) => match head_contract(*function) {
            Some(reduct) => Some(app(reduct, *argument)),
            None => if is_redex(t) {
                Some(contract(t))
            } else {
                None
            },
        },
    }
}

/// One pass of the strategy inside the arguments of a tree, each on its own.
pub open spec fn inner_pass(t: Tree) -> Tree
    decreases t, 0nat,
{
    match t {
        Tree::Leaf(_) => t,
        Tree::App(function, argument) => app(inner_pass(*function), pass(*argument)),
    }
}

/// One pass of the strategy: the rewrite at the head where there is a redex, and
/// otherwise a pass inside every argument.
pub open spec fn pass(t: Tree) -> Tree
    decreases t, 1nat,
{
    match head_contract(t) {
        Some(reduct) => reduct,
        None => inner_pass(t),
    }
}

/// The tree after `n` passes of the strategy.
pub open spec fn pass_times(t: Tree, n: nat) -> Tree
    decreases n,
{
    if n == 0 {
        t
    } else {
        pass_times(pass(t), (n - 1) as nat)
    }
}

/// A redex reduces to its contractum.
pub proof fn lemma_contract_par(t: Tree)
    requires
        is_redex(t),
    ensures
        par(t, contract(t)),
{
    lemma_primitives_distinct();
    lemma_par_rules(first(t), second(t), right(t));
    lemma_par_rules(right(t), right(t), right(t));
    lemma_par_rules(first(t), right(t), right(t));
    if applies_one(t, 'I') {
        assert(t == app(primitive('I'), right(t)));
    } else if applies_two(t, 'K') {
        assert(t == app(app(primitive('K'), first(t)), right(t)));
    } else if applies_three(t, 'S') {
        assert(t == app(app(app(primitive('S'), first(t)), second(t)), right(t)));
    } else if applies_three(t, 'B') {
        assert(t == app(app(app(primitive('B'), first(t)), second(t)), right(t)));
    } else {
        assert(t == app(app(app(primitive('C'), first(t)), second(t)), right(t)));
    }
}

/// The rewrite at the head is a parallel reduction.
pub proof fn lemma_head_contract_par(t: Tree)
    requires
        head_contract(t) is Some,
    ensures
        par(t, head_contract(t)->0),
    decreases t,
{
    if head_contract(left(t)) is Some {
        lemma_head_contract_par(left(t));
        lemma_par_app(left(t), right(t), head_contract(left(t))->0, right(t));
    } else {
        lemma_contract_par(t);
    }
}

/// A pass of the strategy is a parallel reduction.
pub proof fn lemma_pass_par(t: Tree)
    ensures
        par(t, pass(t)),
    decreases t, 1nat,
{
    if head_contract(t) is Some {
        lemma_head_contract_par(t);
    } else {
        lemma_inner_pass_par(t);
    }
}

/// A pass inside the arguments is a parallel reduction.
pub proof fn lemma_inner_pass_par(t: Tree)
    ensures
        par(t, inner_pass(t)),
    decreases t, 0nat,
{
    if t is App {
        lemma_inner_pass_par(left(t));
        lemma_pass_par(right(t));
        lemma_par_app(left(t), right(t), inner_pass(left(t)), pass(right(t)));
    }
}

/// A normal form has no redex at its head, and a pass leaves it as it is.
pub proof fn lemma_pass_normal(t: Tree)
    requires
        normal(t),
    ensures
        head_contract(t) is None,
        inner_pass(t) == t,
        pass(t) == t,
    decreases t,
{
    if t is App {
        lemma_pass_normal(left(t));
        lemma_pass_normal(right(t));
    }
}

/// Whether a head of that name has, with so many arguments, all that its rule needs.
pub open spec fn saturated(name: Seq<char>, arguments: nat) -> bool {
    ||| name == seq!['I'] && arguments >= 1
    ||| name == seq!['K'] && arguments >= 2
    ||| (name == seq!['S'] || name == seq!['B'] || name == seq!['C']) && arguments >= 3
}

/// There is a redex at the head exactly where the head is a primitive with arguments
/// enough for its rule.
pub proof fn lemma_head_redex(t: Tree)
    ensures
        head_contract(t) is Some <==> saturated(head(t), spine(t)),
    decreases t,
{
    if t is App {
        lemma_head_redex(left(t));
        lemma_redex_spine(t);
    }
}

/// What the rewrite at the head of a function gives, applied to the same argument, is
/// what the rewrite at the head of the application gives.
pub proof fn lemma_head_contract_app(function: Tree, argument: Tree)
    requires
        head_contract(function) is Some,
    ensures
        head_contract(app(function, argument)) == Some(
            app(head_contract(function)->0, argument),
        ),
{
}

/// The tree after `n` rewrites at the head, where there are that many.
pub open spec fn head_times(t: Tree, n: nat) -> Option<Tree>
    decreases n,
{
    if n == 0 {
        Some(t)
    } else {
        match head_contract(t) {
            Some(reduct) => head_times(reduct, (n - 1) as nat),
            None => None,
        }
    }
}

/// Rewrites at the head of a function are rewrites at the head of its application.
pub proof fn lemma_head_times_app(function: Tree, argument: Tree, n: nat)
    requires
        head_times(function, n) is Some,
    ensures
        head_times(app(function, argument), n) == Some(app(head_times(function, n)->0, argument)),
    decreases n,
{
    if n > 0 {
        let reduct = head_contract(function)->0;
        lemma_head_contract_app(function, argument);
        lemma_head_times_app(reduct, argument, (n - 1) as nat);
    }
}

/// Rewrites at the head are passes of the strategy.
pub proof fn lemma_head_times_pass(t: Tree, n: nat)
    requires
        head_times(t, n) is Some,
    ensures
        pass_times(t, n) == head_times(t, n)->0,
    decreases n,
{
    if n > 0 {
        lemma_head_times_pass(head_contract(t)->0, (n - 1) as nat);
    }
}

/// One rewrite at the head and then `n` more are `n + 1` of them.
pub proof fn lemma_head_times_first(t: Tree, n: nat)
    requires
        head_contract(t) is Some,
        head_times(head_contract(t)->0, n) is Some,
    ensures
        head_times(t, n + 1) == head_times(head_contract(t)->0, n),
{
}

/// Parallel reduction inside the arguments: the head stays, and each argument is
/// reduced on its own. No redex at the head is rewritten.
pub open spec fn par_inner(t: Tree, u: Tree) -> bool
    decreases t,
{
    match t {
        Tree::Leaf(_) => t == u,
        Tree::App(function, argument) => u is App && par_inner(*function, left(u)) && par(
            *argument,
            right(u),
        ),
    }
}

/// Nothing at all is a parallel reduction inside the arguments.
pub proof fn lemma_par_inner_reflexive(t: Tree)
    ensures
        par_inner(t, t),
    decreases t,
{
    if t is App {
        lemma_par_inner_reflexive(left(t));
    }
}

/// Parallel reduction inside the arguments is parallel reduction, and keeps the head
/// and the number of arguments.
pub proof fn lemma_par_inner_par(t: Tree, u: Tree)
    requires
        par_inner(t, u),
    ensures
        par(t, u),
        head(u) == head(t),
        spine(u) == spine(t),
    decreases t,
{
    if t is App {
        lemma_par_inner_par(left(t), left(u));
    }
}

/// Every parallel reduction is a number of rewrites at the head, which is returned,
/// followed by a parallel reduction inside the arguments.
pub proof fn lemma_head_first(t: Tree, u: Tree) -> (n: nat)
    requires
        par(t, u),
    ensures
        head_times(t, n) is Some,
        par_inner(head_times(t, n)->0, u),
    decreases t,
{
    reveal_with_fuel(par_inner, 3);
    lemma_primitives_distinct();
    lemma_head_redex(t);
    if t is App {
        lemma_head_redex(left(t));
        lemma_redex_spine(t);
        reveal_with_fuel(spine, 4);
        reveal_with_fuel(head, 4);
    }
    if applies_one(t, 'I') && par(right(t), u) {
        let n = lemma_head_first(right(t), u);
        assert(head_contract(t) == Some(right(t)));
        lemma_head_times_first(t, n);
        n + 1
    } else if applies_two(t, 'K') && par(first(t), u) {
        let n = lemma_head_first(first(t), u);
        assert(head_contract(left(t)) is None) by {
            lemma_redex_spine(left(t));
        }
        assert(head_contract(t) == Some(first(t)));
        lemma_head_times_first(t, n);
        n + 1
    } else if applies_three(t, 'S') && u is App && left(u) is App && right(u) is App && par(
        first(t),
        left(left(u)),
    ) && par(right(t), right(left(u))) && par(second(t), left(right(u))) && right(right(u))
        == right(left(u)) {
        let x = first(t);
        let y = second(t);
        let z = right(t);
        let n = lemma_head_first(x, left(left(u)));
        let x1 = head_times(x, n)->0;
        assert(head_contract(left(t)) is None) by {
            lemma_head_redex(left(t));
        }
        assert(head_contract(t) == Some(app(app(x, z), app(y, z))));
        lemma_head_times_app(x, z, n);
        lemma_head_times_app(app(x, z), app(y, z), n);
        lemma_par_app(y, z, left(right(u)), right(right(u)));
        assert(par_inner(app(app(x1, z), app(y, z)), u));
        lemma_head_times_first(t, n);
        n + 1
    } else if applies_three(t, 'B') && u is App && right(u) is App && par(first(t), left(u))
        && par(second(t), left(right(u))) && par(right(t), right(right(u))) {
        let x = first(t);
        let y = second(t);
        let z = right(t);
        let n = lemma_head_first(x, left(u));
        let x1 = head_times(x, n)->0;
        assert(head_contract(left(t)) is None) by {
            lemma_head_redex(left(t));
        }
        assert(head_contract(t) == Some(app(x, app(y, z))));
        lemma_head_times_app(x, app(y, z), n);
        lemma_par_app(y, z, left(right(u)), right(right(u)));
        assert(par_inner(app(x1, app(y, z)), u));
        lemma_head_times_first(t, n);
        n + 1
    } else if applies_three(t, 'C') && u is App && left(u) is App && par(
        first(t),
        left(left(u)),
    ) && par(right(t), right(left(u))) && par(second(t), right(u)) {
        let x = first(t);
        let y = second(t);
        let z = right(t);
        let n = lemma_head_first(x, left(left(u)));
        let x1 = head_times(x, n)->0;
        assert(head_contract(left(t)) is None) by {
            lemma_head_redex(left(t));
        }
        assert(head_contract(t) == Some(app(app(x, z), y)));
        lemma_head_times_app(x, z, n);
        lemma_head_times_app(app(x, z), y, n);
        assert(par_inner(app(app(x1, z), y), u));
        lemma_head_times_first(t, n);
        n + 1
    } else if t is App && u is App && par(left(t), left(u)) && par(right(t), right(u)) {
        let n = lemma_head_first(left(t), left(u));
        lemma_head_times_app(left(t), right(t), n);
        n
    } else {
        assert(t == u);
        lemma_par_inner_reflexive(t);
        0
    }
}

/// A parallel reduction inside the arguments keeps a redex at the head, and the rewrites
/// of the two redexes are a parallel reduction again.
pub proof fn lemma_par_inner_head(t: Tree, u: Tree)
    requires
        par_inner(t, u),
        head_contract(t) is Some,
    ensures
        head_contract(u) is Some,
        par(head_contract(t)->0, head_contract(u)->0),
    decreases t,
{
    reveal_with_fuel(par_inner, 4);
    lemma_primitives_distinct();
    lemma_par_inner_par(t, u);
    lemma_head_redex(t);
    lemma_head_redex(u);
    lemma_par_inner_par(left(t), left(u));
    lemma_head_redex(left(t));
    lemma_head_redex(left(u));
    if head_contract(left(t)) is Some {
        lemma_par_inner_head(left(t), left(u));
        lemma_par_app(
            head_contract(left(t))->0,
            right(t),
            head_contract(left(u))->0,
            right(u),
        );
    } else {
        lemma_redex_spine(t);
        lemma_redex_spine(u);
        assert(is_redex(t) && is_redex(u));
        reveal_with_fuel(spine, 4);
        reveal_with_fuel(head, 4);
        if applies_one(t, 'I') {
        } else if applies_two(t, 'K') {
        } else if applies_three(t, 'S') {
            lemma_par_app(first(t), right(t), first(u), right(u));
            lemma_par_app(second(t), right(t), second(u), right(u));
            lemma_par_app(
                app(first(t), right(t)),
                app(second(t), right(t)),
                app(first(u), right(u)),
                app(second(u), right(u)),
            );
        } else if applies_three(t, 'B') {
            lemma_par_app(second(t), right(t), second(u), right(u));
            lemma_par_app(
                first(t),
                app(second(t), right(t)),
                first(u),
                app(second(u), right(u)),
            );
        } else {
            lemma_par_app(first(t), right(t), first(u), right(u));
            lemma_par_app(app(first(t), right(t)), second(t), app(first(u), right(u)), second(u));
        }
    }
}

/// Passes in a row can be counted together.
pub proof fn lemma_pass_times_joined(t: Tree, a: nat, b: nat)
    ensures
        pass_times(pass_times(t, a), b) == pass_times(t, a + b),
    decreases a,
{
    if a > 0 {
        lemma_pass_times_joined(pass(t), (a - 1) as nat, b);
    }
}

/// Once the passes have reached a normal form, more passes change nothing.
pub proof fn lemma_pass_times_stays(t: Tree, n: nat, more: nat)
    requires
        normal(pass_times(t, n)),
        n <= more,
    ensures
        pass_times(t, more) == pass_times(t, n),
    decreases more - n,
{
    if n < more {
        lemma_pass_normal(pass_times(t, n));
        lemma_pass_times_joined(t, n, 1);
        assert(pass_times(pass_times(t, n), 1) == pass_times(t, n)) by {
            reveal_with_fuel(pass_times, 2);
        }
        lemma_pass_times_stays(t, n + 1, more);
    }
}

/// The tree after `n` passes inside each of its arguments.
pub open spec fn inner_times(t: Tree, n: nat) -> Tree
    decreases t,
{
    match t {
        Tree::Leaf(_) => t,
        Tree::App(function, argument) => app(inner_times(*function, n), pass_times(*argument, n)),
    }
}

/// A pass inside the arguments keeps the head and the number of arguments.
pub proof fn lemma_inner_pass_shape(t: Tree)
    ensures
        head(inner_pass(t)) == head(t),
        spine(inner_pass(t)) == spine(t),
    decreases t,
{
    if t is App {
        lemma_inner_pass_shape(left(t));
    }
}

/// One pass more inside the arguments, counted inside or outside.
pub proof fn lemma_inner_times_shift(t: Tree, n: nat)
    ensures
        inner_times(inner_pass(t), n) == inner_times(t, n + 1),
        inner_times(t, 0) == t,
    decreases t,
{
    if t is App {
        lemma_inner_times_shift(left(t), n);
    }
}

/// In a tree without a redex at its head, the passes of the strategy are passes inside
/// the arguments.
pub proof fn lemma_pass_times_inner(t: Tree, n: nat)
    requires
        head_contract(t) is None,
    ensures
        pass_times(t, n) == inner_times(t, n),
    decreases n,
{
    lemma_inner_times_shift(t, 0);
    if n > 0 {
        lemma_head_redex(t);
        lemma_inner_pass_shape(t);
        lemma_head_redex(inner_pass(t));
        lemma_pass_times_inner(inner_pass(t), (n - 1) as nat);
        lemma_inner_times_shift(t, (n - 1) as nat);
    }
}

/// The strategy goes back along parallel reductions: where it finds a normal form from
/// the reduct of a tree, it finds the same normal form from the tree itself, in the
/// number of passes that is returned or in any larger number.
pub proof fn lemma_strategy_back(t: Tree, u: Tree, k: nat) -> (n: nat)
    requires
        par(t, u),
        normal(pass_times(u, k)),
    ensures
        forall|more: nat| more >= n ==> #[trigger] pass_times(t, more) == pass_times(u, k),
    decreases k, tree_size(u), 2nat,
{
    let heads = lemma_head_first(t, u);
    let middle = head_times(t, heads)->0;
    lemma_head_times_pass(t, heads);
    let inner = lemma_strategy_back_inner(middle, u, k);
    assert forall|more: nat| more >= heads + inner implies #[trigger] pass_times(t, more)
        == pass_times(u, k) by {
        lemma_pass_times_joined(t, heads, (more - heads) as nat);
        assert(pass_times(middle, (more - heads) as nat) == pass_times(u, k));
    }
    heads + inner
}

/// The strategy goes back along parallel reductions inside the arguments.
pub proof fn lemma_strategy_back_inner(t: Tree, u: Tree, k: nat) -> (n: nat)
    requires
        par_inner(t, u),
        normal(pass_times(u, k)),
    ensures
        forall|more: nat| more >= n ==> #[trigger] pass_times(t, more) == pass_times(u, k),
    decreases k, tree_size(u), 1nat,
{
    lemma_par_inner_par(t, u);
    lemma_head_redex(t);
    lemma_head_redex(u);
    if head_contract(u) is Some {
        if k == 0 {
            lemma_pass_normal(u);
        }
        lemma_par_inner_head(t, u);
        let rest = lemma_strategy_back(head_contract(t)->0, head_contract(u)->0, (k - 1) as nat);
        assert forall|more: nat| more >= rest + 1 implies #[trigger] pass_times(t, more)
            == pass_times(u, k) by {
            assert(pass_times(head_contract(t)->0, (more - 1) as nat) == pass_times(
                head_contract(u)->0,
                (k - 1) as nat,
            ));
        }
        rest + 1
    } else {
        lemma_pass_times_inner(u, k);
        let n = lemma_strategy_back_spine(t, u, k);
        assert forall|more: nat| more >= n implies #[trigger] pass_times(t, more) == pass_times(
            u,
            k,
        ) by {
            lemma_pass_times_inner(t, more);
            assert(inner_times(t, more) == inner_times(u, k));
        }
        n
    }
}

/// The strategy goes back along parallel reductions, in every argument of a tree.
pub proof fn lemma_strategy_back_spine(t: Tree, u: Tree, k: nat) -> (n: nat)
    requires
        par_inner(t, u),
        normal(inner_times(u, k)),
    ensures
        forall|more: nat| more >= n ==> #[trigger] inner_times(t, more) == inner_times(u, k),
    decreases k, tree_size(u), 0nat,
{
    match t {
        Tree::Leaf(_) => 0,
        Tree::App(function, argument) => {
            let others = lemma_strategy_back_spine(*function, left(u), k);
            let last = lemma_strategy_back(*argument, right(u), k);
            let n = if others >= last {
                others
            } else {
                last
            };
            assert forall|more: nat| more >= n implies #[trigger] inner_times(t, more)
                == inner_times(u, k) by {
                assert(inner_times(*function, more) == inner_times(left(u), k));
                assert(pass_times(*argument, more) == pass_times(right(u), k));
            }
            n
        },
    }
}

/// The strategy finds normal forms: a normal form that reductions in a row reach from
/// a tree is what the passes of the strategy make of the tree, in the number of passes
/// that is returned or in any larger number.
pub proof fn lemma_strategy_normalizes(t: Tree, normal_form: Tree, steps: nat) -> (n: nat)
    requires
        reaches(t, normal_form, steps),
        normal(normal_form),
    ensures
        forall|more: nat| more >= n ==> #[trigger] pass_times(t, more) == normal_form,
    decreases steps,
{
    if steps == 0 {
        assert forall|more: nat| more >= 0 implies #[trigger] pass_times(t, more)
            == normal_form by {
            lemma_pass_times_stays(t, 0, more);
        }
        0
    } else {
        let next = choose|next: Tree| #[trigger]
            par(t, next) && reaches(next, normal_form, (steps - 1) as nat);
        let from_next = lemma_strategy_normalizes(next, normal_form, (steps - 1) as nat);
        assert(pass_times(next, from_next) == normal_form);
        lemma_strategy_back(t, next, from_next)
    }
}

} // verus!
