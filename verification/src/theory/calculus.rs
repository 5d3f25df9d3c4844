//! Combinatory logic on application trees: parallel reduction, complete developments,
//! the uniqueness of normal forms, and bracket abstraction with its transparency.

use vstd::prelude::*;

verus! {

/// A term of combinatory logic as a tree of applications: grouping is gone, and what is
/// left is which term is applied to which.
pub enum Tree {
    Leaf(Seq<char>),
    App(Box<Tree>, Box<Tree>),
}

/// The application of `function` to `argument`.
pub open spec fn app(function: Tree, argument: Tree) -> Tree {
    Tree::App(Box::new(function), Box::new(argument))
}

/// The primitive combinator named by the single character `c`.
pub open spec fn primitive(c: char) -> Tree {
    Tree::Leaf(seq![c])
}

/// The function of an application.
pub open spec fn left(t: Tree) -> Tree {
    *t->App_0
}

/// The argument of an application.
pub open spec fn right(t: Tree) -> Tree {
    *t->App_1
}

/// `t` is `h x` for the primitive `h`.
pub open spec fn applies_one(t: Tree, h: char) -> bool {
    t is App && left(t) == primitive(h)
}

/// `t` is `h x y` for the primitive `h`.
pub open spec fn applies_two(t: Tree, h: char) -> bool {
    t is App && applies_one(left(t), h)
}

/// `t` is `h x y z` for the primitive `h`.
pub open spec fn applies_three(t: Tree, h: char) -> bool {
    t is App && applies_two(left(t), h)
}

/// Whether a rewrite rule applies at the root of the tree.
pub open spec fn is_redex(t: Tree) -> bool {
    applies_one(t, 'I') || applies_two(t, 'K') || applies_three(t, 'S') || applies_three(t, 'B')
        || applies_three(t, 'C')
}

/// The first argument of a redex of two or three arguments.
pub open spec fn first(t: Tree) -> Tree {
    if applies_two(t, 'K') {
        right(left(t))
    } else {
        right(left(left(t)))
    }
}

/// The second argument of a redex of three arguments.
pub open spec fn second(t: Tree) -> Tree {
    right(left(t))
}

/// Whether no rewrite rule applies anywhere in the tree.
pub open spec fn normal(t: Tree) -> bool
    decreases t,
{
    !is_redex(t) && (t is App ==> normal(left(t)) && normal(right(t)))
}

/// Parallel reduction: `u` comes from `t` by rewriting any number of redexes that do not
/// lie inside one another's results, all at once. Nothing at all may be rewritten.
pub open spec fn par(t: Tree, u: Tree) -> bool
    decreases t,
{
    ||| t == u
    ||| t is App && u is App && par(left(t), left(u)) && par(right(t), right(u))
    ||| applies_one(t, 'I') && par(right(t), u)
    ||| applies_two(t, 'K') && par(first(t), u)
    ||| {
        &&& applies_three(t, 'S')
        &&& u is App && left(u) is App && right(u) is App
        &&& par(first(t), left(left(u)))
        &&& par(right(t), right(left(u)))
        &&& par(second(t), left(right(u)))
        &&& right(right(u)) == right(left(u))
    }
    ||| {
        &&& applies_three(t, 'B')
        &&& u is App && right(u) is App
        &&& par(first(t), left(u))
        &&& par(second(t), left(right(u)))
        &&& par(right(t), right(right(u)))
    }
    ||| {
        &&& applies_three(t, 'C')
        &&& u is App && left(u) is App
        &&& par(first(t), left(left(u)))
        &&& par(right(t), right(left(u)))
        &&& par(second(t), right(u))
    }
}

/// The complete development of a tree: every redex that is in it is rewritten, from the
/// inside out.
pub open spec fn develop(t: Tree) -> Tree
    decreases t,
{
    if applies_one(t, 'I') {
        develop(right(t))
    } else if applies_two(t, 'K') {
        develop(first(t))
    } else if applies_three(t, 'S') {
        app(
            app(develop(first(t)), develop(right(t))),
            app(develop(second(t)), develop(right(t))),
        )
    } else if applies_three(t, 'B') {
        app(develop(first(t)), app(develop(second(t)), develop(right(t))))
    } else if applies_three(t, 'C') {
        app(app(develop(first(t)), develop(right(t))), develop(second(t)))
    } else if t is App {
        app(develop(left(t)), develop(right(t)))
    } else {
        t
    }
}

/// The number of leaves and applications in a tree.
pub open spec fn tree_size(t: Tree) -> nat
    decreases t,
{
    match t {
        Tree::Leaf(_) => 1,
        Tree::App(function, argument) => 1 + tree_size(*function) + tree_size(*argument),
    }
}

/// The number of arguments that the tree applies its head to.
pub open spec fn spine(t: Tree) -> nat
    decreases t,
{
    match t {
        Tree::Leaf(_) => 0,
        Tree::App(function, _) => 1 + spine(*function),
    }
}

/// The name of the leaf that the tree applies to all of its arguments.
pub open spec fn head(t: Tree) -> Seq<char>
    decreases t,
{
    match t {
        Tree::Leaf(name) => name,
        Tree::App(function, _) => head(*function),
    }
}

/// A redex is a primitive at the head of exactly as many arguments as its rule needs.
pub proof fn lemma_redex_spine(t: Tree)
    ensures
        is_redex(t) <==> {
            ||| spine(t) == 1 && head(t) == seq!['I']
            ||| spine(t) == 2 && head(t) == seq!['K']
            ||| spine(t) == 3 && (head(t) == seq!['S'] || head(t) == seq!['B'] || head(t)
                == seq!['C'])
        },
{
    reveal_with_fuel(spine, 5);
    reveal_with_fuel(head, 5);
}

/// Primitives of different characters are different leaves.
pub proof fn lemma_primitives_differ(a: char, b: char)
    ensures
        primitive(a) == primitive(b) ==> a == b,
{
    assert(seq![a][0] == a);
    assert(seq![b][0] == b);
}

/// The five primitives are pairwise different.
pub proof fn lemma_primitives_distinct()
    ensures
        primitive('S') != primitive('K'),
        primitive('S') != primitive('I'),
        primitive('S') != primitive('B'),
        primitive('S') != primitive('C'),
        primitive('K') != primitive('I'),
        primitive('K') != primitive('B'),
        primitive('K') != primitive('C'),
        primitive('I') != primitive('B'),
        primitive('I') != primitive('C'),
        primitive('B') != primitive('C'),
{
    lemma_primitives_differ('S', 'K');
    lemma_primitives_differ('S', 'I');
    lemma_primitives_differ('S', 'B');
    lemma_primitives_differ('S', 'C');
    lemma_primitives_differ('K', 'I');
    lemma_primitives_differ('K', 'B');
    lemma_primitives_differ('K', 'C');
    lemma_primitives_differ('I', 'B');
    lemma_primitives_differ('I', 'C');
    lemma_primitives_differ('B', 'C');
}

/// Each rewrite rule, applied at the root of a tree, is a parallel reduction.
pub proof fn lemma_par_rules(x: Tree, y: Tree, z: Tree)
    ensures
        par(app(primitive('I'), x), x),
        par(app(app(primitive('K'), x), y), x),
        par(app(app(app(primitive('S'), x), y), z), app(app(x, z), app(y, z))),
        par(app(app(app(primitive('B'), x), y), z), app(x, app(y, z))),
        par(app(app(app(primitive('C'), x), y), z), app(app(x, z), y)),
{
    reveal_with_fuel(par, 2);
}

/// Parallel reduction of a function and of its argument is parallel reduction of the
/// application.
pub proof fn lemma_par_app(function: Tree, argument: Tree, a: Tree, b: Tree)
    requires
        par(function, a),
        par(argument, b),
    ensures
        par(app(function, argument), app(a, b)),
{
}

/// A primitive with one argument fewer than its rule needs is rewritten only inside its
/// arguments.
pub proof fn lemma_par_partial(t: Tree, u: Tree, h: char)
    requires
        par(t, u),
        (h == 'K' && applies_one(t, h)) || ((h == 'S' || h == 'B' || h == 'C') && (applies_one(t, h)
            || applies_two(t, h))),
    ensures
        u is App,
        applies_one(t, h) ==> applies_one(u, h) && par(right(t), right(u)),
        applies_two(t, h) ==> applies_two(u, h) && par(right(left(t)), right(left(u))) && par(
            right(t),
            right(u),
        ),
    decreases t,
{
    reveal_with_fuel(par, 2);
    lemma_primitives_distinct();
    if applies_two(t, h) {
        assert(par(left(t), left(u)));
        lemma_par_partial(left(t), left(u), h);
    }
}

/// From a parallel reduct of a tree, one more parallel reduction reaches the complete
/// development of the tree.
pub proof fn lemma_triangle(t: Tree, u: Tree)
    requires
        par(t, u),
    ensures
        par(u, develop(t)),
    decreases t,
{
    reveal_with_fuel(par, 2);
    lemma_primitives_distinct();
    if applies_one(t, 'I') {
        let x = right(t);
        if par(x, u) {
            lemma_triangle(x, u);
        } else {
            assert(u is App && left(u) == primitive('I') && par(x, right(u)));
            lemma_triangle(x, right(u));
        }
    } else if applies_two(t, 'K') {
        let x = first(t);
        if par(x, u) {
            lemma_triangle(x, u);
        } else {
            assert(u is App && par(left(t), left(u)));
            lemma_par_partial(left(t), left(u), 'K');
            lemma_triangle(x, first(u));
        }
    } else if applies_three(t, 'S') {
        let x = first(t);
        let y = second(t);
        let z = right(t);
        if u is App && left(u) is App && right(u) is App && par(x, left(left(u))) && par(
            z,
            right(left(u)),
        ) && par(y, left(right(u))) && right(right(u)) == right(left(u)) {
            lemma_triangle(x, left(left(u)));
            lemma_triangle(z, right(left(u)));
            lemma_triangle(y, left(right(u)));
        } else {
            assert(u is App && par(left(t), left(u)) && par(z, right(u)));
            lemma_par_partial(left(t), left(u), 'S');
            lemma_triangle(x, first(u));
            lemma_triangle(y, second(u));
            lemma_triangle(z, right(u));
        }
    } else if applies_three(t, 'B') {
        let x = first(t);
        let y = second(t);
        let z = right(t);
        if u is App && right(u) is App && par(x, left(u)) && par(y, left(right(u))) && par(
            z,
            right(right(u)),
        ) {
            lemma_triangle(x, left(u));
            lemma_triangle(y, left(right(u)));
            lemma_triangle(z, right(right(u)));
        } else {
            assert(u is App && par(left(t), left(u)) && par(z, right(u)));
            lemma_par_partial(left(t), left(u), 'B');
            lemma_triangle(x, first(u));
            lemma_triangle(y, second(u));
            lemma_triangle(z, right(u));
        }
    } else if applies_three(t, 'C') {
        let x = first(t);
        let y = second(t);
        let z = right(t);
        if u is App && left(u) is App && par(x, left(left(u))) && par(z, right(left(u))) && par(
            y,
            right(u),
        ) {
            lemma_triangle(x, left(left(u)));
            lemma_triangle(z, right(left(u)));
            lemma_triangle(y, right(u));
        } else {
            assert(u is App && par(left(t), left(u)) && par(z, right(u)));
            lemma_par_partial(left(t), left(u), 'C');
            lemma_triangle(x, first(u));
            lemma_triangle(y, second(u));
            lemma_triangle(z, right(u));
        }
    } else if t is App {
        assert(u is App && par(left(t), left(u)) && par(right(t), right(u)));
        lemma_triangle(left(t), left(u));
        lemma_triangle(right(t), right(u));
    } else {
    }
}

/// Parallel reduction leaves a normal form as it is.
pub proof fn lemma_par_normal(t: Tree, u: Tree)
    requires
        normal(t),
        par(t, u),
    ensures
        u == t,
    decreases t,
{
    if t is App && t != u {
        assert(par(left(t), left(u)) && par(right(t), right(u)));
        lemma_par_normal(left(t), left(u));
        lemma_par_normal(right(t), right(u));
    }
}

/// The complete development taken `n` times over.
pub open spec fn develop_times(t: Tree, n: nat) -> Tree
    decreases n,
{
    if n == 0 {
        t
    } else {
        develop(develop_times(t, (n - 1) as nat))
    }
}

/// Whether `n` parallel reductions in a row lead from `t` to `u`.
pub open spec fn reaches(t: Tree, u: Tree, n: nat) -> bool
    decreases n,
{
    if n == 0 {
        t == u
    } else {
        exists|m: Tree| #[trigger] par(t, m) && reaches(m, u, (n - 1) as nat)
    }
}

/// A parallel reduction followed by `n` more is `n + 1` of them.
pub proof fn lemma_reaches_first(t: Tree, m: Tree, u: Tree, n: nat)
    requires
        par(t, m),
        reaches(m, u, n),
    ensures
        reaches(t, u, n + 1),
{
}

/// `n` parallel reductions followed by one more are `n + 1` of them.
pub proof fn lemma_reaches_last(t: Tree, m: Tree, u: Tree, n: nat)
    requires
        reaches(t, m, n),
        par(m, u),
    ensures
        reaches(t, u, n + 1),
    decreases n,
{
    if n == 0 {
        assert(reaches(u, u, 0));
        lemma_reaches_first(t, u, u, 0);
    } else {
        let next = choose|next: Tree| #[trigger] par(t, next) && reaches(next, m, (n - 1) as nat);
        lemma_reaches_last(next, m, u, (n - 1) as nat);
        lemma_reaches_first(t, next, u, n);
    }
}

/// Reductions in a row can be joined end to end.
pub proof fn lemma_reaches_joined(t: Tree, m: Tree, u: Tree, a: nat, b: nat)
    requires
        reaches(t, m, a),
        reaches(m, u, b),
    ensures
        reaches(t, u, a + b),
    decreases a,
{
    if a > 0 {
        let next = choose|next: Tree| #[trigger] par(t, next) && reaches(next, m, (a - 1) as nat);
        lemma_reaches_joined(next, m, u, (a - 1) as nat, b);
        lemma_reaches_first(t, next, u, (a + b - 1) as nat);
    }
}

/// What `n` reductions reach, more than `n` reach too: a parallel reduction may rewrite
/// nothing.
pub proof fn lemma_reaches_more(t: Tree, u: Tree, n: nat, more: nat)
    requires
        reaches(t, u, n),
        n <= more,
    ensures
        reaches(t, u, more),
    decreases more - n,
{
    if n < more {
        lemma_reaches_last(t, u, u, n);
        lemma_reaches_more(t, u, n + 1, more);
    }
}

/// Whatever is reached from a normal form is that normal form.
pub proof fn lemma_reaches_normal(t: Tree, u: Tree, n: nat)
    requires
        normal(t),
        reaches(t, u, n),
    ensures
        u == t,
    decreases n,
{
    if n > 0 {
        let next = choose|next: Tree| #[trigger] par(t, next) && reaches(next, u, (n - 1) as nat);
        lemma_par_normal(t, next);
        lemma_reaches_normal(t, u, (n - 1) as nat);
    }
}

/// Complete development is monotone: it takes a parallel reduction to a parallel reduction.
pub proof fn lemma_develop_monotone(t: Tree, u: Tree, n: nat)
    requires
        par(t, u),
    ensures
        par(develop_times(t, n), develop_times(u, n)),
    decreases n,
{
    if n > 0 {
        lemma_develop_monotone(t, u, (n - 1) as nat);
        let a = develop_times(t, (n - 1) as nat);
        let b = develop_times(u, (n - 1) as nat);
        lemma_triangle(a, b);
        lemma_triangle(b, develop(a));
    }
}

/// The complete development taken one more time, inside or outside.
pub proof fn lemma_develop_times_shift(t: Tree, n: nat)
    ensures
        develop_times(develop(t), n) == develop_times(t, n + 1),
    decreases n,
{
    reveal_with_fuel(develop_times, 2);
    if n > 0 {
        lemma_develop_times_shift(t, (n - 1) as nat);
    }
}

/// Whatever `n` reductions reach from `t` reaches, in `n` reductions more, the complete
/// development of `t` taken `n` times.
pub proof fn lemma_reaches_development(t: Tree, u: Tree, n: nat)
    requires
        reaches(t, u, n),
    ensures
        reaches(u, develop_times(t, n), n),
    decreases n,
{
    if n > 0 {
        let next = choose|next: Tree| #[trigger] par(t, next) && reaches(next, u, (n - 1) as nat);
        lemma_reaches_development(next, u, (n - 1) as nat);
        lemma_triangle(t, next);
        lemma_develop_monotone(next, develop(t), (n - 1) as nat);
        lemma_develop_times_shift(t, (n - 1) as nat);
        lemma_reaches_last(
            u,
            develop_times(next, (n - 1) as nat),
            develop_times(t, n),
            (n - 1) as nat,
        );
    }
}

/// Normal forms are unique: two normal forms that are reached from one tree are equal.
pub proof fn lemma_normal_form_unique(t: Tree, first: Tree, second: Tree, a: nat, b: nat)
    requires
        reaches(t, first, a),
        reaches(t, second, b),
        normal(first),
        normal(second),
    ensures
        first == second,
{
    let n = if a >= b {
        a
    } else {
        b
    };
    lemma_reaches_more(t, first, a, n);
    lemma_reaches_more(t, second, b, n);
    lemma_reaches_development(t, first, n);
    lemma_reaches_development(t, second, n);
    lemma_reaches_normal(first, develop_times(t, n), n);
    lemma_reaches_normal(second, develop_times(t, n), n);
}

/// Reductions in a row of a function and of its argument are reductions in a row of the
/// application.
pub proof fn lemma_reaches_app(function: Tree, argument: Tree, a: Tree, b: Tree, n: nat)
    requires
        reaches(function, a, n),
        reaches(argument, b, n),
    ensures
        reaches(app(function, argument), app(a, b), n),
    decreases n,
{
    if n > 0 {
        let f = choose|f: Tree| #[trigger] par(function, f) && reaches(f, a, (n - 1) as nat);
        let x = choose|x: Tree| #[trigger] par(argument, x) && reaches(x, b, (n - 1) as nat);
        lemma_reaches_app(f, x, a, b, (n - 1) as nat);
        lemma_par_app(function, argument, f, x);
        lemma_reaches_first(app(function, argument), app(f, x), app(a, b), (n - 1) as nat);
    }
}

/// No reduction at all reaches the tree itself.
pub proof fn lemma_reaches_self(t: Tree, n: nat)
    ensures
        reaches(t, t, n),
{
    assert(reaches(t, t, 0));
    lemma_reaches_more(t, t, 0, n);
}

} // verus!
