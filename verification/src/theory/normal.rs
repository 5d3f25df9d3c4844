//! Normal forms: reduction ends in canonical grouping, a stable canonical term stands
//! for a normal tree, and canonical terms that stand for the same tree are equal.

use crate::canonical::{
    canonical, canonicalize, lemma_canonicalize_canonical, lemma_canonicalize_unchanged,
    lemma_canonicalize_well_formed, node_canonical,
};
use crate::error::CombinatorError;
use crate::reduction::{fires, node_fires, normalize, rewrite};
use crate::term::{node_well_formed, well_formed, Node, Term};
use crate::theory::calculus::{head, is_redex, lemma_redex_spine, normal, spine, Tree};
use crate::theory::semantics::{
    applied, lemma_rewrite_par, lemma_tree_applied, lemma_tree_canonicalize,
    lemma_well_formed_solid, node_tree, term_tree,
};
use vstd::prelude::*;

verus! {

/// Reduction ends in canonical grouping: the normal form that it gives for a well-formed
/// term is canonical and well-formed, no rewriting pass changes it, and reduction gives
/// it back as it is.
pub proof fn lemma_normalize_canonical(t: Term, fuel: nat)
    requires
        well_formed(t),
    ensures
        normalize(t, fuel) matches Ok(result) ==> canonical(result) && well_formed(result)
            && !fires(result) && normalize(result, 0) == Ok::<Term, CombinatorError>(result),
    decreases fuel,
{
    let tidy = canonicalize(t);
    lemma_canonicalize_canonical(t);
    lemma_canonicalize_well_formed(t);
    lemma_canonicalize_unchanged(tidy);
    lemma_rewrite_par(tidy);
    if fires(tidy) && fuel > 0 {
        lemma_normalize_canonical(rewrite(tidy), (fuel - 1) as nat);
    }
}

/// An application has the head of its function, and as many arguments more as it adds.
pub proof fn lemma_applied_spine(function: Tree, arguments: Term)
    ensures
        spine(applied(function, arguments)) == spine(function) + arguments.len(),
        head(applied(function, arguments)) == head(function),
    decreases arguments.len(),
{
    if arguments.len() > 0 {
        lemma_applied_spine(function, arguments.drop_last());
    }
}

/// A canonical, well-formed term stands for its first node, an atom, applied to as many
/// arguments as it has nodes after the first.
pub proof fn lemma_canonical_spine(t: Term)
    requires
        canonical(t),
        well_formed(t),
    ensures
        t[0] is Atom,
        spine(term_tree(t)) == t.len() - 1,
        head(term_tree(t)) == t[0]->Atom_0,
{
    assert(node_canonical(t[0]) && node_well_formed(t[0]));
    lemma_tree_applied(t);
    lemma_applied_spine(node_tree(t[0]), t.subrange(1, t.len() as int));
}

/// An application is normal where its function and its arguments are and where the
/// function applied to the first so many arguments is no redex, however many are taken.
pub proof fn lemma_applied_normal(function: Tree, arguments: Term)
    requires
        normal(function),
        forall|i: int| 0 <= i < arguments.len() ==> normal(node_tree(#[trigger] arguments[i])),
        forall|k: int|
            1 <= k <= arguments.len() ==> !is_redex(
                #[trigger] applied(function, arguments.subrange(0, k)),
            ),
    ensures
        normal(applied(function, arguments)),
    decreases arguments.len(),
{
    if arguments.len() > 0 {
        let shorter = arguments.drop_last();
        assert forall|i: int| 0 <= i < shorter.len() implies normal(
            node_tree(#[trigger] shorter[i]),
        ) by {
            assert(shorter[i] == arguments[i]);
        }
        assert forall|k: int| 1 <= k <= shorter.len() implies !is_redex(
            #[trigger] applied(function, shorter.subrange(0, k)),
        ) by {
            assert(shorter.subrange(0, k) =~= arguments.subrange(0, k));
        }
        lemma_applied_normal(function, shorter);
        assert(arguments.subrange(0, arguments.len() as int) =~= arguments);
        assert(normal(node_tree(arguments[arguments.len() - 1])));
    }
}

/// A canonical, well-formed term that no rewriting pass changes stands for a normal form.
pub proof fn lemma_stable_normal(t: Term)
    requires
        canonical(t),
        well_formed(t),
        !fires(t),
    ensures
        normal(term_tree(t)),
    decreases t,
{
    let function = node_tree(t[0]);
    let arguments = t.subrange(1, t.len() as int);
    assert(node_canonical(t[0]) && node_well_formed(t[0]));
    lemma_tree_applied(t);
    assert forall|i: int| 0 <= i < arguments.len() implies normal(
        node_tree(#[trigger] arguments[i]),
    ) by {
        let n = t[i + 1];
        assert(arguments[i] == n);
        assert(node_canonical(n) && node_well_formed(n) && !node_fires(n));
        match n {
            Node::Atom(_) => {},
            Node::Group(body) => lemma_stable_normal(body),
            Node::Abstraction(_, _) => {},
        }
    }
    assert forall|k: int| 1 <= k <= arguments.len() implies !is_redex(
        #[trigger] applied(function, arguments.subrange(0, k)),
    ) by {
        lemma_applied_spine(function, arguments.subrange(0, k));
        lemma_redex_spine(applied(function, arguments.subrange(0, k)));
    }
    lemma_applied_normal(function, arguments);
}

/// Applications of equally many arguments are equal only where the functions and the
/// arguments are.
pub proof fn lemma_applied_injective(f: Tree, a: Term, g: Tree, b: Term)
    requires
        a.len() == b.len(),
        applied(f, a) == applied(g, b),
    ensures
        f == g,
        forall|i: int| 0 <= i < a.len() ==> node_tree(#[trigger] a[i]) == node_tree(b[i]),
    decreases a.len(),
{
    if a.len() > 0 {
        lemma_applied_injective(f, a.drop_last(), g, b.drop_last());
        assert forall|i: int| 0 <= i < a.len() implies node_tree(#[trigger] a[i]) == node_tree(
            b[i],
        ) by {
            if i < a.len() - 1 {
                assert(a.drop_last()[i] == a[i]);
                assert(b.drop_last()[i] == b[i]);
            }
        }
    }
}

/// Canonical, well-formed terms that stand for the same tree are the same term.
pub proof fn lemma_tree_injective(a: Term, b: Term)
    requires
        canonical(a),
        well_formed(a),
        canonical(b),
        well_formed(b),
        term_tree(a) == term_tree(b),
    ensures
        a == b,
    decreases a,
{
    lemma_canonical_spine(a);
    lemma_canonical_spine(b);
    lemma_tree_applied(a);
    lemma_tree_applied(b);
    let rest_a = a.subrange(1, a.len() as int);
    let rest_b = b.subrange(1, b.len() as int);
    lemma_applied_injective(node_tree(a[0]), rest_a, node_tree(b[0]), rest_b);
    assert forall|i: int| 0 <= i < a.len() implies a[i] == b[i] by {
        assert(node_canonical(a[i]) && node_well_formed(a[i]));
        assert(node_canonical(b[i]) && node_well_formed(b[i]));
        if i > 0 {
            assert(rest_a[i - 1] == a[i]);
            assert(rest_b[i - 1] == b[i]);
            assert(node_tree(rest_a[i - 1]) == node_tree(rest_b[i - 1]));
        }
        assert(node_tree(a[i]) == node_tree(b[i]));
        if a[i] is Group {
            lemma_canonical_spine(a[i]->Group_0);
        }
        if b[i] is Group {
            lemma_canonical_spine(b[i]->Group_0);
        }
        if a[i] is Group && b[i] is Group {
            lemma_tree_injective(a[i]->Group_0, b[i]->Group_0);
        }
    }
    assert(a =~= b);
}

/// The canonical form of a well-formed term is the one canonical, well-formed term that
/// stands for what the term stands for.
pub proof fn lemma_canonicalize_unique(t: Term, c: Term)
    requires
        well_formed(t),
        well_formed(c),
        canonical(c),
        term_tree(c) == term_tree(t),
    ensures
        c == canonicalize(t),
{
    lemma_canonicalize_canonical(t);
    lemma_canonicalize_well_formed(t);
    lemma_well_formed_solid(t);
    lemma_tree_canonicalize(t);
    lemma_tree_injective(c, canonicalize(t));
}

} // verus!
