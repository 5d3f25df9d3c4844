//! Reduction finds normal forms: on canonical, well-formed terms the rewriting pass is
//! the pass of the strategy on application trees, so that reduction has a result, on
//! fuel enough, wherever what the term stands for has a normal form.

use crate::canonical::{
    canonical, canonicalize, lemma_canonicalize_canonical, lemma_canonicalize_well_formed,
    node_canonical,
};
use crate::reduction::{fires, head_rewrite, node_fires, normalize, rewrite, rewrite_node};
use crate::term::{node_well_formed, well_formed, Node, Term};
use crate::theory::calculus::{normal, Tree};
use crate::theory::normal::{lemma_canonical_spine, lemma_stable_normal};
use crate::theory::semantics::{
    applied, lemma_head_rewrite_tree, lemma_rewrite_par, lemma_tree_applied,
    lemma_tree_canonicalize, lemma_well_formed_solid, node_tree, term_tree,
};
use crate::theory::strategy::{
    head_contract, inner_pass, lemma_head_redex, lemma_pass_normal, lemma_pass_times_stays, pass,
    pass_times,
};
use vstd::prelude::*;

verus! {

/// A pass inside the arguments of an application is a pass inside the arguments of the
/// function, and a pass of the strategy on each argument more.
pub proof fn lemma_inner_pass_applied(function: Tree, a: Term, b: Term)
    requires
        a.len() == b.len(),
        forall|i: int| 0 <= i < a.len() ==> node_tree(#[trigger] b[i]) == pass(node_tree(a[i])),
    ensures
        inner_pass(applied(function, a)) == applied(inner_pass(function), b),
    decreases a.len(),
{
    if a.len() > 0 {
        assert forall|i: int| 0 <= i < a.drop_last().len() implies node_tree(
            #[trigger] b.drop_last()[i],
        ) == pass(node_tree(a.drop_last()[i])) by {
            assert(a.drop_last()[i] == a[i]);
            assert(b.drop_last()[i] == b[i]);
        }
        lemma_inner_pass_applied(function, a.drop_last(), b.drop_last());
        assert(node_tree(b[a.len() - 1]) == pass(node_tree(a[a.len() - 1])));
    }
}

/// On a canonical, well-formed term the rewriting pass is the pass of the strategy on
/// what the term stands for.
pub proof fn lemma_rewrite_is_pass(t: Term)
    requires
        canonical(t),
        well_formed(t),
    ensures
        term_tree(rewrite(t)) == pass(term_tree(t)),
    decreases t,
{
    if head_rewrite(t) is Some {
        lemma_head_rewrite_tree(t);
    } else {
        let next = rewrite(t);
        let rest = t.subrange(1, t.len() as int);
        let next_rest = next.subrange(1, t.len() as int);
        lemma_canonical_spine(t);
        lemma_tree_applied(t);
        lemma_tree_applied(next);
        lemma_head_redex(term_tree(t));
        assert(seq!['I'][0] == 'I' && seq!['K'][0] == 'K' && seq!['S'][0] == 'S' && seq!['B'][0]
            == 'B' && seq!['C'][0] == 'C');
        assert(head_contract(term_tree(t)) is None);
        assert forall|i: int| 0 <= i < rest.len() implies node_tree(#[trigger] next_rest[i])
            == pass(node_tree(rest[i])) by {
            let n = t[i + 1];
            assert(rest[i] == n);
            assert(next_rest[i] == rewrite_node(n));
            assert(node_canonical(n) && node_well_formed(n));
            match n {
                Node::Atom(_) => {},
                Node::Group(body) => lemma_rewrite_is_pass(body),
                Node::Abstraction(_, _) => {},
            }
        }
        lemma_inner_pass_applied(node_tree(t[0]), rest, next_rest);
    }
}

/// An application is normal only where its function and each of its arguments are.
pub proof fn lemma_normal_applied(function: Tree, arguments: Term)
    requires
        normal(applied(function, arguments)),
    ensures
        normal(function),
        forall|i: int| 0 <= i < arguments.len() ==> normal(node_tree(#[trigger] arguments[i])),
    decreases arguments.len(),
{
    if arguments.len() > 0 {
        lemma_normal_applied(function, arguments.drop_last());
        assert forall|i: int| 0 <= i < arguments.len() implies normal(
            node_tree(#[trigger] arguments[i]),
        ) by {
            if i < arguments.len() - 1 {
                assert(arguments.drop_last()[i] == arguments[i]);
            }
        }
    }
}

/// A canonical, well-formed term that stands for a normal form is changed by no
/// rewriting pass.
pub proof fn lemma_normal_stable(t: Term)
    requires
        canonical(t),
        well_formed(t),
        normal(term_tree(t)),
    ensures
        !fires(t),
    decreases t,
{
    lemma_pass_normal(term_tree(t));
    if head_rewrite(t) is Some {
        lemma_head_rewrite_tree(t);
    } else {
        lemma_tree_applied(t);
        let rest = t.subrange(1, t.len() as int);
        lemma_normal_applied(node_tree(t[0]), rest);
        assert forall|i: int| 0 <= i < t.len() implies !node_fires(#[trigger] t[i]) by {
            assert(node_canonical(t[i]) && node_well_formed(t[i]));
            if i > 0 {
                assert(rest[i - 1] == t[i]);
                assert(normal(node_tree(rest[i - 1])));
                match t[i] {
                    Node::Atom(_) => {},
                    Node::Group(body) => lemma_normal_stable(body),
                    Node::Abstraction(_, _) => {},
                }
            }
        }
    }
}

/// Reduction follows the strategy: where the passes of the strategy bring what a
/// well-formed term stands for to a normal form, reduction on as much fuel as there were
/// passes, or more, gives a term that stands for that normal form.
pub proof fn lemma_normalize_follows(t: Term, passes: nat, fuel: nat)
    requires
        well_formed(t),
        normal(pass_times(term_tree(t), passes)),
        passes <= fuel,
    ensures
        normalize(t, fuel) is Ok,
        term_tree(normalize(t, fuel)->Ok_0) == pass_times(term_tree(t), passes),
    decreases passes,
{
    let tidy = canonicalize(t);
    lemma_canonicalize_canonical(t);
    lemma_canonicalize_well_formed(t);
    lemma_well_formed_solid(t);
    lemma_tree_canonicalize(t);
    lemma_rewrite_par(tidy);
    if passes == 0 {
        lemma_normal_stable(tidy);
    } else if !fires(tidy) {
        lemma_stable_normal(tidy);
        lemma_pass_times_stays(term_tree(t), 0, passes);
    } else {
        lemma_rewrite_is_pass(tidy);
        lemma_normalize_follows(rewrite(tidy), (passes - 1) as nat, (fuel - 1) as nat);
    }
}

} // verus!
