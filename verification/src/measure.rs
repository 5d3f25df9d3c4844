//! Sizes of terms, and the height of their pending abstractions: the measures by which
//! canonicalisation and elimination are shown to come to an end.

use crate::canonical::{
    canonicalize, regroup, regroup_node, regroup_times, splice_head, unwrap_single,
};
use crate::term::{Node, Term};
use vstd::prelude::*;

verus! {

/// The number of nodes in a node: itself and all that its body holds.
pub open spec fn node_size(n: Node) -> nat
    decreases n,
{
    match n {
        Node::Atom(_) => 1,
        Node::Group(body) => 1 + term_size(body),
        Node::Abstraction(body, _) => 1 + term_size(body),
    }
}

/// The number of nodes in a term, at every depth.
pub open spec fn term_size(t: Term) -> nat
    decreases t,
{
    if t.len() == 0 {
        0
    } else {
        term_size(t.drop_last()) + node_size(t.last())
    }
}

pub proof fn lemma_size_push(t: Term, n: Node)
    ensures
        term_size(t.push(n)) == term_size(t) + node_size(n),
{
    assert(t.push(n).drop_last() =~= t);
}

pub proof fn lemma_size_concat(a: Term, b: Term)
    ensures
        term_size(a + b) == term_size(a) + term_size(b),
    decreases b.len(),
{
    if b.len() == 0 {
        assert(a + b =~= a);
    } else {
        assert((a + b).drop_last() =~= a + b.drop_last());
        lemma_size_concat(a, b.drop_last());
    }
}

pub proof fn lemma_size_single(n: Node)
    ensures
        term_size(seq![n]) == node_size(n),
{
    assert(seq![n] =~= Seq::<Node>::empty().push(n));
    lemma_size_push(Seq::<Node>::empty(), n);
}

/// Every node counts at least once, so a term is at least as large as it is long,
/// and no smaller than any one of its nodes.
pub proof fn lemma_size_bounds(t: Term)
    ensures
        term_size(t) >= t.len(),
        forall|i: int| 0 <= i < t.len() ==> node_size(#[trigger] t[i]) <= term_size(t),
    decreases t.len(),
{
    if t.len() > 0 {
        lemma_size_bounds(t.drop_last());
        assert forall|i: int| 0 <= i < t.len() implies node_size(#[trigger] t[i]) <= term_size(
            t,
        ) by {
            if i < t.len() - 1 {
                assert(t.drop_last()[i] == t[i]);
            }
        }
    }
}

/// A term whose nodes are no larger, one by one, is no larger.
pub proof fn lemma_size_pointwise(a: Term, b: Term)
    requires
        a.len() == b.len(),
        forall|i: int| 0 <= i < a.len() ==> node_size(#[trigger] a[i]) <= node_size(b[i]),
    ensures
        term_size(a) <= term_size(b),
    decreases a.len(),
{
    if a.len() > 0 {
        assert forall|i: int| 0 <= i < a.drop_last().len() implies node_size(
            #[trigger] a.drop_last()[i],
        ) <= node_size(b.drop_last()[i]) by {
            assert(a.drop_last()[i] == a[i]);
            assert(b.drop_last()[i] == b[i]);
        }
        lemma_size_pointwise(a.drop_last(), b.drop_last());
        assert(node_size(a[a.len() - 1]) <= node_size(b[a.len() - 1]));
    }
}

/// A term whose nodes are no larger, one by one, and which is as large in all, has
/// nodes that are as large, one by one.
pub proof fn lemma_size_pointwise_equal(a: Term, b: Term)
    requires
        a.len() == b.len(),
        forall|i: int| 0 <= i < a.len() ==> node_size(#[trigger] a[i]) <= node_size(b[i]),
        term_size(a) == term_size(b),
    ensures
        forall|i: int| 0 <= i < a.len() ==> node_size(#[trigger] a[i]) == node_size(b[i]),
    decreases a.len(),
{
    if a.len() > 0 {
        assert forall|i: int| 0 <= i < a.drop_last().len() implies node_size(
            #[trigger] a.drop_last()[i],
        ) <= node_size(b.drop_last()[i]) by {
            assert(a.drop_last()[i] == a[i]);
            assert(b.drop_last()[i] == b[i]);
        }
        lemma_size_pointwise(a.drop_last(), b.drop_last());
        assert(node_size(a[a.len() - 1]) <= node_size(b[a.len() - 1]));
        lemma_size_pointwise_equal(a.drop_last(), b.drop_last());
        assert forall|i: int| 0 <= i < a.len() implies node_size(#[trigger] a[i]) == node_size(
            b[i],
        ) by {
            if i < a.len() - 1 {
                assert(a.drop_last()[i] == a[i]);
                assert(b.drop_last()[i] == b[i]);
            }
        }
    }
}

pub proof fn lemma_size_splice(t: Term)
    ensures
        term_size(splice_head(t)) <= term_size(t),
{
    if t.len() > 0 && t[0] is Group {
        let rest = t.subrange(1, t.len() as int);
        assert(t =~= seq![t[0]] + rest);
        lemma_size_concat(seq![t[0]], rest);
        lemma_size_single(t[0]);
        lemma_size_concat(t[0]->Group_0, rest);
    }
}

pub proof fn lemma_size_unwrap(n: Node)
    ensures
        node_size(unwrap_single(n)) <= node_size(n),
{
    if n is Group && n->Group_0.len() == 1 {
        let body = n->Group_0;
        assert(body =~= seq![body[0]]);
        lemma_size_single(body[0]);
    }
}

/// Canonicalising never adds a node.
pub proof fn lemma_size_regroup(t: Term)
    ensures
        term_size(regroup(t)) <= term_size(t),
    decreases t, 1nat,
{
    let spliced = splice_head(t);
    let result = regroup(t);
    assert forall|i: int| 0 <= i < result.len() implies node_size(#[trigger] result[i])
        <= node_size(spliced[i]) by {
        lemma_size_unwrap(spliced[i]);
        lemma_size_regroup_node(unwrap_single(spliced[i]));
    }
    lemma_size_pointwise(result, spliced);
    lemma_size_splice(t);
}

/// Canonicalising never adds a node.
pub proof fn lemma_size_regroup_node(n: Node)
    ensures
        node_size(regroup_node(n)) <= node_size(n),
    decreases n, 0nat,
{
    match n {
        Node::Atom(_) => {},
        Node::Group(body) => lemma_size_regroup(body),
        Node::Abstraction(body, _) => lemma_size_regroup(body),
    }
}

/// How much work the pending abstractions of a node still stand for: the size of the largest
/// abstraction that can be reached through groups, and zero where there is none.
pub open spec fn node_height(n: Node) -> nat
    decreases n,
{
    match n {
        Node::Atom(_) => 0,
        Node::Group(body) => term_height(body),
        Node::Abstraction(body, _) => 1 + term_size(body),
    }
}

/// The largest height among the nodes of a term.
pub open spec fn term_height(t: Term) -> nat
    decreases t,
{
    if t.len() == 0 {
        0
    } else if term_height(t.drop_last()) >= node_height(t.last()) {
        term_height(t.drop_last())
    } else {
        node_height(t.last())
    }
}

/// The height of a term bounds the height of each of its nodes.
pub proof fn lemma_height_covers(t: Term)
    ensures
        forall|i: int| 0 <= i < t.len() ==> node_height(#[trigger] t[i]) <= term_height(t),
    decreases t.len(),
{
    if t.len() > 0 {
        lemma_height_covers(t.drop_last());
        assert forall|i: int| 0 <= i < t.len() implies node_height(#[trigger] t[i])
            <= term_height(t) by {
            if i < t.len() - 1 {
                assert(t.drop_last()[i] == t[i]);
            }
        }
    }
}

/// A bound on the height of every node bounds the height of the term.
pub proof fn lemma_height_bounded(t: Term, bound: nat)
    requires
        forall|i: int| 0 <= i < t.len() ==> node_height(#[trigger] t[i]) <= bound,
    ensures
        term_height(t) <= bound,
    decreases t.len(),
{
    if t.len() > 0 {
        assert forall|i: int| 0 <= i < t.drop_last().len() implies node_height(
            #[trigger] t.drop_last()[i],
        ) <= bound by {
            assert(t.drop_last()[i] == t[i]);
        }
        lemma_height_bounded(t.drop_last(), bound);
        assert(node_height(t[t.len() - 1]) <= bound);
    }
}

/// An abstraction is no higher than it is large.
pub proof fn lemma_height_below_size(t: Term)
    ensures
        term_height(t) <= term_size(t),
    decreases t, 1nat,
{
    lemma_size_bounds(t);
    assert forall|i: int| 0 <= i < t.len() implies node_height(#[trigger] t[i]) <= term_size(
        t,
    ) by {
        lemma_node_height_below_size(t[i]);
    }
    lemma_height_bounded(t, term_size(t));
}

/// An abstraction is no higher than it is large.
pub proof fn lemma_node_height_below_size(n: Node)
    ensures
        node_height(n) <= node_size(n),
    decreases n, 0nat,
{
    match n {
        Node::Atom(_) => {},
        Node::Group(body) => lemma_height_below_size(body),
        Node::Abstraction(_, _) => {},
    }
}

/// Canonicalising never raises the height.
pub proof fn lemma_height_regroup(t: Term)
    ensures
        term_height(regroup(t)) <= term_height(t),
    decreases t, 1nat,
{
    let spliced = splice_head(t);
    let result = regroup(t);
    lemma_height_covers(t);
    assert forall|i: int| 0 <= i < result.len() implies node_height(#[trigger] result[i])
        <= term_height(t) by {
        let source = spliced[i];
        if t.len() > 0 && t[0] is Group {
            let body = t[0]->Group_0;
            lemma_height_covers(body);
            if i < body.len() {
                assert(source == body[i]);
            } else {
                assert(source == t[i - body.len() + 1]);
            }
        } else {
            assert(source == t[i]);
        }
        assert(node_height(source) <= term_height(t));
        if source is Group && source->Group_0.len() == 1 {
            lemma_height_covers(source->Group_0);
        }
        assert(node_height(unwrap_single(source)) <= node_height(source));
        lemma_node_height_regroup(unwrap_single(source));
    }
    lemma_height_bounded(result, term_height(t));
}

/// Canonicalising never raises the height.
pub proof fn lemma_node_height_regroup(n: Node)
    ensures
        node_height(regroup_node(n)) <= node_height(n),
    decreases n, 0nat,
{
    match n {
        Node::Atom(_) => {},
        Node::Group(body) => lemma_height_regroup(body),
        Node::Abstraction(body, _) => lemma_size_regroup(body),
    }
}

/// Canonicalising never raises the height.
pub proof fn lemma_canonicalize_height(t: Term)
    ensures
        term_height(canonicalize(t)) <= term_height(t),
{
    lemma_regroup_times_height(t, term_size(t));
}

/// Passes never raise the height.
pub proof fn lemma_regroup_times_height(t: Term, n: nat)
    ensures
        term_height(regroup_times(t, n)) <= term_height(t),
    decreases n,
{
    if n > 0 {
        lemma_regroup_times_height(t, (n - 1) as nat);
        lemma_height_regroup(regroup_times(t, (n - 1) as nat));
    }
}

} // verus!
