//! What the substitution of defined names does to what a term stands for: every leaf
//! that carries a defined name is replaced by what the registered body stands for.

use crate::combinator::Definition;
use crate::context::{lookup, substitute, substitute_node, substituted_nodes};
use crate::term::{node_well_formed, well_formed, Node, Term};
use crate::theory::calculus::{app, Tree};
use crate::theory::semantics::{lemma_tree_canonicalize, node_solid, node_tree, solid, term_tree};
use vstd::prelude::*;

verus! {

/// The tree with every leaf of a defined name replaced by what the body registered
/// under that name stands for.
pub open spec fn unfold(t: Tree, definitions: Seq<Definition>) -> Tree
    decreases t,
{
    match t {
        Tree::Leaf(name) => match lookup(definitions, name) {
            Some(body) => term_tree(body),
            None => t,
        },
        Tree::App(function, argument) => app(
            unfold(*function, definitions),
            unfold(*argument, definitions),
        ),
    }
}

/// Whether every registered body is solid.
pub open spec fn bodies_solid(definitions: Seq<Definition>) -> bool {
    forall|i: int| 0 <= i < definitions.len() ==> solid((#[trigger] definitions[i]).body)
}

/// What is found under a name is the body of a definition.
pub proof fn lemma_lookup_registered(definitions: Seq<Definition>, name: Seq<char>)
    requires
        lookup(definitions, name) is Some,
    ensures
        exists|i: int|
            0 <= i < definitions.len() && (#[trigger] definitions[i]).body == lookup(
                definitions,
                name,
            )->0,
    decreases definitions.len(),
{
    if definitions[0].name != name {
        let rest = definitions.drop_first();
        lemma_lookup_registered(rest, name);
        let i = choose|i: int|
            0 <= i < rest.len() && (#[trigger] rest[i]).body == lookup(rest, name)->0;
        assert(definitions[i + 1] == rest[i]);
    }
}

/// Substitution in a well-formed term, with solid bodies registered, gives a solid term
/// that stands for the unfolding of what the term stood for.
pub proof fn lemma_substitute_tree(t: Term, definitions: Seq<Definition>)
    requires
        well_formed(t),
        bodies_solid(definitions),
    ensures
        solid(substituted_nodes(t, definitions)),
        term_tree(substitute(t, definitions)) == unfold(term_tree(t), definitions),
    decreases t, 1nat,
{
    let raw = substituted_nodes(t, definitions);
    assert forall|i: int| 0 <= i < t.len() implies node_solid(#[trigger] raw[i]) && node_tree(
        raw[i],
    ) == unfold(node_tree(t[i]), definitions) by {
        assert(node_well_formed(t[i]));
        lemma_substitute_node_tree(t[i], definitions);
    }
    lemma_tree_canonicalize(raw);
    lemma_unfold_fold(t, definitions, t.len() as int);
    assert(t.subrange(0, t.len() as int) =~= t);
    assert(raw.subrange(0, t.len() as int) =~= raw);
}

/// Substitution in a well-formed node, with solid bodies registered, gives a solid node
/// that stands for the unfolding of what the node stood for.
pub proof fn lemma_substitute_node_tree(n: Node, definitions: Seq<Definition>)
    requires
        node_well_formed(n),
        bodies_solid(definitions),
    ensures
        node_solid(substitute_node(n, definitions)),
        node_tree(substitute_node(n, definitions)) == unfold(node_tree(n), definitions),
    decreases n, 0nat,
{
    match n {
        Node::Atom(name) => {
            if lookup(definitions, name) is Some {
                lemma_lookup_registered(definitions, name);
            }
        },
        Node::Group(body) => {
            lemma_substitute_tree(body, definitions);
            let raw = substituted_nodes(body, definitions);
            lemma_tree_canonicalize(raw);
        },
        Node::Abstraction(_, _) => {},
    }
}

/// The unfolding of what the first `k` nodes of a term stand for.
proof fn lemma_unfold_fold(t: Term, definitions: Seq<Definition>, k: int)
    requires
        1 <= k <= t.len(),
        forall|i: int|
            0 <= i < t.len() ==> node_tree(#[trigger] substituted_nodes(t, definitions)[i])
                == unfold(node_tree(t[i]), definitions),
    ensures
        term_tree(substituted_nodes(t, definitions).subrange(0, k)) == unfold(
            term_tree(t.subrange(0, k)),
            definitions,
        ),
    decreases k,
{
    let raw = substituted_nodes(t, definitions);
    let front = t.subrange(0, k);
    let new_front = raw.subrange(0, k);
    assert(new_front.last() == raw[k - 1]);
    assert(front.last() == t[k - 1]);
    if k > 1 {
        lemma_unfold_fold(t, definitions, k - 1);
        assert(front.drop_last() =~= t.subrange(0, k - 1));
        assert(new_front.drop_last() =~= raw.subrange(0, k - 1));
    } else {
        assert(new_front[0] == raw[0]);
        assert(front[0] == t[0]);
    }
}

} // verus!
