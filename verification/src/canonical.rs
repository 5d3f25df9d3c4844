//! Canonical grouping: a term does not begin with a group, and no group wraps a single
//! element. The canonical form of a term is what regrouping passes, each of which
//! splices and unwraps one level of parentheses, make of it.

use crate::measure::{
    lemma_size_concat, lemma_size_pointwise, lemma_size_pointwise_equal, lemma_size_regroup,
    lemma_size_regroup_node, lemma_size_single, lemma_size_splice, lemma_size_unwrap, node_size,
    term_size,
};
use crate::term::{node_well_formed, well_formed, Element, Expression, Node, Term};
use vstd::prelude::*;

verus! {

/// The elements of a leading group take the group's place at the front of the term:
/// application associates to the left, so `(a b) c` is `a b c`.
pub open spec fn splice_head(t: Term) -> Term {
    if t.len() > 0 && t[0] is Group {
        t[0]->Group_0 + t.subrange(1, t.len() as int)
    } else {
        t
    }
}

/// A group around a single element stands for that element.
pub open spec fn unwrap_single(n: Node) -> Node {
    if n is Group && n->Group_0.len() == 1 {
        n->Group_0[0]
    } else {
        n
    }
}

/// One regrouping pass over a term: splice a leading group, unwrap single-element groups,
/// then make a pass over the bodies of the groups and abstractions that remain. One pass
/// takes away one level of parentheses; the canonical form is what passes enough give.
pub open spec fn regroup(t: Term) -> Term
    decreases t, 1nat,
{
    let spliced = splice_head(t);
    Seq::new(
        spliced.len(),
        |i: int|
            if 0 <= i < spliced.len() {
                regroup_node(unwrap_single(spliced[i]))
            } else {
                spliced[i]
            },
    )
}

/// One regrouping pass over the body of a group or of an abstraction; atoms are left as
/// they are.
pub open spec fn regroup_node(n: Node) -> Node
    decreases n, 0nat,
{
    match n {
        Node::Atom(_) => n,
        Node::Group(body) => Node::Group(regroup(body)),
        Node::Abstraction(body, variable) => Node::Abstraction(regroup(body), variable),
    }
}

/// Canonical grouping of a node: no group wraps a single element, and the body of every
/// group and abstraction is canonical.
pub open spec fn node_canonical(n: Node) -> bool
    decreases n,
{
    match n {
        Node::Atom(_) => true,
        Node::Group(body) => body.len() != 1 && canonical(body),
        Node::Abstraction(body, _) => canonical(body),
    }
}

/// Canonical grouping of a term: it does not begin with a group, and each of its nodes is
/// canonical.
pub open spec fn canonical(t: Term) -> bool
    decreases t,
{
    &&& t.len() > 0 ==> !(t[0] is Group)
    &&& forall|i: int| 0 <= i < t.len() ==> node_canonical(#[trigger] t[i])
}

/// A pass leaves a canonical term as it is.
pub proof fn lemma_canonical_unchanged(t: Term)
    requires
        canonical(t),
    ensures
        regroup(t) == t,
    decreases t, 1nat,
{
    assert forall|i: int| 0 <= i < t.len() implies regroup(t)[i] == t[i] by {
        assert(node_canonical(t[i]));
        lemma_canonical_node_unchanged(t[i]);
    }
    assert(regroup(t) =~= t);
}

/// A pass leaves a canonical node as it is.
pub proof fn lemma_canonical_node_unchanged(n: Node)
    requires
        node_canonical(n),
    ensures
        regroup_node(n) == n,
    decreases n, 0nat,
{
    match n {
        Node::Atom(_) => {},
        Node::Group(body) => lemma_canonical_unchanged(body),
        Node::Abstraction(body, _) => lemma_canonical_unchanged(body),
    }
}

/// A term that a pass leaves as it is has canonical grouping.
pub proof fn lemma_unchanged_canonical(t: Term)
    requires
        regroup(t) == t,
    ensures
        canonical(t),
    decreases t, 1nat,
{
    if t.len() > 0 && t[0] is Group {
        let body = t[0]->Group_0;
        assert(regroup(t).len() == body.len() + t.len() - 1);
        assert(body =~= seq![body[0]]);
        lemma_size_single(body[0]);
        lemma_size_unwrap(body[0]);
        lemma_size_regroup_node(unwrap_single(body[0]));
        assert(regroup(t)[0] == regroup_node(unwrap_single(body[0])));
        assert(node_size(regroup(t)[0]) < node_size(t[0]));
    }
    assert forall|i: int| 0 <= i < t.len() implies node_canonical(#[trigger] t[i]) by {
        assert(regroup(t)[i] == regroup_node(unwrap_single(t[i])));
        if t[i] is Group && t[i]->Group_0.len() == 1 {
            let body = t[i]->Group_0;
            assert(body =~= seq![body[0]]);
            lemma_size_single(body[0]);
            lemma_size_regroup_node(body[0]);
            assert(node_size(regroup(t)[i]) < node_size(t[i]));
        }
        lemma_unchanged_node_canonical(t[i]);
    }
}

/// A node whose body a pass leaves as it is, and which is no group around a single
/// element, has canonical grouping.
pub proof fn lemma_unchanged_node_canonical(n: Node)
    requires
        regroup_node(n) == n,
        !(n is Group && n->Group_0.len() == 1),
    ensures
        node_canonical(n),
    decreases n, 0nat,
{
    match n {
        Node::Atom(_) => {},
        Node::Group(body) => lemma_unchanged_canonical(body),
        Node::Abstraction(body, _) => lemma_unchanged_canonical(body),
    }
}

/// A regrouping pass keeps a well-formed term well-formed.
pub proof fn lemma_regroup_well_formed(t: Term)
    requires
        well_formed(t),
    ensures
        well_formed(regroup(t)),
    decreases t, 1nat,
{
    let spliced = splice_head(t);
    assert(node_well_formed(t[0]));
    assert forall|i: int| 0 <= i < spliced.len() implies node_well_formed(
        #[trigger] regroup(t)[i],
    ) by {
        let source = spliced[i];
        if t[0] is Group {
            let body = t[0]->Group_0;
            if i < body.len() {
                assert(source == body[i]);
                assert(node_well_formed(body[i]));
            } else {
                assert(source == t[i - body.len() + 1]);
                assert(node_well_formed(t[i - body.len() + 1]));
            }
        } else {
            assert(node_well_formed(t[i]));
        }
        if source is Group && source->Group_0.len() == 1 {
            assert(node_well_formed(source->Group_0[0]));
        }
        lemma_regroup_node_well_formed(unwrap_single(source));
    }
}

/// A regrouping pass keeps a well-formed node well-formed.
pub proof fn lemma_regroup_node_well_formed(n: Node)
    requires
        node_well_formed(n),
    ensures
        node_well_formed(regroup_node(n)),
    decreases n, 0nat,
{
    match n {
        Node::Atom(_) => {},
        Node::Group(body) => lemma_regroup_well_formed(body),
        Node::Abstraction(_, _) => {},
    }
}

/// A pass that changes a term makes it smaller: it only ever takes parentheses away.
pub proof fn lemma_regroup_shrinks(t: Term)
    ensures
        regroup(t) != t ==> term_size(regroup(t)) < term_size(t),
    decreases t, 1nat,
{
    let spliced = splice_head(t);
    let result = regroup(t);
    lemma_size_regroup(t);
    lemma_size_splice(t);
    assert forall|i: int| 0 <= i < result.len() implies node_size(#[trigger] result[i])
        <= node_size(spliced[i]) by {
        lemma_size_unwrap(spliced[i]);
        lemma_size_regroup_node(unwrap_single(spliced[i]));
    }
    lemma_size_pointwise(result, spliced);
    if t.len() > 0 && t[0] is Group {
        let rest = t.subrange(1, t.len() as int);
        assert(t =~= seq![t[0]] + rest);
        lemma_size_concat(seq![t[0]], rest);
        lemma_size_concat(t[0]->Group_0, rest);
        lemma_size_single(t[0]);
        assert(term_size(spliced) < term_size(t));
    } else if term_size(result) == term_size(t) {
        lemma_size_pointwise_equal(result, spliced);
        assert forall|i: int| 0 <= i < t.len() implies result[i] == t[i] by {
            assert(node_size(result[i]) == node_size(t[i]));
            let n = t[i];
            if n is Group && n->Group_0.len() == 1 {
                let body = n->Group_0;
                assert(body =~= seq![body[0]]);
                lemma_size_single(body[0]);
                lemma_size_regroup_node(body[0]);
            }
            lemma_regroup_node_shrinks(n);
        }
        assert(result =~= t);
    }
}

/// A pass that changes the body of a node makes the node smaller.
pub proof fn lemma_regroup_node_shrinks(n: Node)
    ensures
        regroup_node(n) != n ==> node_size(regroup_node(n)) < node_size(n),
    decreases n, 0nat,
{
    lemma_size_regroup_node(n);
    match n {
        Node::Atom(_) => {},
        Node::Group(body) => lemma_regroup_shrinks(body),
        Node::Abstraction(body, _) => lemma_regroup_shrinks(body),
    }
}

/// The term after `n` regrouping passes.
pub open spec fn regroup_times(t: Term, n: nat) -> Term
    decreases n,
{
    if n == 0 {
        t
    } else {
        regroup(regroup_times(t, (n - 1) as nat))
    }
}

/// Passes enough reach canonical grouping: after as many passes as the term has nodes,
/// at the latest, the grouping is canonical, and further passes change nothing.
pub proof fn lemma_regroup_converges(t: Term, n: nat)
    requires
        n >= term_size(t),
    ensures
        canonical(regroup_times(t, n)),
        regroup(regroup_times(t, n)) == regroup_times(t, n),
{
    lemma_regroup_progress(t, n);
    let reached = regroup_times(t, n);
    if regroup(reached) != reached {
        lemma_regroup_shrinks(reached);
    }
    lemma_unchanged_canonical(reached);
}

/// After `n` passes the term is a fixed point already, or has lost `n` nodes at least.
proof fn lemma_regroup_progress(t: Term, n: nat)
    ensures
        regroup(regroup_times(t, n)) == regroup_times(t, n) || term_size(
            regroup_times(t, n),
        ) + n <= term_size(t),
    decreases n,
{
    if n > 0 {
        let before = regroup_times(t, (n - 1) as nat);
        lemma_regroup_progress(t, (n - 1) as nat);
        lemma_regroup_shrinks(before);
    }
}

/// The canonical form of a term: what regrouping passes make of it once they change
/// nothing more. A pass that changes a term takes a node away, so that as many passes as
/// the term has nodes are enough.
pub open spec fn canonicalize(t: Term) -> Term {
    regroup_times(t, term_size(t))
}

/// The canonical form of a node: a group or an abstraction gets a canonical body, and a
/// group whose canonical body is a single node gives way to that node.
pub open spec fn canonicalize_node(n: Node) -> Node {
    match n {
        Node::Atom(_) => n,
        Node::Group(body) => if canonicalize(body).len() == 1 {
            canonicalize(body)[0]
        } else {
            Node::Group(canonicalize(body))
        },
        Node::Abstraction(body, variable) => Node::Abstraction(canonicalize(body), variable),
    }
}

/// Once a pass has changed nothing, no later pass changes anything.
pub proof fn lemma_regroup_times_fixed(t: Term, n: nat, more: nat)
    requires
        regroup(regroup_times(t, n)) == regroup_times(t, n),
        n <= more,
    ensures
        regroup_times(t, more) == regroup_times(t, n),
    decreases more,
{
    if n < more {
        lemma_regroup_times_fixed(t, n, (more - 1) as nat);
    }
}

/// The canonical form has canonical grouping, and a pass leaves it as it is.
pub proof fn lemma_canonicalize_canonical(t: Term)
    ensures
        canonical(canonicalize(t)),
        regroup(canonicalize(t)) == canonicalize(t),
{
    lemma_regroup_converges(t, term_size(t));
}

/// Where the passes have reached canonical grouping, they have reached the canonical form.
pub proof fn lemma_canonicalize_reached(t: Term, n: nat)
    requires
        canonical(regroup_times(t, n)),
    ensures
        canonicalize(t) == regroup_times(t, n),
{
    lemma_canonical_unchanged(regroup_times(t, n));
    lemma_canonicalize_canonical(t);
    if n <= term_size(t) {
        lemma_regroup_times_fixed(t, n, term_size(t));
    } else {
        lemma_regroup_times_fixed(t, term_size(t), n);
    }
}

/// A term with canonical grouping is its own canonical form.
pub proof fn lemma_canonicalize_unchanged(t: Term)
    requires
        canonical(t),
    ensures
        canonicalize(t) == t,
{
    lemma_canonicalize_reached(t, 0);
}

/// Canonicalising is idempotent: the canonical form of a canonical form is that form.
pub proof fn lemma_canonicalize_idempotent(t: Term)
    ensures
        canonicalize(canonicalize(t)) == canonicalize(t),
{
    lemma_canonicalize_canonical(t);
    lemma_canonicalize_unchanged(canonicalize(t));
}

/// The canonical form of a node has canonical grouping, and is the node itself where
/// that has canonical grouping already.
pub proof fn lemma_canonicalize_node_canonical(n: Node)
    ensures
        node_canonical(canonicalize_node(n)),
        node_canonical(n) ==> canonicalize_node(n) == n,
{
    match n {
        Node::Atom(_) => {},
        Node::Group(body) => {
            lemma_canonicalize_canonical(body);
            if canonicalize(body).len() == 1 {
                assert(node_canonical(canonicalize(body)[0]));
            }
            if node_canonical(n) {
                lemma_canonicalize_unchanged(body);
            }
        },
        Node::Abstraction(body, _) => {
            lemma_canonicalize_canonical(body);
            if node_canonical(n) {
                lemma_canonicalize_unchanged(body);
            }
        },
    }
}

/// Passes keep a well-formed term well-formed.
pub proof fn lemma_regroup_times_well_formed(t: Term, n: nat)
    requires
        well_formed(t),
    ensures
        well_formed(regroup_times(t, n)),
    decreases n,
{
    if n > 0 {
        lemma_regroup_times_well_formed(t, (n - 1) as nat);
        lemma_regroup_well_formed(regroup_times(t, (n - 1) as nat));
    }
}

/// The canonical form of a well-formed term is well-formed.
pub proof fn lemma_canonicalize_well_formed(t: Term)
    requires
        well_formed(t),
    ensures
        well_formed(canonicalize(t)),
{
    lemma_regroup_times_well_formed(t, term_size(t));
}

/// Passes never add a node.
pub proof fn lemma_regroup_times_size(t: Term, n: nat)
    ensures
        term_size(regroup_times(t, n)) <= term_size(t),
    decreases n,
{
    if n > 0 {
        lemma_regroup_times_size(t, (n - 1) as nat);
        lemma_size_regroup(regroup_times(t, (n - 1) as nat));
    }
}

/// Canonicalising never adds a node.
pub proof fn lemma_canonicalize_size(t: Term)
    ensures
        term_size(canonicalize(t)) <= term_size(t),
{
    lemma_regroup_times_size(t, term_size(t));
}

/// One regrouping pass over the body of an element.
fn regrouped_element(element: &Element) -> (res: Element)
    ensures
        res@ == regroup_node(element@),
    decreases element, 0nat,
{
    match element {
        Element::Item(name) => Element::Item(name.clone()),
        Element::SubExpression(body) => Element::SubExpression(regrouped_expression(body)),
        Element::Abstraction(body, variable) => Element::Abstraction(
            regrouped_expression(body),
            variable.clone(),
        ),
    }
}

/// Unwraps a single-element group, then makes one regrouping pass over what is left.
fn regrouped_unwrapped(element: &Element) -> (res: Element)
    ensures
        res@ == regroup_node(unwrap_single(element@)),
    decreases element, 1nat,
{
    match element {
        Element::SubExpression(body) => {
            if body.0.len() == 1 {
                regrouped_element(&body.0[0])
            } else {
                regrouped_element(element)
            }
        },
        _ => regrouped_element(element),
    }
}

/// One regrouping pass over an expression, as a new expression.
#[verifier::loop_isolation(false)]
fn regrouped_expression(expression: &Expression) -> (res: Expression)
    ensures
        res@ == regroup(expression@),
    decreases expression, 2nat,
{
    let ghost spliced = splice_head(expression@);
    let mut elements: Vec<Element> = Vec::new();
    let mut next: usize = 0;
    if expression.0.len() > 0 {
        assert(expression@[0] == expression.0[0]@);
        if let Element::SubExpression(inner) = &expression.0[0] {
            assert(spliced == inner@ + expression@.subrange(1, expression@.len() as int));
            let mut j: usize = 0;
            while j < inner.0.len()
                invariant
                    j <= inner.0.len(),
                    elements.len() == j,
                    spliced.len() == inner.0.len() + expression.0.len() - 1,
                    forall|k: int|
                        0 <= k < j ==> elements[k]@ == regroup_node(unwrap_single(spliced[k])),
                decreases inner.0.len() - j,
            {
                assert(spliced[j as int] == inner.0[j as int]@);
                elements.push(regrouped_unwrapped(&inner.0[j]));
                j += 1;
            }
            next = 1;
        }
    }
    let ghost offset = elements.len() - next;
    let mut i: usize = next;
    while i < expression.0.len()
        invariant
            next <= i <= expression.0.len(),
            elements.len() == offset + i,
            spliced.len() == offset + expression.0.len(),
            forall|k: int|
                0 <= k < elements.len() ==> elements[k]@ == regroup_node(
                    unwrap_single(spliced[k]),
                ),
        decreases expression.0.len() - i,
    {
        assert(spliced[offset + i] == expression.0[i as int]@);
        elements.push(regrouped_unwrapped(&expression.0[i]));
        i += 1;
    }
    let res = Expression(elements);
    assert(res@ =~= regroup(expression@));
    res
}

/// The canonical form of an expression, as a new expression: regrouping passes until the
/// grouping is canonical.
pub fn canonical_expression(expression: &Expression) -> (res: Expression)
    ensures
        res@ == canonicalize(expression@),
        canonical(res@),
{
    let mut current = expression.clone();
    let ghost mut passes: nat = 0;
    while !current.is_canonical()
        invariant
            current@ == regroup_times(expression@, passes),
        decreases term_size(current@),
    {
        proof {
            lemma_regroup_shrinks(current@);
            if regroup(current@) == current@ {
                lemma_unchanged_canonical(current@);
            }
            passes = passes + 1;
        }
        current = regrouped_expression(&current);
    }
    proof {
        lemma_canonicalize_reached(expression@, passes);
    }
    current
}

/// The canonical form of an element, as a new element.
pub fn canonical_element(element: &Element) -> (res: Element)
    ensures
        res@ == canonicalize_node(element@),
        node_canonical(res@),
{
    proof {
        lemma_canonicalize_node_canonical(element@);
    }
    match element {
        Element::Item(name) => Element::Item(name.clone()),
        Element::SubExpression(body) => {
            let inner = canonical_expression(body);
            if inner.0.len() == 1 {
                assert(inner@[0] == inner.0[0]@);
                inner.0[0].clone()
            } else {
                Element::SubExpression(inner)
            }
        },
        Element::Abstraction(body, variable) => Element::Abstraction(
            canonical_expression(body),
            variable.clone(),
        ),
    }
}

/// Whether the element has canonical grouping.
pub fn is_canonical_element(element: &Element) -> (res: bool)
    ensures
        res == node_canonical(element@),
    decreases element, 0nat,
{
    match element {
        Element::Item(_) => true,
        Element::SubExpression(body) => body.0.len() != 1 && body.is_canonical(),
        Element::Abstraction(body, _) => body.is_canonical(),
    }
}

impl Expression {
    /// Whether the expression has canonical grouping: it does not begin with a
    /// sub-expression, and no sub-expression in it holds a single element.
    pub fn is_canonical(&self) -> (res: bool)
        ensures
            res == canonical(self@),
        decreases self, 1nat,
    {
        if self.0.len() > 0 {
            assert(self@[0] == self.0[0]@);
            if let Element::SubExpression(_) = &self.0[0] {
                return false;
            }
        }
        let mut i: usize = 0;
        while i < self.0.len()
            invariant
                i <= self.0.len(),
                self@.len() == self.0.len(),
                self@.len() > 0 ==> !(self@[0] is Group),
                forall|j: int| 0 <= j < i ==> node_canonical(self@[j]),
            decreases self.0.len() - i,
        {
            if !is_canonical_element(&self.0[i]) {
                assert(!node_canonical(self@[i as int]));
                return false;
            }
            i += 1;
        }
        true
    }
}

} // verus!
