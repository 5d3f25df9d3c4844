//! Bracket abstraction: the rule that eliminates one variable from one body, the
//! substitution step that applies it to every pending abstraction, and the rounds of
//! canonical forms and steps that leave no abstraction behind.

use crate::canonical::{
    canonical, canonical_expression, canonicalize, lemma_canonicalize_canonical,
    lemma_regroup_well_formed, node_canonical, regroup, regroup_node, regroup_times, splice_head,
    unwrap_single,
};
use crate::elimination::AbstractionElimination;
use crate::measure::{
    lemma_canonicalize_height, lemma_height_below_size, lemma_height_bounded, lemma_height_covers,
    lemma_node_height_below_size, lemma_size_bounds, lemma_size_push, lemma_size_single,
    node_height, term_height, term_size,
};
use crate::term::{
    item_b, item_c, item_i, item_k, item_s, node_well_formed, symbol, well_formed, Element,
    Expression, Node, Term,
};
use vstd::prelude::*;

verus! {

/// Whether `target` occurs in the node: an atom contains itself, a group or an abstraction
/// whatever its body contains.
pub open spec fn node_contains(n: Node, target: Node) -> bool
    decreases n,
{
    match n {
        Node::Atom(_) => n == target,
        Node::Group(body) => term_contains(body, target),
        Node::Abstraction(body, _) => term_contains(body, target),
    }
}

/// Whether `target` occurs in one of the term's nodes.
pub open spec fn term_contains(t: Term, target: Node) -> bool
    decreases t,
{
    exists|i: int| 0 <= i < t.len() && node_contains(#[trigger] t[i], target)
}

/// Whether the node is an abstraction or a group that holds one. Abstractions inside the body
/// of an abstraction are not looked for: the outer one already answers the question.
pub open spec fn node_has_abstraction(n: Node) -> bool
    decreases n,
{
    match n {
        Node::Atom(_) => false,
        Node::Group(body) => term_has_abstraction(body),
        Node::Abstraction(_, _) => true,
    }
}

/// Whether an abstraction can be reached in the term through groups.
pub open spec fn term_has_abstraction(t: Term) -> bool
    decreases t,
{
    exists|i: int| 0 <= i < t.len() && node_has_abstraction(#[trigger] t[i])
}

/// The bodies from which the elimination rule can take the variable `v`: not empty, and
/// where a single node, then an atom or a group without `v` in it. A single nested
/// abstraction is not covered, and neither is a single group that holds `v`: the rule for
/// one node would take it for a constant.
pub open spec fn rule_defined(body: Term, v: Seq<char>) -> bool {
    &&& body.len() >= 1
    &&& body.len() == 1 ==> {
        ||| body[0] is Atom
        ||| body[0] is Group && !node_contains(body[0], Node::Atom(v))
    }
}

/// `[f]_v` for a single element: `I` when `f` is the variable itself, `K f` otherwise.
pub open spec fn abstract_single(f: Node, v: Seq<char>) -> Node {
    if f == Node::Atom(v) {
        symbol('I')
    } else {
        Node::Group(seq![symbol('K'), f])
    }
}

/// `[prefix last]_v` for an application, by which of the two halves holds the variable.
/// The first case that matches decides:
/// both halves give `S [prefix]_v [last]_v`; the prefix alone gives `C [prefix]_v last`;
/// a bare `v` after a prefix without it contracts to the prefix;
/// the last element alone gives `B (prefix) [last]_v`; neither gives `K (prefix last)`.
pub open spec fn abstract_application(prefix: Term, last: Node, v: Seq<char>) -> Node {
    let in_prefix = term_contains(prefix, Node::Atom(v));
    let in_last = node_contains(last, Node::Atom(v));
    if in_prefix && in_last {
        Node::Group(
            seq![symbol('S'), Node::Abstraction(prefix, v), Node::Abstraction(seq![last], v)],
        )
    } else if in_prefix {
        Node::Group(seq![symbol('C'), Node::Abstraction(prefix, v), last])
    } else if last == Node::Atom(v) {
        Node::Group(prefix)
    } else if in_last {
        Node::Group(seq![symbol('B'), Node::Group(prefix), Node::Abstraction(seq![last], v)])
    } else {
        Node::Group(seq![symbol('K'), Node::Group(prefix.push(last))])
    }
}

/// What one application of the elimination rule puts in the place of `Abstraction(body, v)`.
pub open spec fn abstract_rule(body: Term, v: Seq<char>) -> Node {
    if body.len() == 1 {
        abstract_single(body[0], v)
    } else {
        abstract_application(body.drop_last(), body.last(), v)
    }
}

/// Whether the rule covers every abstraction that one substitution step meets in the node.
pub open spec fn node_step_defined(n: Node) -> bool
    decreases n,
{
    match n {
        Node::Atom(_) => true,
        Node::Group(body) => step_defined(body),
        Node::Abstraction(body, v) => rule_defined(body, v),
    }
}

/// Whether the rule covers every abstraction that one substitution step meets in the term.
pub open spec fn step_defined(t: Term) -> bool
    decreases t,
{
    forall|i: int| 0 <= i < t.len() ==> node_step_defined(#[trigger] t[i])
}

/// One substitution step on a node: each abstraction reached through groups is replaced by
/// what the rule gives for it. The abstractions that the rule itself introduces are left for
/// the next step.
pub open spec fn step_node(n: Node) -> Node
    decreases n,
{
    match n {
        Node::Atom(_) => n,
        Node::Group(body) => Node::Group(step(body)),
        Node::Abstraction(body, v) => abstract_rule(body, v),
    }
}

/// One substitution step on every node of a term.
pub open spec fn step(t: Term) -> Term
    decreases t,
{
    Seq::new(
        t.len(),
        |i: int|
            if 0 <= i < t.len() {
                step_node(t[i])
            } else {
                t[i]
            },
    )
}

/// A term has height zero exactly when no abstraction can be reached in it.
pub proof fn lemma_height_zero(t: Term)
    ensures
        term_height(t) == 0 <==> !term_has_abstraction(t),
    decreases t, 1nat,
{
    lemma_height_covers(t);
    if term_has_abstraction(t) {
        let i = choose|i: int| 0 <= i < t.len() && node_has_abstraction(#[trigger] t[i]);
        lemma_node_height_zero(t[i]);
    } else {
        assert forall|i: int| 0 <= i < t.len() implies node_height(#[trigger] t[i]) <= 0 by {
            lemma_node_height_zero(t[i]);
        }
        lemma_height_bounded(t, 0);
    }
}

/// A node has height zero exactly when no abstraction can be reached in it.
pub proof fn lemma_node_height_zero(n: Node)
    ensures
        node_height(n) == 0 <==> !node_has_abstraction(n),
    decreases n, 0nat,
{
    match n {
        Node::Atom(_) => {},
        Node::Group(body) => lemma_height_zero(body),
        Node::Abstraction(_, _) => {},
    }
}

/// What the rule gives for an abstraction is lower than the abstraction was.
pub proof fn lemma_rule_height(body: Term, v: Seq<char>)
    requires
        rule_defined(body, v),
    ensures
        node_height(abstract_rule(body, v)) <= term_size(body),
{
    let result = abstract_rule(body, v);
    let bound = term_size(body);
    if body.len() == 1 {
        let f = body[0];
        assert(body =~= seq![f]);
        lemma_size_single(f);
        lemma_node_height_below_size(f);
        if f != Node::Atom(v) {
            let inner = seq![symbol('K'), f];
            assert forall|i: int| 0 <= i < inner.len() implies node_height(#[trigger] inner[i])
                <= bound by {}
            lemma_height_bounded(inner, bound);
        }
    } else {
        let prefix = body.drop_last();
        let last = body.last();
        assert(body =~= prefix.push(last));
        lemma_size_push(prefix, last);
        lemma_size_bounds(prefix);
        lemma_size_single(last);
        lemma_node_height_below_size(last);
        lemma_height_below_size(prefix);
        lemma_height_below_size(body);
        assert(result is Group);
        let inner = result->Group_0;
        if !term_contains(prefix, Node::Atom(v)) && last == Node::Atom(v) {
        } else {
            assert forall|i: int| 0 <= i < inner.len() implies node_height(#[trigger] inner[i])
                <= bound by {}
            lemma_height_bounded(inner, bound);
        }
    }
}

/// One substitution step lowers the height of a term in which abstractions are pending,
/// and leaves a term without them at height zero.
pub proof fn lemma_step_height(t: Term)
    requires
        step_defined(t),
    ensures
        term_height(t) > 0 ==> term_height(step(t)) < term_height(t),
        term_height(t) == 0 ==> term_height(step(t)) == 0,
    decreases t, 1nat,
{
    lemma_height_covers(t);
    let bound: nat = if term_height(t) > 0 {
        (term_height(t) - 1) as nat
    } else {
        0
    };
    assert forall|i: int| 0 <= i < step(t).len() implies node_height(#[trigger] step(t)[i])
        <= bound by {
        assert(node_step_defined(t[i]));
        lemma_node_step_height(t[i]);
    }
    lemma_height_bounded(step(t), bound);
}

/// One substitution step lowers the height of a node in which abstractions are pending,
/// and leaves a node without them at height zero.
pub proof fn lemma_node_step_height(n: Node)
    requires
        node_step_defined(n),
    ensures
        node_height(n) > 0 ==> node_height(step_node(n)) < node_height(n),
        node_height(n) == 0 ==> node_height(step_node(n)) == 0,
    decreases n, 0nat,
{
    match n {
        Node::Atom(_) => {},
        Node::Group(body) => lemma_step_height(body),
        Node::Abstraction(body, v) => lemma_rule_height(body, v),
    }
}

/// Rounds of canonicalising and one substitution step, until the canonical form holds no
/// abstraction: that form is the result. There is no result where a step meets an
/// abstraction that the rule does not cover.
pub open spec fn eliminate_abstractions(t: Term) -> Option<Term>
    decreases term_height(t),
{
    let tidy = canonicalize(t);
    if !term_has_abstraction(tidy) {
        Some(tidy)
    } else if !step_defined(tidy) {
        None
    } else {
        proof {
            lemma_canonicalize_height(t);
            lemma_height_zero(tidy);
            lemma_step_height(tidy);
        }
        eliminate_abstractions(step(tidy))
    }
}

/// A node as the elimination of a well-formed term meets it: the body of a group is
/// orderly, and the body of an abstraction is well-formed.
pub open spec fn node_orderly(n: Node) -> bool
    decreases n,
{
    match n {
        Node::Atom(_) => true,
        Node::Group(body) => orderly(body),
        Node::Abstraction(body, _) => well_formed(body),
    }
}

/// A term as the elimination of a well-formed term meets it: not empty, and orderly in
/// each of its nodes.
pub open spec fn orderly(t: Term) -> bool
    decreases t,
{
    t.len() > 0 && forall|i: int| 0 <= i < t.len() ==> node_orderly(#[trigger] t[i])
}

/// The well-formed terms are the orderly terms without abstractions.
pub proof fn lemma_well_formed_orderly(t: Term)
    ensures
        well_formed(t) <==> orderly(t) && !term_has_abstraction(t),
    decreases t, 1nat,
{
    assert forall|i: int| 0 <= i < t.len() implies (node_well_formed(#[trigger] t[i])
        <==> node_orderly(t[i]) && !node_has_abstraction(t[i])) by {
        lemma_node_well_formed_orderly(t[i]);
    }
    if orderly(t) && !term_has_abstraction(t) {
        assert forall|i: int| 0 <= i < t.len() implies node_well_formed(#[trigger] t[i]) by {
            assert(node_orderly(t[i]));
            assert(!node_has_abstraction(t[i]));
        }
    }
    if well_formed(t) {
        assert forall|i: int| 0 <= i < t.len() implies node_orderly(#[trigger] t[i])
            && !node_has_abstraction(t[i]) by {
            assert(node_well_formed(t[i]));
        }
    }
}

/// The well-formed nodes are the orderly nodes without abstractions.
pub proof fn lemma_node_well_formed_orderly(n: Node)
    ensures
        node_well_formed(n) <==> node_orderly(n) && !node_has_abstraction(n),
    decreases n, 0nat,
{
    match n {
        Node::Atom(_) => {},
        Node::Group(body) => lemma_well_formed_orderly(body),
        Node::Abstraction(_, _) => {},
    }
}

/// Canonicalising keeps an orderly term orderly.
pub proof fn lemma_regroup_orderly(t: Term)
    requires
        orderly(t),
    ensures
        orderly(regroup(t)),
    decreases t, 1nat,
{
    let spliced = splice_head(t);
    assert(node_orderly(t[0]));
    assert forall|i: int| 0 <= i < spliced.len() implies node_orderly(
        #[trigger] regroup(t)[i],
    ) by {
        let source = spliced[i];
        if t[0] is Group {
            let body = t[0]->Group_0;
            if i < body.len() {
                assert(source == body[i]);
                assert(node_orderly(body[i]));
            } else {
                assert(source == t[i - body.len() + 1]);
                assert(node_orderly(t[i - body.len() + 1]));
            }
        } else {
            assert(node_orderly(t[i]));
        }
        if source is Group && source->Group_0.len() == 1 {
            assert(node_orderly(source->Group_0[0]));
        }
        lemma_regroup_node_orderly(unwrap_single(source));
    }
}

/// Canonicalising keeps an orderly node orderly.
pub proof fn lemma_regroup_node_orderly(n: Node)
    requires
        node_orderly(n),
    ensures
        node_orderly(regroup_node(n)),
    decreases n, 0nat,
{
    match n {
        Node::Atom(_) => {},
        Node::Group(body) => lemma_regroup_orderly(body),
        Node::Abstraction(body, _) => lemma_regroup_well_formed(body),
    }
}

/// Passes keep an orderly term orderly.
pub proof fn lemma_regroup_times_orderly(t: Term, n: nat)
    requires
        orderly(t),
    ensures
        orderly(regroup_times(t, n)),
    decreases n,
{
    if n > 0 {
        lemma_regroup_times_orderly(t, (n - 1) as nat);
        lemma_regroup_orderly(regroup_times(t, (n - 1) as nat));
    }
}

/// The canonical form of an orderly term is orderly.
pub proof fn lemma_canonicalize_orderly(t: Term)
    requires
        orderly(t),
    ensures
        orderly(canonicalize(t)),
{
    lemma_regroup_times_orderly(t, term_size(t));
}

/// The rule covers a canonical, well-formed body, and what it gives is orderly.
pub proof fn lemma_rule_orderly(body: Term, v: Seq<char>)
    requires
        well_formed(body),
        canonical(body),
    ensures
        rule_defined(body, v),
        node_orderly(abstract_rule(body, v)),
{
    assert(node_well_formed(body[0]) && node_canonical(body[0]));
    if body.len() == 1 {
        lemma_node_well_formed_orderly(body[0]);
        let inner = seq![symbol('K'), body[0]];
        assert forall|i: int| 0 <= i < inner.len() implies node_orderly(#[trigger] inner[i]) by {}
    } else {
        let prefix = body.drop_last();
        let last = body.last();
        assert(node_well_formed(last));
        lemma_node_well_formed_orderly(last);
        assert forall|i: int| 0 <= i < prefix.len() implies node_well_formed(
            #[trigger] prefix[i],
        ) by {
            assert(node_well_formed(body[i]));
        }
        assert(well_formed(prefix));
        lemma_well_formed_orderly(prefix);
        assert(well_formed(seq![last])) by {
            let single = seq![last];
            assert forall|i: int| 0 <= i < 1 implies node_well_formed(#[trigger] single[i]) by {}
        }
        assert(prefix.push(last) =~= body);
        lemma_well_formed_orderly(body);
        let result = abstract_rule(body, v);
        assert(result is Group);
        let inner = result->Group_0;
        if !term_contains(prefix, Node::Atom(v)) && last == Node::Atom(v) {
        } else {
            assert forall|i: int| 0 <= i < inner.len() implies node_orderly(
                #[trigger] inner[i],
            ) by {
                if !term_contains(prefix, Node::Atom(v)) && !node_contains(last, Node::Atom(v)) {
                    if i == 1 {
                        assert(inner[1] == Node::Group(body));
                    }
                }
            }
        }
    }
}

/// A substitution step covers a canonical, orderly term, and leaves it orderly.
pub proof fn lemma_step_orderly(t: Term)
    requires
        orderly(t),
        canonical(t),
    ensures
        step_defined(t),
        orderly(step(t)),
    decreases t, 1nat,
{
    assert forall|i: int| 0 <= i < t.len() implies node_step_defined(#[trigger] t[i])
        && node_orderly(step(t)[i]) by {
        assert(node_orderly(t[i]) && node_canonical(t[i]));
        lemma_node_step_orderly(t[i]);
    }
}

/// A substitution step covers a canonical, orderly node, and leaves it orderly.
pub proof fn lemma_node_step_orderly(n: Node)
    requires
        node_orderly(n),
        node_canonical(n),
    ensures
        node_step_defined(n),
        node_orderly(step_node(n)),
    decreases n, 0nat,
{
    match n {
        Node::Atom(_) => {},
        Node::Group(body) => lemma_step_orderly(body),
        Node::Abstraction(body, v) => lemma_rule_orderly(body, v),
    }
}

/// Whatever the elimination of abstractions results in is canonical and holds no
/// abstraction.
pub proof fn lemma_eliminated_abstraction_free(t: Term)
    ensures
        eliminate_abstractions(t) matches Some(result) ==> canonical(result)
            && !term_has_abstraction(result),
    decreases term_height(t),
{
    let tidy = canonicalize(t);
    lemma_canonicalize_canonical(t);
    if term_has_abstraction(tidy) && step_defined(tidy) {
        lemma_canonicalize_height(t);
        lemma_height_zero(tidy);
        lemma_step_height(tidy);
        lemma_eliminated_abstraction_free(step(tidy));
    }
}

/// The elimination of abstractions has a result on every orderly term, and the result is
/// well-formed.
pub proof fn lemma_eliminate_orderly(t: Term)
    requires
        orderly(t),
    ensures
        eliminate_abstractions(t) is Some,
        well_formed(eliminate_abstractions(t)->0),
    decreases term_height(t),
{
    let tidy = canonicalize(t);
    lemma_canonicalize_canonical(t);
    lemma_canonicalize_orderly(t);
    if term_has_abstraction(tidy) {
        lemma_step_orderly(tidy);
        lemma_canonicalize_height(t);
        lemma_height_zero(tidy);
        lemma_step_height(tidy);
        lemma_eliminate_orderly(step(tidy));
    } else {
        lemma_well_formed_orderly(tidy);
    }
}

/// A copy of the first `count` elements of an expression.
pub(crate) fn leading(expression: &Expression, count: usize) -> (res: Expression)
    requires
        count <= expression@.len(),
    ensures
        res@ == expression@.subrange(0, count as int),
{
    let mut elements: Vec<Element> = Vec::new();
    let mut i: usize = 0;
    while i < count
        invariant
            i <= count <= expression.0.len(),
            expression@.len() == expression.0.len(),
            elements.len() == i,
            forall|j: int| 0 <= j < i ==> elements[j]@ == expression@[j],
        decreases count - i,
    {
        elements.push(expression.0[i].clone());
        i += 1;
    }
    let res = Expression(elements);
    assert(res@ =~= expression@.subrange(0, count as int));
    res
}

/// Applies the elimination rule to the abstraction of `variable` over `body`.
/// There is no result where the rule does not cover the body.
pub fn abstraction_rule(body: &Expression, variable: &String) -> (res: Option<Element>)
    ensures
        res is Some <==> rule_defined(body@, variable@),
        res is Some ==> res->0@ == abstract_rule(body@, variable@),
{
    let count = body.0.len();
    assert(body@.len() == count);
    if count == 0 {
        return None;
    }
    let target = Element::Item(variable.clone());
    if count == 1 {
        let only = &body.0[0];
        assert(body@[0] == only@);
        match only {
            Element::Item(_) => {
                if *only == target {
                    Some(item_i())
                } else {
                    Some(Element::group_of_two(item_k(), only.clone()))
                }
            },
            Element::SubExpression(_) => {
                if only.contains(&target) {
                    None
                } else {
                    Some(Element::group_of_two(item_k(), only.clone()))
                }
            },
            Element::Abstraction(_, _) => None,
        }
    } else {
        let prefix = leading(body, count - 1);
        let last = &body.0[count - 1];
        assert(body@.last() == last@);
        assert(prefix@ == body@.drop_last());
        let in_prefix = prefix.contains(&target);
        let in_last = last.contains(&target);
        if in_prefix && in_last {
            Some(
                Element::group_of_three(
                    item_s(),
                    Element::Abstraction(prefix, variable.clone()),
                    Element::Abstraction(Expression::of_one(last.clone()), variable.clone()),
                ),
            )
        } else if in_prefix {
            Some(
                Element::group_of_three(
                    item_c(),
                    Element::Abstraction(prefix, variable.clone()),
                    last.clone(),
                ),
            )
        } else if *last == target {
            Some(Element::SubExpression(prefix))
        } else if in_last {
            Some(
                Element::group_of_three(
                    item_b(),
                    Element::SubExpression(prefix),
                    Element::Abstraction(Expression::of_one(last.clone()), variable.clone()),
                ),
            )
        } else {
            let whole = body.clone();
            assert(whole@ =~= body@.drop_last().push(body@.last()));
            Some(Element::group_of_two(item_k(), Element::SubExpression(whole)))
        }
    }
}

/// One substitution step on an element, as a new element.
/// There is no result where the rule does not cover an abstraction that the step meets.
pub fn substituted_element(element: &Element) -> (res: Option<Element>)
    ensures
        res is Some <==> node_step_defined(element@),
        res is Some ==> res->0@ == step_node(element@),
    decreases element,
{
    match element {
        Element::Item(name) => Some(Element::Item(name.clone())),
        Element::SubExpression(body) => match substituted_expression(body) {
            Some(next) => Some(Element::SubExpression(next)),
            None => None,
        },
        Element::Abstraction(body, variable) => abstraction_rule(body, variable),
    }
}

/// One substitution step on an expression, as a new expression.
/// There is no result where the rule does not cover an abstraction that the step meets.
pub fn substituted_expression(expression: &Expression) -> (res: Option<Expression>)
    ensures
        res is Some <==> step_defined(expression@),
        res is Some ==> res->0@ == step(expression@),
    decreases expression,
{
    let mut elements: Vec<Element> = Vec::new();
    let mut i: usize = 0;
    while i < expression.0.len()
        invariant
            i <= expression.0.len(),
            expression@.len() == expression.0.len(),
            elements.len() == i,
            forall|j: int| 0 <= j < i ==> node_step_defined(expression@[j]),
            forall|j: int| 0 <= j < i ==> elements[j]@ == step_node(expression@[j]),
        decreases expression.0.len() - i,
    {
        match substituted_element(&expression.0[i]) {
            Some(next) => {
                elements.push(next);
            },
            None => {
                assert(!node_step_defined(expression@[i as int]));
                return None;
            },
        }
        i += 1;
    }
    let res = Expression(elements);
    assert(res@ =~= step(expression@));
    Some(res)
}

/// Rewrites the pending abstractions of an expression until none is left, canonicalising
/// before every substitution step and at the end. There is no result where the rule fails
/// to cover an abstraction on the way.
pub fn eliminated_expression(expression: &Expression) -> (res: Option<Expression>)
    ensures
        res is Some <==> eliminate_abstractions(expression@) is Some,
        res is Some ==> res->0@ == eliminate_abstractions(expression@)->0,
{
    let mut current = expression.clone();
    loop
        invariant
            eliminate_abstractions(current@) == eliminate_abstractions(expression@),
        decreases term_height(current@),
    {
        let tidy = canonical_expression(&current);
        if !tidy.contains_abstraction() {
            return Some(tidy);
        }
        match substituted_expression(&tidy) {
            Some(next) => {
                proof {
                    lemma_canonicalize_height(current@);
                    lemma_height_zero(tidy@);
                    lemma_step_height(tidy@);
                }
                current = next;
            },
            None => {
                return None;
            },
        }
    }
}

} // verus!
