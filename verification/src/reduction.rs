//! Reduction: the rewrite rules of `S`, `K`, `I`, `B` and `C`, the rewriting pass, and
//! reduction to normal form on a budget of passes.

use crate::canonical::{
    canonical, canonical_expression, canonicalize, lemma_canonicalize_canonical,
    lemma_canonicalize_unchanged, node_canonical,
};
use crate::error::CombinatorError;
use crate::term::{lemma_symbols_differ, symbol, Element, Expression, Node, Term};
use vstd::prelude::*;

verus! {

/// The rewrite at the head of a term, where the head is a primitive combinator with
/// enough arguments after it:
/// `I x` gives `x`; `K x y` gives `x`; `S x y z` gives `x z (y z)`;
/// `B f g x` gives `f (g x)`; `C f x y` gives `f y x`.
/// The head and its arguments are consumed, and what follows them stays in place.
pub open spec fn head_rewrite(t: Term) -> Option<Term> {
    if t.len() >= 2 && t[0] == symbol('I') {
        Some(t.subrange(1, t.len() as int))
    } else if t.len() >= 3 && t[0] == symbol('K') {
        Some(seq![t[1]] + t.subrange(3, t.len() as int))
    } else if t.len() >= 4 && t[0] == symbol('S') {
        Some(seq![t[1], t[3], Node::Group(seq![t[2], t[3]])] + t.subrange(4, t.len() as int))
    } else if t.len() >= 4 && t[0] == symbol('B') {
        Some(seq![t[1], Node::Group(seq![t[2], t[3]])] + t.subrange(4, t.len() as int))
    } else if t.len() >= 4 && t[0] == symbol('C') {
        Some(seq![t[1], t[3], t[2]] + t.subrange(4, t.len() as int))
    } else {
        None
    }
}

/// Whether a rewriting pass changes the term: a rule applies at its head, or, where none
/// does, inside one of its groups.
pub open spec fn fires(t: Term) -> bool
    decreases t,
{
    head_rewrite(t) is Some || exists|i: int| 0 <= i < t.len() && node_fires(#[trigger] t[i])
}

/// Whether a rewriting pass changes the body of the group.
pub open spec fn node_fires(n: Node) -> bool
    decreases n,
{
    match n {
        Node::Group(body) => fires(body),
        _ => false,
    }
}

/// Whether a rewriting pass meets an abstraction: no rule applies at the head of the term,
/// and the descent into its elements finds one.
pub open spec fn blocked(t: Term) -> bool
    decreases t,
{
    head_rewrite(t) is None && exists|i: int| 0 <= i < t.len() && node_blocked(#[trigger] t[i])
}

/// Whether the node is an abstraction, or a group in whose body a pass meets one.
pub open spec fn node_blocked(n: Node) -> bool
    decreases n,
{
    match n {
        Node::Atom(_) => false,
        Node::Group(body) => blocked(body),
        Node::Abstraction(_, _) => true,
    }
}

/// One rewriting pass: the rewrite at the head where a rule applies there, and otherwise
/// a pass over the body of every group.
pub open spec fn rewrite(t: Term) -> Term
    decreases t,
{
    match head_rewrite(t) {
        Some(next) => next,
        None => Seq::new(
            t.len(),
            |i: int|
                if 0 <= i < t.len() {
                    rewrite_node(t[i])
                } else {
                    t[i]
                },
        ),
    }
}

/// One rewriting pass over the body of a group; other nodes stay as they are.
pub open spec fn rewrite_node(n: Node) -> Node
    decreases n,
{
    match n {
        Node::Group(body) => Node::Group(rewrite(body)),
        _ => n,
    }
}

/// Drives a term towards normal form with at most `fuel` rewriting passes.
/// Each round brings the term to canonical form and then makes one pass. A pass that
/// meets an abstraction is a violation; a pass that changes nothing ends the work, and
/// the canonical form is the result; a pass that would change the term when no fuel is
/// left ends it without a result.
pub open spec fn normalize(t: Term, fuel: nat) -> Result<Term, CombinatorError>
    decreases fuel,
{
    let tidy = canonicalize(t);
    if blocked(tidy) {
        Err(CombinatorError::InvariantViolation)
    } else if !fires(tidy) {
        Ok(tidy)
    } else if fuel == 0 {
        Err(CombinatorError::OutOfFuel)
    } else {
        normalize(rewrite(tidy), (fuel - 1) as nat)
    }
}

/// A term made of atoms alone has canonical grouping, and a pass over it can only rewrite
/// at its head.
pub proof fn lemma_atoms_only(t: Term)
    requires
        forall|i: int| 0 <= i < t.len() ==> #[trigger] t[i] is Atom,
    ensures
        canonicalize(t) == t,
        !blocked(t),
        fires(t) <==> head_rewrite(t) is Some,
{
    assert forall|i: int| 0 <= i < t.len() implies node_canonical(#[trigger] t[i]) by {
        assert(t[i] is Atom);
    }
    if t.len() > 0 {
        assert(t[0] is Atom);
    }
    lemma_canonicalize_unchanged(t);
    assert forall|i: int| 0 <= i < t.len() implies !node_blocked(#[trigger] t[i])
        && !node_fires(t[i]) by {
        assert(t[i] is Atom);
    }
}

/// A single atom is in normal form.
pub proof fn lemma_atom_normal(x: Seq<char>, fuel: nat)
    ensures
        normalize(seq![Node::Atom(x)], fuel) == Ok::<Term, CombinatorError>(seq![Node::Atom(x)]),
{
    lemma_atoms_only(seq![Node::Atom(x)]);
}

/// `I x` reduces to `x`, for every atom `x`.
pub proof fn lemma_identity(x: Seq<char>, fuel: nat)
    requires
        fuel >= 1,
    ensures
        normalize(seq![symbol('I'), Node::Atom(x)], fuel) == Ok::<Term, CombinatorError>(
            seq![Node::Atom(x)],
        ),
{
    let t = seq![symbol('I'), Node::Atom(x)];
    lemma_atoms_only(t);
    assert(head_rewrite(t) == Some(seq![Node::Atom(x)])) by {
        assert(t.subrange(1, 2) =~= seq![Node::Atom(x)]);
    }
    lemma_atoms_only(seq![Node::Atom(x)]);
    lemma_atom_normal(x, (fuel - 1) as nat);
}

/// `K x y` reduces to `x`, for all atoms `x` and `y`.
pub proof fn lemma_constant(x: Seq<char>, y: Seq<char>, fuel: nat)
    requires
        fuel >= 1,
    ensures
        normalize(seq![symbol('K'), Node::Atom(x), Node::Atom(y)], fuel) == Ok::<
            Term,
            CombinatorError,
        >(seq![Node::Atom(x)]),
{
    let t = seq![symbol('K'), Node::Atom(x), Node::Atom(y)];
    lemma_atoms_only(t);
    assert(head_rewrite(t) == Some(seq![Node::Atom(x)])) by {
        lemma_symbols_differ('K', 'I');
        assert(seq![t[1]] + t.subrange(3, 3) =~= seq![Node::Atom(x)]);
    }
    lemma_atoms_only(seq![Node::Atom(x)]);
    lemma_atom_normal(x, (fuel - 1) as nat);
}

/// `S K K x` reduces to `x`, for every atom `x`: `S K K` is the identity.
pub proof fn lemma_skk_identity(x: Seq<char>, fuel: nat)
    requires
        fuel >= 2,
    ensures
        normalize(seq![symbol('S'), symbol('K'), symbol('K'), Node::Atom(x)], fuel) == Ok::<
            Term,
            CombinatorError,
        >(seq![Node::Atom(x)]),
{
    let t = seq![symbol('S'), symbol('K'), symbol('K'), Node::Atom(x)];
    let copy = Node::Group(seq![symbol('K'), Node::Atom(x)]);
    let u = seq![symbol('K'), Node::Atom(x), copy];
    lemma_atoms_only(t);
    assert(head_rewrite(t) == Some(u)) by {
        lemma_symbols_differ('S', 'I');
        lemma_symbols_differ('S', 'K');
        assert(seq![t[1], t[3], Node::Group(seq![t[2], t[3]])] + t.subrange(4, 4) =~= u);
    }
    assert(canonicalize(u) == u) by {
        let inner = seq![symbol('K'), Node::Atom(x)];
        assert(canonical(inner)) by {
            assert forall|i: int| 0 <= i < inner.len() implies node_canonical(
                #[trigger] inner[i],
            ) by {}
        }
        assert forall|i: int| 0 <= i < u.len() implies node_canonical(#[trigger] u[i]) by {}
        lemma_canonicalize_unchanged(u);
    }
    assert(head_rewrite(u) == Some(seq![Node::Atom(x)])) by {
        lemma_symbols_differ('K', 'I');
        assert(seq![u[1]] + u.subrange(3, 3) =~= seq![Node::Atom(x)]);
    }
    assert(fires(u));
    assert(!blocked(u));
    lemma_atoms_only(seq![Node::Atom(x)]);
    lemma_atom_normal(x, (fuel - 2) as nat);
    assert(normalize(u, (fuel - 1) as nat) == Ok::<Term, CombinatorError>(seq![Node::Atom(x)]));
}

/// What reduction gives is a normal form: it has canonical grouping, no rewrite rule
/// applies at the head of it or of any group in it, and reduction gives it back as it
/// is, on no fuel at all.
pub proof fn lemma_normalize_stable(t: Term, fuel: nat)
    ensures
        normalize(t, fuel) matches Ok(result) ==> canonical(result) && !fires(result)
            && !blocked(result) && normalize(result, 0) == Ok::<Term, CombinatorError>(result),
    decreases fuel,
{
    let tidy = canonicalize(t);
    lemma_canonicalize_canonical(t);
    lemma_canonicalize_unchanged(tidy);
    if !blocked(tidy) && fires(tidy) && fuel > 0 {
        lemma_normalize_stable(rewrite(tidy), (fuel - 1) as nat);
    }
}

/// More fuel never changes a result: what reduction gives on some fuel, it gives on
/// every larger fuel too.
pub proof fn lemma_normalize_more_fuel(t: Term, fuel: nat, more: nat)
    requires
        fuel <= more,
        normalize(t, fuel) != Err::<Term, CombinatorError>(CombinatorError::OutOfFuel),
    ensures
        normalize(t, more) == normalize(t, fuel),
    decreases fuel,
{
    let tidy = canonicalize(t);
    if !blocked(tidy) && fires(tidy) && fuel > 0 {
        lemma_normalize_more_fuel(
            rewrite(tidy),
            (fuel - 1) as nat,
            (more - 1) as nat,
        );
    }
}

/// Whether the element is the atom named by the single character `c`.
pub fn is_symbol(element: &Element, c: char) -> (res: bool)
    ensures
        res == (element@ == symbol(c)),
{
    match element {
        Element::Item(name) => {
            let text = name.as_str();
            if text.unicode_len() == 1 {
                let found = text.get_char(0);
                assert(found == c ==> name@ =~= seq![c]);
                found == c
            } else {
                false
            }
        },
        _ => false,
    }
}

/// The rewrite at the head of an expression, as a new expression, where a rule applies.
pub fn head_rewritten(expression: &Expression) -> (res: Option<Expression>)
    ensures
        res is Some <==> head_rewrite(expression@) is Some,
        res is Some ==> res->0@ == head_rewrite(expression@)->0,
{
    let count = expression.0.len();
    assert(expression@.len() == count);
    if count < 2 {
        return None;
    }
    let head = &expression.0[0];
    assert(expression@[0] == head@);
    assert(expression@[1] == expression.0[1]@);
    if is_symbol(head, 'I') {
        let front = Expression(Vec::new());
        assert(front@ =~= Seq::<Node>::empty());
        let res = front.followed_by(expression, 1);
        assert(res@ =~= expression@.subrange(1, count as int));
        return Some(res);
    }
    if count < 3 {
        return None;
    }
    assert(expression@[2] == expression.0[2]@);
    if is_symbol(head, 'K') {
        let front = Expression::of_one(expression.0[1].clone());
        return Some(front.followed_by(expression, 3));
    }
    if count < 4 {
        return None;
    }
    assert(expression@[3] == expression.0[3]@);
    if is_symbol(head, 'S') {
        let front = Expression::of_three(
            expression.0[1].clone(),
            expression.0[3].clone(),
            Element::group_of_two(expression.0[2].clone(), expression.0[3].clone()),
        );
        Some(front.followed_by(expression, 4))
    } else if is_symbol(head, 'B') {
        let front = Expression::of_two(
            expression.0[1].clone(),
            Element::group_of_two(expression.0[2].clone(), expression.0[3].clone()),
        );
        Some(front.followed_by(expression, 4))
    } else if is_symbol(head, 'C') {
        let front = Expression::of_three(
            expression.0[1].clone(),
            expression.0[3].clone(),
            expression.0[2].clone(),
        );
        Some(front.followed_by(expression, 4))
    } else {
        None
    }
}

/// One rewriting pass over an element: the new element, and whether anything changed.
/// There is no result where the pass meets an abstraction.
pub fn rewritten_element(element: &Element) -> (res: Option<(Element, bool)>)
    ensures
        res is None <==> node_blocked(element@),
        res matches Some((next, fired)) ==> next@ == rewrite_node(element@) && fired == node_fires(
            element@,
        ),
    decreases element,
{
    match element {
        Element::Item(name) => Some((Element::Item(name.clone()), false)),
        Element::SubExpression(body) => match rewritten_expression(body) {
            Some((next, fired)) => Some((Element::SubExpression(next), fired)),
            None => None,
        },
        Element::Abstraction(_, _) => None,
    }
}

/// One rewriting pass over an expression: the new expression, and whether anything changed.
/// There is no result where the pass meets an abstraction.
pub fn rewritten_expression(expression: &Expression) -> (res: Option<(Expression, bool)>)
    ensures
        res is None <==> blocked(expression@),
        res matches Some((next, fired)) ==> next@ == rewrite(expression@) && fired == fires(
            expression@,
        ),
    decreases expression,
{
    match head_rewritten(expression) {
        Some(next) => Some((next, true)),
        None => {
            let mut elements: Vec<Element> = Vec::new();
            let mut fired = false;
            let mut i: usize = 0;
            while i < expression.0.len()
                invariant
                    i <= expression.0.len(),
                    expression@.len() == expression.0.len(),
                    head_rewrite(expression@) is None,
                    elements.len() == i,
                    forall|j: int| 0 <= j < i ==> !node_blocked(expression@[j]),
                    forall|j: int| 0 <= j < i ==> elements[j]@ == rewrite_node(expression@[j]),
                    fired ==> fires(expression@),
                    !fired ==> forall|j: int| 0 <= j < i ==> !node_fires(expression@[j]),
                decreases expression.0.len() - i,
            {
                match rewritten_element(&expression.0[i]) {
                    Some((next, changed)) => {
                        assert(changed == node_fires(expression@[i as int]));
                        elements.push(next);
                        fired = fired || changed;
                    },
                    None => {
                        assert(node_blocked(expression@[i as int]));
                        return None;
                    },
                }
                i += 1;
            }
            let res = Expression(elements);
            assert(res@ =~= rewrite(expression@));
            Some((res, fired))
        },
    }
}

/// Drives an expression towards normal form with at most `fuel` rewriting passes,
/// and gives the normal form as a new expression.
pub fn normalized_expression(expression: &Expression, fuel: u64) -> (res: Result<
    Expression,
    CombinatorError,
>)
    ensures
        match normalize(expression@, fuel as nat) {
            Ok(normal) => res is Ok && res->Ok_0@ == normal,
            Err(error) => res == Err::<Expression, CombinatorError>(error),
        },
        res matches Ok(normal) ==> canonical(normal@) && !fires(normal@),
{
    proof {
        lemma_normalize_stable(expression@, fuel as nat);
    }
    let mut current = expression.clone();
    let mut left = fuel;
    loop
        invariant
            normalize(current@, left as nat) == normalize(expression@, fuel as nat),
        decreases left,
    {
        let tidy = canonical_expression(&current);
        match rewritten_expression(&tidy) {
            None => {
                return Err(CombinatorError::InvariantViolation);
            },
            Some((next, fired)) => {
                if !fired {
                    return Ok(tidy);
                }
                if left == 0 {
                    return Err(CombinatorError::OutOfFuel);
                }
                current = next;
                left = left - 1;
            },
        }
    }
}

impl Expression {
    /// This expression applied to the arguments, reduced to normal form with at most
    /// `fuel` rewriting passes.
    pub fn apply(&self, args: Expression, fuel: u64) -> (res: Result<Expression, CombinatorError>)
        ensures
            match normalize(self@ + args@, fuel as nat) {
                Ok(normal) => res is Ok && res->Ok_0@ == normal,
                Err(error) => res is Err && res->Err_0 == error,
            },
    {
        let applied = self.clone().followed_by(&args, 0);
        assert(args@.subrange(0, args@.len() as int) =~= args@);
        normalized_expression(&applied, fuel)
    }
}

} // verus!
