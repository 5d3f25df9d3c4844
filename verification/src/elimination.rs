//! The operations of the library as one trait, on elements, expressions and definitions.

use crate::bracket::{
    node_contains, node_has_abstraction, node_step_defined, step, step_defined, step_node,
    substituted_element, substituted_expression, term_contains, term_has_abstraction,
};
use crate::canonical::{
    canonical, canonical_element, canonical_expression, canonicalize, canonicalize_node,
    lemma_canonicalize_node_canonical, lemma_canonicalize_unchanged, node_canonical,
};
use crate::combinator::{Combinator, Definition};
use crate::context::{
    context_substituted_element, context_substituted_expression, substitute, substitute_node,
    CombinatorContext,
};
use crate::error::CombinatorError;
use crate::reduction::{normalize, normalized_expression};
use crate::term::{Element, Expression, Node, Term};
use vstd::prelude::*;

verus! {

/// The operations of bracket abstraction and reduction, on elements, expressions and
/// definitions alike. The contracts speak of what a value stands for: of its model.
pub trait AbstractionElimination: Sized {
    /// What a value stands for: a node, a term, or a definition.
    type Model;

    /// What this value stands for.
    spec fn model(&self) -> Self::Model;

    /// Whether the variable occurs in the model.
    spec fn model_contains(model: Self::Model, variable: Node) -> bool;

    /// Whether an abstraction is pending in the model.
    spec fn model_pending(model: Self::Model) -> bool;

    /// One substitution step on the model, where the rule covers what the step meets.
    spec fn model_step(model: Self::Model) -> Option<Self::Model>;

    /// The canonical form of the model.
    spec fn model_canonical(model: Self::Model) -> Self::Model;

    /// Whether the model has canonical grouping.
    spec fn model_is_canonical(model: Self::Model) -> bool;

    /// The normal form of the model, where reduction on that fuel has a result.
    spec fn model_normal(model: Self::Model, fuel: nat) -> Result<Self::Model, CombinatorError>;

    /// The model with the defined names substituted, where it holds no abstraction.
    spec fn model_substituted(model: Self::Model, definitions: Seq<Definition>) -> Option<
        Self::Model,
    >;

    /// Whether the variable occurs anywhere inside.
    fn contains(&self, variable: &Element) -> (res: bool)
        ensures
            res == Self::model_contains(self.model(), variable@),
    ;

    /// Whether an abstraction is still pending.
    fn contains_abstraction(&self) -> (res: bool)
        ensures
            res == Self::model_pending(self.model()),
    ;

    /// One step of the elimination rule on every pending abstraction. Where the rule
    /// does not cover one of them, the value is left as it was.
    fn abstraction_substitution(&mut self) -> (res: Result<(), CombinatorError>)
        ensures
            match Self::model_step(old(self).model()) {
                Some(next) => res is Ok && final(self).model() == next,
                None => res is Err && res->Err_0 == CombinatorError::InvariantViolation
                    && final(self).model() == old(self).model(),
            },
    ;

    /// Brings the grouping to canonical form: no term begins with a group, and no group
    /// wraps a single element. A value that has canonical grouping is left as it is, so
    /// that a second call changes nothing.
    fn reduce_parens(&mut self)
        ensures
            final(self).model() == Self::model_canonical(old(self).model()),
            Self::model_is_canonical(final(self).model()),
            Self::model_is_canonical(old(self).model()) ==> final(self).model() == old(
                self,
            ).model(),
    ;

    /// Reduction to normal form, with at most `fuel` rewriting passes. Where there is no
    /// result, the value is left as it was.
    fn reduce_expression(&mut self, fuel: u64) -> (res: Result<(), CombinatorError>)
        ensures
            match Self::model_normal(old(self).model(), fuel as nat) {
                Ok(normal) => res is Ok && final(self).model() == normal,
                Err(error) => res is Err && res->Err_0 == error && final(self).model()
                    == old(self).model(),
            },
    ;

    /// Substitution of the names that the context defines. A value that holds an
    /// abstraction is left as it was.
    fn context_substitution(&mut self, context: &CombinatorContext) -> (res: Result<
        (),
        CombinatorError,
    >)
        ensures
            match Self::model_substituted(old(self).model(), context@) {
                Some(next) => res is Ok && final(self).model() == next,
                None => res is Err && res->Err_0 == CombinatorError::InvariantViolation
                    && final(self).model() == old(self).model(),
            },
    ;
}

/// Reduction of a node: of the body of a group. An atom is in normal form, and an
/// abstraction is a violation.
pub open spec fn normalize_node(n: Node, fuel: nat) -> Result<Node, CombinatorError> {
    match n {
        Node::Atom(_) => Ok(n),
        Node::Group(body) => match normalize(body, fuel) {
            Ok(normal) => Ok(Node::Group(normal)),
            Err(error) => Err(error),
        },
        Node::Abstraction(_, _) => Err(CombinatorError::InvariantViolation),
    }
}

impl AbstractionElimination for Element {
    type Model = Node;

    open spec fn model(&self) -> Node {
        self@
    }

    open spec fn model_contains(model: Node, variable: Node) -> bool {
        node_contains(model, variable)
    }

    open spec fn model_pending(model: Node) -> bool {
        node_has_abstraction(model)
    }

    open spec fn model_step(model: Node) -> Option<Node> {
        if node_step_defined(model) {
            Some(step_node(model))
        } else {
            None
        }
    }

    open spec fn model_canonical(model: Node) -> Node {
        canonicalize_node(model)
    }

    open spec fn model_is_canonical(model: Node) -> bool {
        node_canonical(model)
    }

    open spec fn model_normal(model: Node, fuel: nat) -> Result<Node, CombinatorError> {
        normalize_node(model, fuel)
    }

    open spec fn model_substituted(model: Node, definitions: Seq<Definition>) -> Option<Node> {
        if node_has_abstraction(model) {
            None
        } else {
            Some(substitute_node(model, definitions))
        }
    }

    /// Whether the variable occurs in the element: an item contains itself alone.
    fn contains(&self, variable: &Element) -> (res: bool)
        decreases self,
    {
        match self {
            Element::Item(_) => *self == *variable,
            Element::SubExpression(body) => body.contains(variable),
            Element::Abstraction(body, _) => body.contains(variable),
        }
    }

    /// Whether the element is an abstraction, or a sub-expression that holds one.
    fn contains_abstraction(&self) -> (res: bool)
        decreases self,
    {
        match self {
            Element::Item(_) => false,
            Element::SubExpression(body) => body.contains_abstraction(),
            Element::Abstraction(_, _) => true,
        }
    }

    /// Replaces each abstraction that can be reached through groups by what the
    /// elimination rule gives for it. Where the rule does not cover one of them, the
    /// element is left as it was.
    fn abstraction_substitution(&mut self) -> (res: Result<(), CombinatorError>) {
        match substituted_element(self) {
            Some(next) => {
                *self = next;
                Ok(())
            },
            None => Err(CombinatorError::InvariantViolation),
        }
    }

    /// Brings the body of a group or of an abstraction to canonical form. A group whose
    /// canonical body is a single element gives way to that element.
    fn reduce_parens(&mut self) {
        proof {
            lemma_canonicalize_node_canonical(self@);
        }
        let next = canonical_element(self);
        *self = next;
    }

    /// Reduces the body of a group. An atom stays as it is. On an abstraction, and where
    /// the body has no result, the element is left as it was.
    fn reduce_expression(&mut self, fuel: u64) -> (res: Result<(), CombinatorError>) {
        match self {
            Element::Item(_) => Ok(()),
            Element::SubExpression(body) => match normalized_expression(body, fuel) {
                Ok(normal) => {
                    *self = Element::SubExpression(normal);
                    Ok(())
                },
                Err(error) => Err(error),
            },
            Element::Abstraction(_, _) => Err(CombinatorError::InvariantViolation),
        }
    }

    /// Puts the registered body in the place of an item with a registered name, and
    /// substitutes inside a sub-expression. An element that holds an abstraction is
    /// left as it was.
    fn context_substitution(&mut self, context: &CombinatorContext) -> (res: Result<
        (),
        CombinatorError,
    >) {
        match context_substituted_element(self, context) {
            Some(next) => {
                *self = next;
                Ok(())
            },
            None => Err(CombinatorError::InvariantViolation),
        }
    }
}

impl AbstractionElimination for Expression {
    type Model = Term;

    open spec fn model(&self) -> Term {
        self@
    }

    open spec fn model_contains(model: Term, variable: Node) -> bool {
        term_contains(model, variable)
    }

    open spec fn model_pending(model: Term) -> bool {
        term_has_abstraction(model)
    }

    open spec fn model_step(model: Term) -> Option<Term> {
        if step_defined(model) {
            Some(step(model))
        } else {
            None
        }
    }

    open spec fn model_canonical(model: Term) -> Term {
        canonicalize(model)
    }

    open spec fn model_is_canonical(model: Term) -> bool {
        canonical(model)
    }

    open spec fn model_normal(model: Term, fuel: nat) -> Result<Term, CombinatorError> {
        normalize(model, fuel)
    }

    open spec fn model_substituted(model: Term, definitions: Seq<Definition>) -> Option<Term> {
        if term_has_abstraction(model) {
            None
        } else {
            Some(substitute(model, definitions))
        }
    }

    /// Whether the variable occurs in one of the elements.
    fn contains(&self, variable: &Element) -> (res: bool)
        decreases self,
    {
        let mut i: usize = 0;
        while i < self.0.len()
            invariant
                i <= self.0.len(),
                self@.len() == self.0.len(),
                forall|j: int| 0 <= j < i ==> !node_contains(self@[j], variable@),
            decreases self.0.len() - i,
        {
            if self.0[i].contains(variable) {
                assert(node_contains(self@[i as int], variable@));
                return true;
            }
            i += 1;
        }
        false
    }

    /// Whether an abstraction can be reached in the expression through sub-expressions.
    fn contains_abstraction(&self) -> (res: bool)
        decreases self,
    {
        let mut i: usize = 0;
        while i < self.0.len()
            invariant
                i <= self.0.len(),
                self@.len() == self.0.len(),
                forall|j: int| 0 <= j < i ==> !node_has_abstraction(self@[j]),
            decreases self.0.len() - i,
        {
            if self.0[i].contains_abstraction() {
                assert(node_has_abstraction(self@[i as int]));
                return true;
            }
            i += 1;
        }
        false
    }

    /// Replaces each abstraction that can be reached through groups by what the
    /// elimination rule gives for it. Where the rule does not cover one of them, the
    /// expression is left as it was.
    fn abstraction_substitution(&mut self) -> (res: Result<(), CombinatorError>) {
        match substituted_expression(self) {
            Some(next) => {
                *self = next;
                Ok(())
            },
            None => Err(CombinatorError::InvariantViolation),
        }
    }

    /// Brings the expression to canonical form: leading groups are spliced into the
    /// expression and groups around a single element are unwrapped, at every depth, until
    /// nothing of the kind is left.
    fn reduce_parens(&mut self) {
        proof {
            if canonical(self@) {
                lemma_canonicalize_unchanged(self@);
            }
        }
        let next = canonical_expression(self);
        *self = next;
    }

    /// Reduces the expression to normal form with at most `fuel` rewriting passes.
    /// Where there is no result, the expression is left as it was.
    fn reduce_expression(&mut self, fuel: u64) -> (res: Result<(), CombinatorError>) {
        match normalized_expression(self, fuel) {
            Ok(normal) => {
                *self = normal;
                Ok(())
            },
            Err(error) => Err(error),
        }
    }

    /// Puts the registered body, as a sub-expression, in the place of every item with a
    /// registered name, then canonicalises. An expression that holds an abstraction is
    /// left as it was.
    fn context_substitution(&mut self, context: &CombinatorContext) -> (res: Result<
        (),
        CombinatorError,
    >) {
        match context_substituted_expression(self, context) {
            Some(next) => {
                *self = next;
                Ok(())
            },
            None => Err(CombinatorError::InvariantViolation),
        }
    }
}

/// The definition with another body.
pub open spec fn with_body(definition: Definition, body: Term) -> Definition {
    Definition { name: definition.name, params: definition.params, body }
}

impl AbstractionElimination for Combinator {
    type Model = Definition;

    open spec fn model(&self) -> Definition {
        self@
    }

    open spec fn model_contains(model: Definition, variable: Node) -> bool {
        term_contains(model.body, variable)
    }

    open spec fn model_pending(model: Definition) -> bool {
        term_has_abstraction(model.body)
    }

    open spec fn model_step(model: Definition) -> Option<Definition> {
        if step_defined(model.body) {
            Some(with_body(model, step(model.body)))
        } else {
            None
        }
    }

    open spec fn model_canonical(model: Definition) -> Definition {
        with_body(model, canonicalize(model.body))
    }

    open spec fn model_is_canonical(model: Definition) -> bool {
        canonical(model.body)
    }

    open spec fn model_normal(model: Definition, fuel: nat) -> Result<Definition, CombinatorError> {
        match normalize(model.body, fuel) {
            Ok(normal) => Ok(with_body(model, normal)),
            Err(error) => Err(error),
        }
    }

    open spec fn model_substituted(model: Definition, definitions: Seq<Definition>) -> Option<
        Definition,
    > {
        if term_has_abstraction(model.body) {
            None
        } else {
            Some(with_body(model, substitute(model.body, definitions)))
        }
    }

    /// Whether the variable occurs in the expression of the definition.
    fn contains(&self, variable: &Element) -> (res: bool) {
        self.expression.contains(variable)
    }

    /// Whether an abstraction is pending in the expression of the definition.
    fn contains_abstraction(&self) -> (res: bool) {
        self.expression.contains_abstraction()
    }

    /// One substitution step on the expression of the definition.
    fn abstraction_substitution(&mut self) -> (res: Result<(), CombinatorError>) {
        self.expression.abstraction_substitution()
    }

    /// Brings the expression of the definition to canonical form.
    fn reduce_parens(&mut self) {
        self.expression.reduce_parens()
    }

    /// Reduces the expression of the definition to normal form with at most `fuel`
    /// rewriting passes.
    fn reduce_expression(&mut self, fuel: u64) -> (res: Result<(), CombinatorError>) {
        self.expression.reduce_expression(fuel)
    }

    /// Substitutes the names that the context defines in the expression of the definition.
    fn context_substitution(&mut self, context: &CombinatorContext) -> (res: Result<
        (),
        CombinatorError,
    >) {
        self.expression.context_substitution(context)
    }
}

} // verus!
