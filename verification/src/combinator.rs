//! Named definitions and the elimination of their parameters.

use crate::bracket::{
    eliminate_abstractions, eliminated_expression, lemma_eliminate_orderly,
    lemma_eliminated_abstraction_free, lemma_well_formed_orderly, node_orderly, orderly,
    term_has_abstraction,
};
use crate::error::CombinatorError;
use crate::reduction::normalize;
use crate::term::{well_formed, Element, Expression, Node, Term};
use vstd::prelude::*;
use vstd::std_specs::cmp::PartialEqSpecImpl;

verus! {

/// The mathematical model of a [`Combinator`]: a name, the parameters that are still to be
/// eliminated, and the body.
pub struct Definition {
    pub name: Seq<char>,
    pub params: Seq<Seq<char>>,
    pub body: Term,
}

/// The names that a vector of strings holds, in order.
pub open spec fn names(strings: Seq<String>) -> Seq<Seq<char>> {
    Seq::new(strings.len(), |i: int| strings[i]@)
}

/// A named combinator: `name args... = expression`.
#[derive(Debug, Eq, PartialOrd, Hash)]
pub struct Combinator {
    pub name: String,
    pub args: Vec<String>,
    pub expression: Expression,
}

impl View for Combinator {
    type V = Definition;

    open spec fn view(&self) -> Definition {
        Definition { name: self.name@, params: names(self.args@), body: self.expression@ }
    }
}

/// The definition with its last parameter turned into an abstraction over the whole body.
pub open spec fn abstract_last(definition: Definition) -> Definition {
    Definition {
        name: definition.name,
        params: definition.params.drop_last(),
        body: seq![Node::Abstraction(definition.body, definition.params.last())],
    }
}

/// Eliminates the parameters of a definition, the last one first: each in turn becomes an
/// abstraction over the body, which is then rewritten until no abstraction is left.
/// There is no result where that rewriting has none.
pub open spec fn eliminate(definition: Definition) -> Option<Definition>
    decreases definition.params.len(),
{
    if definition.params.len() == 0 {
        Some(definition)
    } else {
        match eliminate_abstractions(abstract_last(definition).body) {
            Some(body) => eliminate(
                Definition { name: definition.name, params: definition.params.drop_last(), body },
            ),
            None => None,
        }
    }
}

/// Elimination keeps the name, leaves no parameter, and, where a parameter was eliminated,
/// leaves no abstraction in the body.
pub proof fn lemma_eliminate_point_free(definition: Definition)
    ensures
        eliminate(definition) matches Some(result) ==> {
            &&& result.name == definition.name
            &&& result.params.len() == 0
            &&& definition.params.len() > 0 ==> !term_has_abstraction(result.body)
        },
    decreases definition.params.len(),
{
    if definition.params.len() > 0 {
        let wrapped = abstract_last(definition).body;
        lemma_eliminated_abstraction_free(wrapped);
        if eliminate_abstractions(wrapped) is Some {
            let next = Definition {
                name: definition.name,
                params: definition.params.drop_last(),
                body: eliminate_abstractions(wrapped)->0,
            };
            lemma_eliminate_point_free(next);
            if next.params.len() == 0 {
                assert(eliminate(next) == Some(next));
            }
        }
    }
}

/// Elimination has a result on every definition with a well-formed body, and the body of
/// the result is well-formed again: no abstraction is left anywhere in it.
pub proof fn lemma_eliminate_well_formed(definition: Definition)
    requires
        well_formed(definition.body),
    ensures
        eliminate(definition) is Some,
        eliminate(definition)->0.params.len() == 0,
        well_formed(eliminate(definition)->0.body),
        !term_has_abstraction(eliminate(definition)->0.body),
    decreases definition.params.len(),
{
    if definition.params.len() > 0 {
        let wrapped = abstract_last(definition).body;
        assert(orderly(wrapped)) by {
            assert forall|i: int| 0 <= i < wrapped.len() implies node_orderly(
                #[trigger] wrapped[i],
            ) by {}
        }
        lemma_eliminate_orderly(wrapped);
        let next = Definition {
            name: definition.name,
            params: definition.params.drop_last(),
            body: eliminate_abstractions(wrapped)->0,
        };
        lemma_eliminate_well_formed(next);
    } else {
        lemma_well_formed_orderly(definition.body);
    }
}

/// A copy of a vector of names.
pub(crate) fn clone_names(strings: &Vec<String>) -> (res: Vec<String>)
    ensures
        names(res@) == names(strings@),
{
    let mut copy: Vec<String> = Vec::new();
    let mut i: usize = 0;
    while i < strings.len()
        invariant
            i <= strings.len(),
            copy.len() == i,
            forall|j: int| 0 <= j < i ==> copy[j]@ == strings[j]@,
        decreases strings.len() - i,
    {
        copy.push(strings[i].clone());
        i += 1;
    }
    assert(names(copy@) =~= names(strings@));
    copy
}

/// Whether two vectors hold the same names in the same order.
pub(crate) fn same_names(left: &Vec<String>, right: &Vec<String>) -> (res: bool)
    ensures
        res == (names(left@) == names(right@)),
{
    if left.len() != right.len() {
        assert(names(left@).len() != names(right@).len());
        return false;
    }
    let mut i: usize = 0;
    while i < left.len()
        invariant
            i <= left.len(),
            left.len() == right.len(),
            forall|j: int| 0 <= j < i ==> left[j]@ == right[j]@,
        decreases left.len() - i,
    {
        if left[i] != right[i] {
            assert(names(left@)[i as int] != names(right@)[i as int]);
            return false;
        }
        i += 1;
    }
    assert(names(left@) =~= names(right@));
    true
}

impl Clone for Combinator {
    fn clone(&self) -> (res: Self)
        ensures
            res@ == self@,
    {
        Combinator {
            name: self.name.clone(),
            args: clone_names(&self.args),
            expression: self.expression.clone(),
        }
    }
}

impl PartialEqSpecImpl for Combinator {
    open spec fn obeys_eq_spec() -> bool {
        true
    }

    /// Two combinators are equal where they stand for the same definition.
    open spec fn eq_spec(&self, other: &Combinator) -> bool {
        self@ == other@
    }
}

impl PartialEq for Combinator {
    fn eq(&self, other: &Combinator) -> (res: bool) {
        self.name == other.name && same_names(&self.args, &other.args) && self.expression
            == other.expression
    }
}

impl Combinator {
    /// Turns the last parameter into an abstraction over the whole expression.
    /// Nothing happens, and nothing is returned, where no parameter is left.
    pub fn add_abstraction(&mut self) -> (res: Option<()>)
        ensures
            old(self)@.params.len() == 0 ==> res is None && final(self)@ == old(self)@,
            old(self)@.params.len() > 0 ==> res is Some && final(self)@ == abstract_last(
                old(self)@,
            ),
    {
        let ghost before = self@;
        match self.args.pop() {
            None => None,
            Some(variable) => {
                assert(variable@ == before.params.last());
                let mut elements: Vec<Element> = Vec::new();
                std::mem::swap(&mut elements, &mut self.expression.0);
                let body = Expression(elements);
                assert(body@ =~= before.body);
                self.expression = Expression::of_one(Element::Abstraction(body, variable));
                assert(self@.params =~= before.params.drop_last());
                Some(())
            },
        }
    }

    /// Eliminates every parameter, the last one first, which leaves the definition
    /// point-free. On a violation the definition is left as it was.
    pub fn abstraction_elimination(&mut self) -> (res: Result<(), CombinatorError>)
        ensures
            match eliminate(old(self)@) {
                Some(definition) => res is Ok && final(self)@ == definition,
                None => res == Err::<(), CombinatorError>(CombinatorError::InvariantViolation)
                    && final(self)@ == old(self)@,
            },
    {
        let mut work = self.clone();
        while work.args.len() > 0
            invariant
                eliminate(work@) == eliminate(self@),
            decreases work.args.len(),
        {
            work.add_abstraction();
            match eliminated_expression(&work.expression) {
                Some(next) => {
                    work.expression = next;
                },
                None => {
                    return Err(CombinatorError::InvariantViolation);
                },
            }
        }
        *self = work;
        Ok(())
    }

    /// The definition named `name` of this point-free definition applied to the arguments
    /// and reduced to normal form with at most `fuel` rewriting passes.
    /// A definition that still has parameters cannot be applied.
    pub fn apply(&self, name: &str, args: Expression, fuel: u64) -> (res: Result<
        Combinator,
        CombinatorError,
    >)
        ensures
            self@.params.len() > 0 ==> res is Err && res->Err_0
                == CombinatorError::UnboundParameters,
            self@.params.len() == 0 ==> match normalize(self@.body + args@, fuel as nat) {
                Ok(normal) => res is Ok && res->Ok_0@ == Definition {
                    name: name@,
                    params: Seq::empty(),
                    body: normal,
                },
                Err(error) => res is Err && res->Err_0 == error,
            },
    {
        if self.args.len() > 0 {
            return Err(CombinatorError::UnboundParameters);
        }
        match self.expression.apply(args, fuel) {
            Ok(normal) => {
                let applied = Combinator {
                    name: name.to_owned(),
                    args: Vec::new(),
                    expression: normal,
                };
                assert(applied@.params =~= Seq::empty());
                Ok(applied)
            },
            Err(error) => Err(error),
        }
    }
}

} // verus!
