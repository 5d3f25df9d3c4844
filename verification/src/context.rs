//! The context of registered definitions: validation, registration, and the
//! substitution of defined names.

use crate::bracket::{node_contains, node_has_abstraction, term_contains, term_has_abstraction};
use crate::canonical::{canonical_expression, canonicalize};
use crate::combinator::{names, Combinator, Definition};
use crate::error::CombinatorError;
use crate::term::{symbol, Element, Expression, Node, Term};
use vstd::prelude::*;
use vstd::set_lib::lemma_subset_equality;
use vstd::std_specs::cmp::PartialEqSpecImpl;

verus! {

/// Whether every atom of the node is one of the allowed names. An abstraction is never valid.
pub open spec fn node_valid(n: Node, allowed: Seq<Seq<char>>) -> bool
    decreases n,
{
    match n {
        Node::Atom(name) => allowed.contains(name),
        Node::Group(body) => term_valid(body, allowed),
        Node::Abstraction(_, _) => false,
    }
}

/// Whether the term is built from the allowed names alone, with no abstraction in it.
pub open spec fn term_valid(t: Term, allowed: Seq<Seq<char>>) -> bool
    decreases t,
{
    forall|i: int| 0 <= i < t.len() ==> node_valid(#[trigger] t[i], allowed)
}

/// The names that a strict registration allows: `S`, `K` and `I`.
pub open spec fn strict_symbols() -> Seq<Seq<char>> {
    seq![seq!['S'], seq!['K'], seq!['I']]
}

/// The names that a loose registration allows: `S`, `K`, `I`, `B` and `C`.
pub open spec fn loose_symbols() -> Seq<Seq<char>> {
    seq![seq!['S'], seq!['K'], seq!['I'], seq!['B'], seq!['C']]
}

/// A term that holds an atom outside the allowed names is not valid.
pub proof fn lemma_foreign_atom_invalid(t: Term, name: Seq<char>, allowed: Seq<Seq<char>>)
    requires
        term_contains(t, Node::Atom(name)),
        !allowed.contains(name),
    ensures
        !term_valid(t, allowed),
    decreases t,
{
    let i = choose|i: int| 0 <= i < t.len() && node_contains(#[trigger] t[i], Node::Atom(name));
    match t[i] {
        Node::Atom(_) => {},
        Node::Group(body) => lemma_foreign_atom_invalid(body, name, allowed),
        Node::Abstraction(_, _) => {},
    }
    assert(!node_valid(t[i], allowed));
}

/// A term in which `B` occurs is not valid for a strict registration, which therefore
/// rejects every definition with such a body and leaves the context as it was.
pub proof fn lemma_strict_rejects_b(t: Term)
    requires
        term_contains(t, symbol('B')),
    ensures
        !term_valid(t, strict_symbols()),
{
    let b = seq!['B'];
    assert(b[0] == 'B');
    assert forall|i: int| 0 <= i < strict_symbols().len() implies strict_symbols()[i] != b by {
        assert(strict_symbols()[i][0] != 'B');
    }
    lemma_foreign_atom_invalid(t, b, strict_symbols());
}

/// The body registered under a name: that of the first definition which carries it.
pub open spec fn lookup(definitions: Seq<Definition>, name: Seq<char>) -> Option<Term>
    decreases definitions.len(),
{
    if definitions.len() == 0 {
        None
    } else if definitions[0].name == name {
        Some(definitions[0].body)
    } else {
        lookup(definitions.drop_first(), name)
    }
}

/// Where no two definitions carry the same name, the order of registration does not
/// matter to a lookup: the body found under a name is that of the one definition which
/// carries it.
pub proof fn lemma_lookup_unique(definitions: Seq<Definition>, i: int)
    requires
        0 <= i < definitions.len(),
        forall|a: int, b: int|
            0 <= a < b < definitions.len() ==> (#[trigger] definitions[a]).name != (
            #[trigger] definitions[b]).name,
    ensures
        lookup(definitions, definitions[i].name) == Some(definitions[i].body),
    decreases definitions.len(),
{
    if i > 0 {
        let rest = definitions.drop_first();
        assert forall|a: int, b: int| 0 <= a < b < rest.len() implies (#[trigger] rest[a]).name != (
        #[trigger] rest[b]).name by {
            assert(rest[a] == definitions[a + 1]);
            assert(rest[b] == definitions[b + 1]);
        }
        assert(rest[i - 1] == definitions[i]);
        assert(definitions[0].name != definitions[i].name);
        lemma_lookup_unique(rest, i - 1);
    }
}

/// A name that no definition carries is not found.
pub proof fn lemma_lookup_none(definitions: Seq<Definition>, name: Seq<char>)
    ensures
        lookup(definitions, name) is None <==> forall|i: int|
            0 <= i < definitions.len() ==> (#[trigger] definitions[i]).name != name,
    decreases definitions.len(),
{
    if definitions.len() > 0 {
        let rest = definitions.drop_first();
        lemma_lookup_none(rest, name);
        if forall|i: int| 0 <= i < rest.len() ==> (#[trigger] rest[i]).name != name {
            if definitions[0].name != name {
                assert forall|i: int| 0 <= i < definitions.len() implies (
                #[trigger] definitions[i]).name != name by {
                    if i > 0 {
                        assert(rest[i - 1] == definitions[i]);
                    }
                }
            }
        } else {
            let i = choose|i: int| 0 <= i < rest.len() && (#[trigger] rest[i]).name == name;
            assert(definitions[i + 1] == rest[i]);
        }
    }
}

/// Puts the registered body, as a group, in the place of an atom that carries a registered
/// name, and substitutes inside the body of a group.
pub open spec fn substitute_node(n: Node, definitions: Seq<Definition>) -> Node
    decreases n, 0nat,
{
    match n {
        Node::Atom(name) => match lookup(definitions, name) {
            Some(body) => Node::Group(body),
            None => n,
        },
        Node::Group(body) => Node::Group(substitute(body, definitions)),
        Node::Abstraction(_, _) => n,
    }
}

/// The nodes of a term with the substitution made in each of them.
pub open spec fn substituted_nodes(t: Term, definitions: Seq<Definition>) -> Term
    decreases t, 0nat,
{
    Seq::new(
        t.len(),
        |i: int|
            if 0 <= i < t.len() {
                substitute_node(t[i], definitions)
            } else {
                t[i]
            },
    )
}

/// Substitutes in every node of the term, then brings the result to canonical form. Each
/// atom of the term is looked up once; what is put in its place is not looked at again.
pub open spec fn substitute(t: Term, definitions: Seq<Definition>) -> Term
    decreases t, 1nat,
{
    canonicalize(substituted_nodes(t, definitions))
}

/// No definition stands twice in the sequence.
pub open spec fn distinct(definitions: Seq<Definition>) -> bool {
    forall|i: int, j: int|
        0 <= i < j < definitions.len() ==> #[trigger] definitions[i] != #[trigger] definitions[j]
}

/// The definitions after one more was registered: a definition that stands in the
/// sequence already is not added again.
pub open spec fn registered(definitions: Seq<Definition>, definition: Definition) -> Seq<
    Definition,
> {
    if definitions.contains(definition) {
        definitions
    } else {
        definitions.push(definition)
    }
}

/// The registered definitions, each one once, in the order of their registration.
#[derive(Debug, Eq)]
pub struct CombinatorContext(Vec<Combinator>);

impl View for CombinatorContext {
    type V = Seq<Definition>;

    closed spec fn view(&self) -> Seq<Definition> {
        Seq::new(self.0.len() as nat, |i: int| self.0[i]@)
    }
}

impl PartialEqSpecImpl for CombinatorContext {
    open spec fn obeys_eq_spec() -> bool {
        true
    }

    /// Two contexts are equal where they hold the same definitions, in whatever order.
    open spec fn eq_spec(&self, other: &CombinatorContext) -> bool {
        self@.to_set() == other@.to_set()
    }
}

impl PartialEq for CombinatorContext {
    fn eq(&self, other: &CombinatorContext) -> (res: bool) {
        proof {
            use_type_invariant(self);
            use_type_invariant(other);
            assert(self@.no_duplicates());
            assert(other@.no_duplicates());
            self@.unique_seq_to_set();
            other@.unique_seq_to_set();
        }
        if self.0.len() != other.0.len() {
            return false;
        }
        let mut i: usize = 0;
        while i < self.0.len()
            invariant
                i <= self.0.len(),
                self@.len() == self.0.len(),
                forall|j: int| 0 <= j < i ==> other@.contains(#[trigger] self@[j]),
            decreases self.0.len() - i,
        {
            if !other.holds(&self.0[i]) {
                assert(self@.to_set().contains(self@[i as int]));
                assert(!other@.to_set().contains(self@[i as int]));
                return false;
            }
            i += 1;
        }
        proof {
            assert(self@.to_set().subset_of(other@.to_set())) by {
                assert forall|d: Definition| self@.to_set().contains(d) implies other@.to_set()
                    .contains(d) by {
                    let j = choose|j: int| 0 <= j < self@.len() && self@[j] == d;
                    assert(other@.contains(self@[j]));
                }
            }
            lemma_subset_equality(self@.to_set(), other@.to_set());
        }
        true
    }
}

impl Clone for CombinatorContext {
    fn clone(&self) -> (res: Self)
        ensures
            res@ == self@,
    {
        proof {
            use_type_invariant(self);
        }
        let mut definitions: Vec<Combinator> = Vec::new();
        let mut i: usize = 0;
        while i < self.0.len()
            invariant
                i <= self.0.len(),
                definitions.len() == i,
                forall|j: int| 0 <= j < i ==> definitions[j]@ == self.0[j]@,
            decreases self.0.len() - i,
        {
            definitions.push(self.0[i].clone());
            i += 1;
        }
        assert(Seq::new(definitions.len() as nat, |i: int| definitions[i]@) =~= self@);
        CombinatorContext(definitions)
    }
}

/// Whether the element is free of abstractions and built from the allowed symbols alone.
pub fn validate_element(element: &Element, allowed_symbols: &Vec<String>) -> (res: bool)
    ensures
        res == node_valid(element@, names(allowed_symbols@)),
    decreases element,
{
    match element {
        Element::Item(name) => {
            let mut i: usize = 0;
            while i < allowed_symbols.len()
                invariant
                    i <= allowed_symbols.len(),
                    element@ == Node::Atom(name@),
                    forall|j: int| 0 <= j < i ==> names(allowed_symbols@)[j] != name@,
                decreases allowed_symbols.len() - i,
            {
                if allowed_symbols[i] == *name {
                    assert(names(allowed_symbols@)[i as int] == name@);
                    assert(names(allowed_symbols@).contains(name@));
                    return true;
                }
                i += 1;
            }
            false
        },
        Element::SubExpression(body) => CombinatorContext::validate(body, allowed_symbols),
        Element::Abstraction(_, _) => false,
    }
}

impl CombinatorContext {
    #[verifier::type_invariant]
    spec fn well_formed(&self) -> bool {
        distinct(self@)
    }

    /// The empty context.
    pub fn new() -> (res: Self)
        ensures
            res@ == Seq::<Definition>::empty(),
    {
        let res = CombinatorContext(Vec::new());
        assert(res@ =~= Seq::<Definition>::empty());
        res
    }

    /// The number of registered definitions.
    pub fn len(&self) -> (res: usize)
        ensures
            res == self@.len(),
    {
        self.0.len()
    }

    /// Whether the expression is free of abstractions and built from the allowed symbols alone.
    pub fn validate(c: &Expression, allowed_symbols: &Vec<String>) -> (res: bool)
        ensures
            res == term_valid(c@, names(allowed_symbols@)),
        decreases c,
    {
        let mut i: usize = 0;
        while i < c.0.len()
            invariant
                i <= c.0.len(),
                c@.len() == c.0.len(),
                forall|j: int| 0 <= j < i ==> node_valid(c@[j], names(allowed_symbols@)),
            decreases c.0.len() - i,
        {
            if !validate_element(&c.0[i], allowed_symbols) {
                assert(!node_valid(c@[i as int], names(allowed_symbols@)));
                return false;
            }
            i += 1;
        }
        true
    }

    /// Whether a definition equal to `c` is registered.
    pub fn holds(&self, c: &Combinator) -> (res: bool)
        ensures
            res == self@.contains(c@),
    {
        let mut i: usize = 0;
        while i < self.0.len()
            invariant
                i <= self.0.len(),
                self@.len() == self.0.len(),
                forall|j: int| 0 <= j < i ==> self@[j] != c@,
            decreases self.0.len() - i,
        {
            if self.0[i] == *c {
                assert(self@[i as int] == c@);
                return true;
            }
            i += 1;
        }
        false
    }

    /// Registers `c` where its expression is valid over the allowed symbols, and hands it
    /// back. A definition that is registered already is not registered again. A definition
    /// that is not valid is rejected, and the context stays as it was.
    pub fn register(&mut self, c: Combinator, allowed_symbols: &Vec<String>) -> (res: Result<
        Combinator,
        CombinatorError,
    >)
        ensures
            term_valid(c@.body, names(allowed_symbols@)) ==> res is Ok && res->Ok_0@ == c@
                && final(self)@ == registered(old(self)@, c@),
            !term_valid(c@.body, names(allowed_symbols@)) ==> res is Err && res->Err_0
                == CombinatorError::Rejected && final(self)@ == old(self)@,
            distinct(old(self)@) && distinct(final(self)@),
    {
        proof {
            use_type_invariant(&*self);
        }
        if !Self::validate(&c.expression, allowed_symbols) {
            return Err(CombinatorError::Rejected);
        }
        if !self.holds(&c) {
            let ghost before = self@;
            let mut definitions = self.clone().0;
            definitions.push(c.clone());
            assert(Seq::new(definitions.len() as nat, |i: int| definitions[i]@) =~= before.push(
                c@,
            ));
            *self = CombinatorContext(definitions);
        }
        Ok(c)
    }

    /// Registers a definition whose expression uses `S`, `K` and `I` alone.
    pub fn register_strict(&mut self, c: Combinator) -> (res: Result<Combinator, CombinatorError>)
        ensures
            term_valid(c@.body, strict_symbols()) ==> res is Ok && res->Ok_0@ == c@ && final(self)@
                == registered(old(self)@, c@),
            !term_valid(c@.body, strict_symbols()) ==> res is Err && res->Err_0
                == CombinatorError::Rejected && final(self)@ == old(self)@,
            distinct(old(self)@) && distinct(final(self)@),
    {
        proof {
            reveal_strlit("S");
            reveal_strlit("K");
            reveal_strlit("I");
        }
        let mut allowed: Vec<String> = Vec::new();
        allowed.push("S".to_owned());
        allowed.push("K".to_owned());
        allowed.push("I".to_owned());
        assert(names(allowed@) =~= strict_symbols()) by {
            assert forall|i: int| 0 <= i < 3 implies names(allowed@)[i]
                =~= strict_symbols()[i] by {}
        }
        self.register(c, &allowed)
    }

    /// Registers a definition whose expression uses `S`, `K`, `I`, `B` and `C` alone.
    pub fn register_loose(&mut self, c: Combinator) -> (res: Result<Combinator, CombinatorError>)
        ensures
            term_valid(c@.body, loose_symbols()) ==> res is Ok && res->Ok_0@ == c@ && final(self)@
                == registered(old(self)@, c@),
            !term_valid(c@.body, loose_symbols()) ==> res is Err && res->Err_0
                == CombinatorError::Rejected && final(self)@ == old(self)@,
            distinct(old(self)@) && distinct(final(self)@),
    {
        proof {
            reveal_strlit("S");
            reveal_strlit("K");
            reveal_strlit("I");
            reveal_strlit("B");
            reveal_strlit("C");
        }
        let mut allowed: Vec<String> = Vec::new();
        allowed.push("S".to_owned());
        allowed.push("K".to_owned());
        allowed.push("I".to_owned());
        allowed.push("B".to_owned());
        allowed.push("C".to_owned());
        assert(names(allowed@) =~= loose_symbols()) by {
            assert forall|i: int| 0 <= i < 5 implies names(allowed@)[i]
                =~= loose_symbols()[i] by {}
        }
        self.register(c, &allowed)
    }

    /// The expression registered under a name: that of the first definition which carries it.
    pub fn find(&self, name: &String) -> (res: Option<&Expression>)
        ensures
            res is Some <==> lookup(self@, name@) is Some,
            res is Some ==> res->0@ == lookup(self@, name@)->0,
    {
        let mut i: usize = 0;
        assert(self@.subrange(0, self@.len() as int) =~= self@);
        while i < self.0.len()
            invariant
                i <= self.0.len(),
                self@.len() == self.0.len(),
                lookup(self@, name@) == lookup(self@.subrange(i as int, self@.len() as int), name@),
            decreases self.0.len() - i,
        {
            let ghost rest = self@.subrange(i as int, self@.len() as int);
            assert(rest[0] == self.0[i as int]@);
            if self.0[i].name == *name {
                return Some(&self.0[i].expression);
            }
            assert(rest.drop_first() =~= self@.subrange(i + 1, self@.len() as int));
            i += 1;
        }
        assert(self@.subrange(i as int, self@.len() as int).len() == 0);
        None
    }
}

/// Substitution of the registered names in an element, as a new element.
/// There is no result where the element holds an abstraction.
pub fn context_substituted_element(element: &Element, context: &CombinatorContext) -> (res:
    Option<Element>)
    ensures
        res is None <==> node_has_abstraction(element@),
        res is Some ==> res->0@ == substitute_node(element@, context@),
    decreases element,
{
    match element {
        Element::Item(name) => match context.find(name) {
            Some(body) => Some(Element::SubExpression(body.clone())),
            None => Some(Element::Item(name.clone())),
        },
        Element::SubExpression(body) => match context_substituted_expression(body, context) {
            Some(next) => Some(Element::SubExpression(next)),
            None => None,
        },
        Element::Abstraction(_, _) => None,
    }
}

/// Substitution of the registered names in an expression, as a new, canonicalised
/// expression. There is no result where the expression holds an abstraction.
pub fn context_substituted_expression(expression: &Expression, context: &CombinatorContext) -> (res:
    Option<Expression>)
    ensures
        res is None <==> term_has_abstraction(expression@),
        res is Some ==> res->0@ == substitute(expression@, context@),
    decreases expression,
{
    let mut elements: Vec<Element> = Vec::new();
    let mut i: usize = 0;
    while i < expression.0.len()
        invariant
            i <= expression.0.len(),
            expression@.len() == expression.0.len(),
            elements.len() == i,
            forall|j: int| 0 <= j < i ==> !node_has_abstraction(expression@[j]),
            forall|j: int| 0 <= j < i ==> elements[j]@ == substitute_node(expression@[j], context@),
        decreases expression.0.len() - i,
    {
        match context_substituted_element(&expression.0[i], context) {
            Some(next) => {
                elements.push(next);
            },
            None => {
                assert(node_has_abstraction(expression@[i as int]));
                return None;
            },
        }
        i += 1;
    }
    let raw = Expression(elements);
    assert(raw@ =~= substituted_nodes(expression@, context@));
    Some(canonical_expression(&raw))
}

} // verus!
