//! Terms: the elements and expressions that the library works on, and the nodes and
//! sequences of nodes that they stand for in contracts.

use vstd::prelude::*;
use vstd::std_specs::cmp::PartialEqSpecImpl;
use vstd::std_specs::convert::FromSpecImpl;

verus! {

/// The mathematical model of an [`Element`]: one node of a combinator term.
pub enum Node {
    /// An opaque named symbol.
    Atom(Seq<char>),
    /// A parenthesised sub-term.
    Group(Seq<Node>),
    /// A pending bracket abstraction: the body, and the variable still to be abstracted out of it.
    Abstraction(Seq<Node>, Seq<char>),
}

/// A term is a sequence of nodes, read as left-associative application.
pub type Term = Seq<Node>;

/// One element of an expression.
#[derive(Debug, Eq, PartialOrd, Hash)]
pub enum Element {
    /// A symbol: a primitive combinator, a variable, or a defined name.
    Item(String),
    /// A parenthesised sub-expression.
    SubExpression(Expression),
    /// A transient marker: the sub-expression with the named variable still to be eliminated.
    Abstraction(Expression, String),
}

/// A sequence of elements applied from left to right.
#[derive(Debug, Eq, PartialOrd, Hash)]
pub struct Expression(pub Vec<Element>);

/// The atom whose name is the single character `c`.
pub open spec fn symbol(c: char) -> Node {
    Node::Atom(seq![c])
}

/// Symbols of different characters are different atoms.
pub proof fn lemma_symbols_differ(a: char, b: char)
    ensures
        symbol(a) == symbol(b) ==> a == b,
{
    assert(seq![a][0] == a);
    assert(seq![b][0] == b);
}

/// The symbols of the five primitives are pairwise different.
pub proof fn lemma_primitive_symbols_distinct()
    ensures
        symbol('S') != symbol('K'),
        symbol('S') != symbol('I'),
        symbol('S') != symbol('B'),
        symbol('S') != symbol('C'),
        symbol('K') != symbol('I'),
        symbol('K') != symbol('B'),
        symbol('K') != symbol('C'),
        symbol('I') != symbol('B'),
        symbol('I') != symbol('C'),
        symbol('B') != symbol('C'),
{
    lemma_symbols_differ('S', 'K');
    lemma_symbols_differ('S', 'I');
    lemma_symbols_differ('S', 'B');
    lemma_symbols_differ('S', 'C');
    lemma_symbols_differ('K', 'I');
    lemma_symbols_differ('K', 'B');
    lemma_symbols_differ('K', 'C');
    lemma_symbols_differ('I', 'B');
    lemma_symbols_differ('I', 'C');
    lemma_symbols_differ('B', 'C');
}

/// A well-formed node: an atom, or a group with a well-formed body. An abstraction is not.
pub open spec fn node_well_formed(n: Node) -> bool
    decreases n,
{
    match n {
        Node::Atom(_) => true,
        Node::Group(body) => well_formed(body),
        Node::Abstraction(_, _) => false,
    }
}

/// A well-formed term, as source text gives it: not empty, with no empty group and no
/// abstraction at any depth.
pub open spec fn well_formed(t: Term) -> bool
    decreases t,
{
    t.len() > 0 && forall|i: int| 0 <= i < t.len() ==> node_well_formed(#[trigger] t[i])
}

impl View for Element {
    type V = Node;

    open spec fn view(&self) -> Node
        decreases self,
    {
        match self {
            Element::Item(name) => Node::Atom(name@),
            Element::SubExpression(body) => Node::Group(body@),
            Element::Abstraction(body, variable) => Node::Abstraction(body@, variable@),
        }
    }
}

impl View for Expression {
    type V = Term;

    open spec fn view(&self) -> Term
        decreases self,
    {
        Seq::new(
            self.0.len() as nat,
            |i: int|
                if 0 <= i < self.0.len() {
                    self.0[i]@
                } else {
                    Node::Group(Seq::empty())
                },
        )
    }
}

impl Clone for Element {
    fn clone(&self) -> (res: Self)
        ensures
            res@ == self@,
        decreases self,
    {
        match self {
            Element::Item(name) => Element::Item(name.clone()),
            Element::SubExpression(body) => Element::SubExpression(body.clone()),
            Element::Abstraction(body, variable) => Element::Abstraction(
                body.clone(),
                variable.clone(),
            ),
        }
    }
}

impl Clone for Expression {
    fn clone(&self) -> (res: Self)
        ensures
            res@ == self@,
        decreases self,
    {
        let mut elements: Vec<Element> = Vec::new();
        let mut i: usize = 0;
        while i < self.0.len()
            invariant
                i <= self.0.len(),
                elements.len() == i,
                forall|j: int| 0 <= j < i ==> elements[j]@ == self.0[j]@,
            decreases self.0.len() - i,
        {
            elements.push(self.0[i].clone());
            i += 1;
        }
        let res = Expression(elements);
        assert(res@ =~= self@);
        res
    }
}

impl PartialEqSpecImpl for Element {
    open spec fn obeys_eq_spec() -> bool {
        true
    }

    /// Two elements are equal where they stand for the same node.
    open spec fn eq_spec(&self, other: &Element) -> bool {
        self@ == other@
    }
}

impl PartialEq for Element {
    fn eq(&self, other: &Element) -> (res: bool)
        decreases self,
    {
        match (self, other) {
            (Element::Item(a), Element::Item(b)) => *a == *b,
            (Element::SubExpression(a), Element::SubExpression(b)) => a.eq(b),
            (Element::Abstraction(a, v), Element::Abstraction(b, w)) => *v == *w && a.eq(b),
            _ => false,
        }
    }
}

impl PartialEqSpecImpl for Expression {
    open spec fn obeys_eq_spec() -> bool {
        true
    }

    /// Two expressions are equal where they stand for the same term.
    open spec fn eq_spec(&self, other: &Expression) -> bool {
        self@ == other@
    }
}

impl PartialEq for Expression {
    fn eq(&self, other: &Expression) -> (res: bool)
        decreases self,
    {
        if self.0.len() != other.0.len() {
            assert(self@.len() != other@.len());
            return false;
        }
        let mut i: usize = 0;
        while i < self.0.len()
            invariant
                i <= self.0.len(),
                self.0.len() == other.0.len(),
                forall|j: int| 0 <= j < i ==> self.0[j]@ == other.0[j]@,
            decreases self.0.len() - i,
        {
            if !self.0[i].eq(&other.0[i]) {
                assert(self@[i as int] != other@[i as int]);
                return false;
            }
            i += 1;
        }
        assert(self@ =~= other@);
        true
    }
}

impl Expression {
    /// The expression made of one element.
    pub(crate) fn of_one(element: Element) -> (res: Expression)
        ensures
            res@ == seq![element@],
    {
        let mut elements: Vec<Element> = Vec::new();
        elements.push(element);
        let res = Expression(elements);
        assert(res@ =~= seq![element@]);
        res
    }

    /// The expression made of two elements.
    pub(crate) fn of_two(first: Element, second: Element) -> (res: Expression)
        ensures
            res@ == seq![first@, second@],
    {
        let mut elements: Vec<Element> = Vec::new();
        elements.push(first);
        elements.push(second);
        let res = Expression(elements);
        assert(res@ =~= seq![first@, second@]);
        res
    }

    /// The expression made of three elements.
    pub(crate) fn of_three(first: Element, second: Element, third: Element) -> (res: Expression)
        ensures
            res@ == seq![first@, second@, third@],
    {
        let mut elements: Vec<Element> = Vec::new();
        elements.push(first);
        elements.push(second);
        elements.push(third);
        let res = Expression(elements);
        assert(res@ =~= seq![first@, second@, third@]);
        res
    }

    /// This expression followed by the elements of `other` from index `from` on.
    pub(crate) fn followed_by(self, other: &Expression, from: usize) -> (res: Expression)
        requires
            from <= other@.len(),
        ensures
            res@ == self@ + other@.subrange(from as int, other@.len() as int),
    {
        let ghost front = self@;
        let mut elements = self.0;
        assert(front.len() == elements.len());
        let mut i: usize = from;
        while i < other.0.len()
            invariant
                from <= i <= other.0.len(),
                other@.len() == other.0.len(),
                elements.len() == front.len() + (i - from),
                forall|j: int| 0 <= j < front.len() ==> elements[j]@ == front[j],
                forall|j: int| from <= j < i ==> elements[front.len() + j - from]@ == other@[j],
            decreases other.0.len() - i,
        {
            elements.push(other.0[i].clone());
            i += 1;
        }
        let res = Expression(elements);
        assert(res@ =~= front + other@.subrange(from as int, other@.len() as int));
        res
    }
}

impl Element {
    /// The group of two elements.
    pub(crate) fn group_of_two(first: Element, second: Element) -> (res: Element)
        ensures
            res@ == Node::Group(seq![first@, second@]),
    {
        Element::SubExpression(Expression::of_two(first, second))
    }

    /// The group of three elements.
    pub(crate) fn group_of_three(first: Element, second: Element, third: Element) -> (res: Element)
        ensures
            res@ == Node::Group(seq![first@, second@, third@]),
    {
        Element::SubExpression(Expression::of_three(first, second, third))
    }
}

/// The nodes that a sequence of elements stands for, in order.
pub open spec fn nodes(elements: Seq<Element>) -> Term {
    Seq::new(elements.len(), |i: int| elements[i]@)
}

/// The atoms that a sequence of names stands for, in order.
pub open spec fn atoms(names: Seq<&str>) -> Term {
    Seq::new(names.len(), |i: int| Node::Atom(names[i]@))
}

impl FromSpecImpl<Vec<Element>> for Expression {
    open spec fn obeys_from_spec() -> bool {
        true
    }

    open spec fn from_spec(value: Vec<Element>) -> Self {
        Expression(value)
    }
}

impl From<Vec<Element>> for Expression {
    /// The expression made of the elements.
    fn from(value: Vec<Element>) -> (res: Self)
        ensures
            res@ == nodes(value@),
    {
        let res = Expression(value);
        assert(res@ =~= nodes(value@));
        res
    }
}

impl FromSpecImpl<Expression> for Vec<Element> {
    open spec fn obeys_from_spec() -> bool {
        true
    }

    open spec fn from_spec(value: Expression) -> Self {
        value.0
    }
}

impl From<Expression> for Vec<Element> {
    /// The elements of the expression.
    fn from(value: Expression) -> (res: Self)
        ensures
            nodes(res@) == value@,
    {
        assert(nodes(value.0@) =~= value@);
        value.0
    }
}

impl FromSpecImpl<Vec<Element>> for Element {
    open spec fn obeys_from_spec() -> bool {
        true
    }

    open spec fn from_spec(value: Vec<Element>) -> Self {
        Element::SubExpression(Expression(value))
    }
}

impl From<Vec<Element>> for Element {
    /// The sub-expression made of the elements.
    fn from(value: Vec<Element>) -> (res: Self)
        ensures
            res@ == Node::Group(nodes(value@)),
    {
        let body = Expression(value);
        assert(body@ =~= nodes(value@));
        Element::SubExpression(body)
    }
}

impl FromSpecImpl<Expression> for Element {
    open spec fn obeys_from_spec() -> bool {
        true
    }

    open spec fn from_spec(value: Expression) -> Self {
        Element::SubExpression(value)
    }
}

impl From<Expression> for Element {
    /// The expression as a sub-expression.
    fn from(value: Expression) -> (res: Self)
        ensures
            res@ == Node::Group(value@),
    {
        Element::SubExpression(value)
    }
}

impl<'a> FromSpecImpl<&'a str> for Element {
    open spec fn obeys_from_spec() -> bool {
        false
    }

    open spec fn from_spec(value: &'a str) -> Self {
        arbitrary()
    }
}

impl<'a> From<&'a str> for Element {
    /// The item of that name.
    fn from(value: &'a str) -> (res: Self)
        ensures
            res@ == Node::Atom(value@),
    {
        Element::Item(value.to_owned())
    }
}

impl<'a> FromSpecImpl<Vec<&'a str>> for Element {
    open spec fn obeys_from_spec() -> bool {
        false
    }

    open spec fn from_spec(value: Vec<&'a str>) -> Self {
        arbitrary()
    }
}

impl<'a> From<Vec<&'a str>> for Element {
    /// The sub-expression made of the items of those names.
    fn from(value: Vec<&'a str>) -> (res: Self)
        ensures
            res@ == Node::Group(atoms(value@)),
    {
        let mut elements: Vec<Element> = Vec::new();
        let mut i: usize = 0;
        while i < value.len()
            invariant
                i <= value.len(),
                elements.len() == i,
                forall|j: int| 0 <= j < i ==> elements[j]@ == Node::Atom(value[j]@),
            decreases value.len() - i,
        {
            elements.push(Element::Item(value[i].to_owned()));
            i += 1;
        }
        let body = Expression(elements);
        assert(body@ =~= atoms(value@));
        Element::SubExpression(body)
    }
}

/// The primitive combinator `S`.
pub fn item_s() -> (res: Element)
    ensures
        res@ == symbol('S'),
{
    proof {
        reveal_strlit("S");
    }
    assert("S"@ =~= seq!['S']);
    Element::Item("S".to_owned())
}

/// The primitive combinator `K`.
pub fn item_k() -> (res: Element)
    ensures
        res@ == symbol('K'),
{
    proof {
        reveal_strlit("K");
    }
    assert("K"@ =~= seq!['K']);
    Element::Item("K".to_owned())
}

/// The primitive combinator `I`.
pub fn item_i() -> (res: Element)
    ensures
        res@ == symbol('I'),
{
    proof {
        reveal_strlit("I");
    }
    assert("I"@ =~= seq!['I']);
    Element::Item("I".to_owned())
}

/// The primitive combinator `B`.
pub fn item_b() -> (res: Element)
    ensures
        res@ == symbol('B'),
{
    proof {
        reveal_strlit("B");
    }
    assert("B"@ =~= seq!['B']);
    Element::Item("B".to_owned())
}

/// The primitive combinator `C`.
pub fn item_c() -> (res: Element)
    ensures
        res@ == symbol('C'),
{
    proof {
        reveal_strlit("C");
    }
    assert("C"@ =~= seq!['C']);
    Element::Item("C".to_owned())
}

/// Whether the element is well-formed.
pub fn is_well_formed_element(element: &Element) -> (res: bool)
    ensures
        res == node_well_formed(element@),
    decreases element, 0nat,
{
    match element {
        Element::Item(_) => true,
        Element::SubExpression(body) => body.is_well_formed(),
        Element::Abstraction(_, _) => false,
    }
}

impl Expression {
    /// Whether the expression is well-formed: it is not empty, and holds no empty
    /// sub-expression and no abstraction at any depth.
    pub fn is_well_formed(&self) -> (res: bool)
        ensures
            res == well_formed(self@),
        decreases self, 1nat,
    {
        if self.0.len() == 0 {
            return false;
        }
        let mut i: usize = 0;
        while i < self.0.len()
            invariant
                i <= self.0.len(),
                self@.len() == self.0.len(),
                forall|j: int| 0 <= j < i ==> node_well_formed(self@[j]),
            decreases self.0.len() - i,
        {
            if !is_well_formed_element(&self.0[i]) {
                assert(!node_well_formed(self@[i as int]));
                return false;
            }
            i += 1;
        }
        true
    }
}

} // verus!
