//! The text of elements, expressions and definitions.

use crate::combinator::{Combinator, Definition};
use crate::term::{Element, Expression, Node, Term};
use vstd::prelude::*;
use vstd::string::StringExecFns;

verus! {

/// The text of a node: an atom is its name, a group is its body between parentheses, and
/// an abstraction of `v` is its body between square brackets, followed by `_v`.
pub open spec fn render_node(n: Node) -> Seq<char>
    decreases n,
{
    match n {
        Node::Atom(name) => name,
        Node::Group(body) => seq!['('] + render_term(body) + seq![')'],
        Node::Abstraction(body, v) => seq!['['] + render_term(body) + seq![']', '_'] + v,
    }
}

/// The text of a term: the texts of its nodes with one space between neighbours.
pub open spec fn render_term(t: Term) -> Seq<char>
    decreases t,
{
    if t.len() == 0 {
        Seq::empty()
    } else if t.len() == 1 {
        render_node(t[0])
    } else {
        render_term(t.drop_last()) + seq![' '] + render_node(t.last())
    }
}

/// The text of a parameter list: every name followed by one space.
pub open spec fn render_params(params: Seq<Seq<char>>) -> Seq<char>
    decreases params.len(),
{
    if params.len() == 0 {
        Seq::empty()
    } else {
        render_params(params.drop_last()) + params.last() + seq![' ']
    }
}

/// The text of a definition: `name x1 ... xn = body`.
pub open spec fn render_definition(definition: Definition) -> Seq<char> {
    definition.name + seq![' '] + render_params(definition.params) + seq!['=', ' ']
        + render_term(definition.body)
}

/// Appends the text of an element.
fn write_element(element: &Element, out: &mut String)
    ensures
        final(out)@ == old(out)@ + render_node(element@),
    decreases element, 0nat,
{
    match element {
        Element::Item(name) => {
            out.append(name.as_str());
        },
        Element::SubExpression(body) => {
            proof {
                reveal_strlit("(");
                reveal_strlit(")");
            }
            out.append("(");
            write_expression(body, out);
            out.append(")");
            assert(out@ =~= old(out)@ + render_node(element@)) by {
                assert("("@ =~= seq!['(']);
                assert(")"@ =~= seq![')']);
            }
        },
        Element::Abstraction(body, variable) => {
            proof {
                reveal_strlit("[");
                reveal_strlit("]_");
            }
            out.append("[");
            write_expression(body, out);
            out.append("]_");
            out.append(variable.as_str());
            assert(out@ =~= old(out)@ + render_node(element@)) by {
                assert("["@ =~= seq!['[']);
                assert("]_"@ =~= seq![']', '_']);
            }
        },
    }
}

/// Appends the text of an expression.
fn write_expression(expression: &Expression, out: &mut String)
    ensures
        final(out)@ == old(out)@ + render_term(expression@),
    decreases expression, 1nat,
{
    let mut i: usize = 0;
    while i < expression.0.len()
        invariant
            i <= expression.0.len(),
            expression@.len() == expression.0.len(),
            out@ == old(out)@ + render_term(expression@.subrange(0, i as int)),
        decreases expression.0.len() - i,
    {
        let ghost done = expression@.subrange(0, i as int);
        let ghost next = expression@.subrange(0, i + 1);
        assert(next.drop_last() =~= done);
        assert(next.last() == expression.0[i as int]@);
        if i > 0 {
            proof {
                reveal_strlit(" ");
            }
            assert(" "@ =~= seq![' ']);
            out.append(" ");
        }
        write_element(&expression.0[i], out);
        assert(out@ =~= old(out)@ + render_term(next));
        i += 1;
    }
    assert(expression@.subrange(0, i as int) =~= expression@);
}

impl Element {
    /// The text of the element.
    pub fn to_string(&self) -> (res: String)
        ensures
            res@ == render_node(self@),
    {
        let mut out = String::new();
        write_element(self, &mut out);
        assert(out@ =~= render_node(self@));
        out
    }
}

impl Expression {
    /// The text of the expression.
    pub fn to_string(&self) -> (res: String)
        ensures
            res@ == render_term(self@),
    {
        let mut out = String::new();
        write_expression(self, &mut out);
        assert(out@ =~= render_term(self@));
        out
    }
}

impl Combinator {
    /// The text of the definition.
    pub fn to_string(&self) -> (res: String)
        ensures
            res@ == render_definition(self@),
    {
        proof {
            reveal_strlit(" ");
            reveal_strlit("= ");
        }
        assert(" "@ =~= seq![' ']);
        assert("= "@ =~= seq!['=', ' ']);
        let mut out = self.name.clone();
        out.append(" ");
        let mut i: usize = 0;
        while i < self.args.len()
            invariant
                i <= self.args.len(),
                self@.params.len() == self.args.len(),
                " "@ == seq![' '],
                out@ == self@.name + seq![' '] + render_params(self@.params.subrange(0, i as int)),
            decreases self.args.len() - i,
        {
            let ghost done = self@.params.subrange(0, i as int);
            let ghost next = self@.params.subrange(0, i + 1);
            assert(next.drop_last() =~= done);
            assert(next.last() == self.args[i as int]@);
            out.append(self.args[i].as_str());
            out.append(" ");
            assert(out@ =~= self@.name + seq![' '] + render_params(next));
            i += 1;
        }
        assert(self@.params.subrange(0, i as int) =~= self@.params);
        out.append("= ");
        write_expression(&self.expression, &mut out);
        out
    }
}

} // verus!
