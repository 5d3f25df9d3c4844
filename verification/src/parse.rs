//! The grammar of source text: declarations and expressions, read from strings.

use crate::bracket::term_has_abstraction;
use crate::canonical::{canonical_expression, canonicalize, lemma_canonicalize_well_formed};
use crate::combinator::{eliminate, lemma_eliminate_well_formed, names, Combinator, Definition};
use crate::error::CombinatorError;
use crate::term::{node_well_formed, nodes, well_formed, Element, Expression, Node, Term};
use vstd::prelude::*;
use vstd::string::{StringExecFns, StrSliceExecFns};

verus! {

/// Whether a character is a letter or a digit by the rules of Unicode: what
/// `char::is_alphanumeric` answers.
pub uninterp spec fn unicode_alphanumeric(c: char) -> bool;

/// Whether a character is an ASCII letter or digit.
pub open spec fn ascii_alphanumeric(c: char) -> bool {
    ('a' <= c && c <= 'z') || ('A' <= c && c <= 'Z') || ('0' <= c && c <= '9')
}

/// The length of the longest run of ASCII letters and digits at the start of the text.
pub open spec fn run_length(s: Seq<char>) -> nat
    decreases s.len(),
{
    if s.len() > 0 && ascii_alphanumeric(s[0]) {
        1 + run_length(s.drop_first())
    } else {
        0
    }
}

/// Calls `char::is_alphanumeric` of the standard library, which decides by the Unicode
/// tables whether the character is alphabetic or numeric. The answer depends on the
/// character alone and is given the name `unicode_alphanumeric`; nothing more is claimed.
#[verifier::external_body]
fn is_alphanumeric(c: char) -> (res: bool)
    ensures
        res == unicode_alphanumeric(c),
{
    c.is_alphanumeric()
}

/// Calls `nom::character::complete::alphanumeric1` on a string slice. It recognises one or
/// more ASCII letters and digits (`0-9`, `a-z`, `A-Z`): it splits the slice before the
/// first character that is none of them, or takes all of it where there is no such
/// character, and fails where nothing would be taken. The contract claims that what is
/// taken is the longest run of such characters at the start of the slice, and that the
/// call fails exactly where that run is empty.
#[verifier::external_body]
fn alphanumeric_prefix<'a>(text: &'a str) -> (res: Option<&'a str>)
    ensures
        res is None <==> run_length(text@) == 0,
        res matches Some(taken) ==> taken@ == text@.subrange(0, run_length(text@) as int),
{
    match nom::character::complete::alphanumeric1::<&str, nom::error::Error<&str>>(text) {
        Ok((_, taken)) => Some(taken),
        Err(_) => None,
    }
}

/// Where the item that begins at `from` ends: a single alphanumeric character, or a
/// non-empty run of ASCII letters and digits between braces. There is no end where no
/// item begins at `from`.
pub open spec fn item_end(s: Seq<char>, from: int) -> Option<int> {
    if !(0 <= from < s.len()) {
        None
    } else if unicode_alphanumeric(s[from]) {
        Some(from + 1)
    } else if s[from] == '{' {
        let run = run_length(s.subrange(from + 1, s.len() as int));
        if run >= 1 && from + 1 + run < s.len() && s[from + 1 + run] == '}' {
            Some(from + run + 2)
        } else {
            None
        }
    } else {
        None
    }
}

/// The name of the item between `from` and `end`: the character itself, or what stands
/// between the braces.
pub open spec fn item_name(s: Seq<char>, from: int, end: int) -> Seq<char> {
    if unicode_alphanumeric(s[from]) {
        s.subrange(from, end)
    } else {
        s.subrange(from + 1, end - 1)
    }
}

/// The element that begins at `from`, and where it ends: an item, or an expression of at
/// least one element between parentheses.
pub open spec fn parse_element(s: Seq<char>, from: int) -> Option<(Node, int)>
    decreases s.len() - from, 0nat,
{
    match item_end(s, from) {
        Some(end) => Some((Node::Atom(item_name(s, from, end)), end)),
        None => if 0 <= from < s.len() && s[from] == '(' {
            let (body, stop) = parse_elements(s, from + 1);
            if body.len() >= 1 && 0 <= stop < s.len() && s[stop] == ')' {
                Some((Node::Group(body), stop + 1))
            } else {
                None
            }
        } else {
            None
        },
    }
}

/// The longest sequence of elements that begins at `from`, and where it ends.
pub open spec fn parse_elements(s: Seq<char>, from: int) -> (Term, int)
    decreases s.len() - from, 1nat,
{
    match parse_element(s, from) {
        Some((node, end)) => if from < end <= s.len() {
            let (rest, stop) = parse_elements(s, end);
            (seq![node] + rest, stop)
        } else {
            (Seq::empty(), from)
        },
        None => (Seq::empty(), from),
    }
}

/// The names of the longest sequence of items that begins at `from`, and where it ends.
pub open spec fn parse_items(s: Seq<char>, from: int) -> (Seq<Seq<char>>, int)
    decreases s.len() - from,
{
    match item_end(s, from) {
        Some(end) => if from < end <= s.len() {
            let (rest, stop) = parse_items(s, end);
            (seq![item_name(s, from, end)] + rest, stop)
        } else {
            (Seq::empty(), from)
        },
        None => (Seq::empty(), from),
    }
}

/// What a declaration `name x1 ... xn =` at the start of the text declares: the name, the
/// parameters, and where the text goes on after the `=`.
pub open spec fn parse_declaration(s: Seq<char>) -> Option<(Seq<char>, Seq<Seq<char>>, int)> {
    match item_end(s, 0) {
        Some(end) => {
            let (params, stop) = parse_items(s, end);
            if 0 <= stop < s.len() && s[stop] == '=' {
                Some((item_name(s, 0, end), params, stop + 1))
            } else {
                None
            }
        },
        None => None,
    }
}

/// The expression that the whole text spells: at least one element, and nothing after
/// the last.
pub open spec fn parse_expression(s: Seq<char>) -> Option<Term> {
    let (body, stop) = parse_elements(s, 0);
    if body.len() >= 1 && stop == s.len() {
        Some(body)
    } else {
        None
    }
}

/// The definition that the whole text spells: a declaration, then an expression up to
/// the end of the text, whose canonical form becomes the body.
pub open spec fn parse_definition(s: Seq<char>) -> Option<Definition> {
    match parse_declaration(s) {
        Some((name, params, start)) => {
            let (body, stop) = parse_elements(s, start);
            if body.len() >= 1 && stop == s.len() {
                Some(Definition { name, params, body: canonicalize(body) })
            } else {
                None
            }
        },
        None => None,
    }
}

/// The names that a vector of string slices holds, in order.
pub open spec fn slice_names(slices: Seq<&str>) -> Seq<Seq<char>> {
    Seq::new(slices.len(), |i: int| slices[i]@)
}

/// A run is no longer than the text it starts.
pub proof fn lemma_run_length_bounded(s: Seq<char>)
    ensures
        run_length(s) <= s.len(),
    decreases s.len(),
{
    if s.len() > 0 && ascii_alphanumeric(s[0]) {
        lemma_run_length_bounded(s.drop_first());
    }
}

/// Every element that the grammar reads is well-formed: it holds no abstraction and no
/// empty group.
pub proof fn lemma_parsed_element_well_formed(s: Seq<char>, from: int)
    ensures
        parse_element(s, from) matches Some((node, _)) ==> node_well_formed(node),
    decreases s.len() - from, 0nat,
{
    if item_end(s, from) is None && 0 <= from < s.len() && s[from] == '(' {
        lemma_parsed_elements_well_formed(s, from + 1);
        let body = parse_elements(s, from + 1).0;
        assert forall|i: int| 0 <= i < body.len() implies node_well_formed(#[trigger] body[i]) by {}
    }
}

/// Every element of a sequence that the grammar reads is well-formed.
pub proof fn lemma_parsed_elements_well_formed(s: Seq<char>, from: int)
    ensures
        forall|i: int|
            0 <= i < parse_elements(s, from).0.len() ==> node_well_formed(
                #[trigger] parse_elements(s, from).0[i],
            ),
    decreases s.len() - from, 1nat,
{
    lemma_parsed_element_well_formed(s, from);
    if let Some((node, end)) = parse_element(s, from) {
        if from < end <= s.len() {
            lemma_parsed_elements_well_formed(s, end);
            let rest = parse_elements(s, end).0;
            assert forall|i: int| 0 <= i < parse_elements(s, from).0.len() implies node_well_formed(
                #[trigger] parse_elements(s, from).0[i],
            ) by {
                if i > 0 {
                    assert(parse_elements(s, from).0[i] == rest[i - 1]);
                }
            }
        }
    }
}

/// The body of every definition that the grammar reads is well-formed, so that the
/// elimination of its parameters has a result, which holds no abstraction.
pub proof fn lemma_parsed_definition_eliminates(s: Seq<char>)
    ensures
        parse_definition(s) matches Some(definition) ==> {
            &&& well_formed(definition.body)
            &&& eliminate(definition) is Some
            &&& well_formed(eliminate(definition)->0.body)
            &&& !term_has_abstraction(eliminate(definition)->0.body)
        },
{
    if let Some(definition) = parse_definition(s) {
        let declaration = parse_declaration(s)->0;
        let start = declaration.2;
        lemma_parsed_elements_well_formed(s, start);
        lemma_canonicalize_well_formed(parse_elements(s, start).0);
        lemma_eliminate_well_formed(definition);
    }
}

/// The source text of a node: an atom that is a single letter or digit is written as it
/// is, any other atom between braces, and a group between parentheses.
pub open spec fn spell_node(n: Node) -> Seq<char>
    decreases n,
{
    match n {
        Node::Atom(name) => if name.len() == 1 && unicode_alphanumeric(name[0]) {
            name
        } else {
            seq!['{'] + name + seq!['}']
        },
        Node::Group(body) => seq!['('] + spell(body) + seq![')'],
        Node::Abstraction(_, _) => Seq::empty(),
    }
}

/// The source text of a term: the texts of its nodes, one directly after the other.
pub open spec fn spell(t: Term) -> Seq<char>
    decreases t,
{
    if t.len() == 0 {
        Seq::empty()
    } else {
        spell_node(t[0]) + spell(t.drop_first())
    }
}

/// The nodes that source text can spell: an atom that is a single letter or digit or
/// whose name is made of ASCII letters and digits, and a group of such nodes that is
/// not empty.
pub open spec fn node_spellable(n: Node) -> bool
    decreases n,
{
    match n {
        Node::Atom(name) => {
            ||| name.len() == 1 && unicode_alphanumeric(name[0])
            ||| name.len() >= 1 && forall|i: int|
                0 <= i < name.len() ==> ascii_alphanumeric(#[trigger] name[i])
        },
        Node::Group(body) => body.len() >= 1 && spellable(body),
        Node::Abstraction(_, _) => false,
    }
}

/// Whether source text can spell every node of the term.
pub open spec fn spellable(t: Term) -> bool
    decreases t,
{
    forall|i: int| 0 <= i < t.len() ==> node_spellable(#[trigger] t[i])
}

/// The brackets of the grammar are no letters and no digits.
pub open spec fn brackets_are_punctuation() -> bool {
    !unicode_alphanumeric('{') && !unicode_alphanumeric('(') && !unicode_alphanumeric(')')
}

/// A run of ASCII letters and digits that ends before something else has its own length.
pub proof fn lemma_run_length_exact(s: Seq<char>, k: int)
    requires
        0 <= k <= s.len(),
        forall|i: int| 0 <= i < k ==> ascii_alphanumeric(#[trigger] s[i]),
        k < s.len() ==> !ascii_alphanumeric(s[k]),
    ensures
        run_length(s) == k,
    decreases k,
{
    if k > 0 {
        assert(ascii_alphanumeric(s[0]));
        let rest = s.drop_first();
        assert forall|i: int| 0 <= i < k - 1 implies ascii_alphanumeric(#[trigger] rest[i]) by {
            assert(rest[i] == s[i + 1]);
        }
        lemma_run_length_exact(rest, k - 1);
    }
}

/// Reading gives back the node that was spelled: where the text of a node stands at
/// `from`, the grammar reads that node there, up to the end of its text.
pub proof fn lemma_read_spelled_node(n: Node, s: Seq<char>, from: int)
    requires
        brackets_are_punctuation(),
        node_spellable(n),
        0 <= from,
        from + spell_node(n).len() <= s.len(),
        s.subrange(from, from + spell_node(n).len()) == spell_node(n),
    ensures
        spell_node(n).len() >= 1,
        parse_element(s, from) == Some((n, from + spell_node(n).len())),
    decreases n, 0nat,
{
    let text = spell_node(n);
    let end = from + text.len();
    assert forall|i: int| 0 <= i < text.len() implies s[from + i] == #[trigger] text[i] by {
        assert(s.subrange(from, end)[i] == s[from + i]);
    }
    match n {
        Node::Atom(name) => {
            if name.len() == 1 && unicode_alphanumeric(name[0]) {
                assert(s[from] == text[0]);
                assert(s.subrange(from, from + 1) =~= name);
            } else {
                assert(s[from] == text[0]);
                assert(text[0] == '{');
                let rest = s.subrange(from + 1, s.len() as int);
                let k = name.len() as int;
                assert forall|i: int| 0 <= i < k implies ascii_alphanumeric(#[trigger] rest[i]) by {
                    assert(rest[i] == s[from + 1 + i]);
                    assert(text[1 + i] == name[i]);
                    assert(ascii_alphanumeric(name[i]));
                }
                assert(rest[k] == s[from + 1 + k]);
                assert(text[1 + k] == '}');
                lemma_run_length_exact(rest, k);
                assert(s.subrange(from + 1, from + 1 + k) =~= name) by {
                    assert forall|i: int| 0 <= i < k implies s[from + 1 + i] == name[i] by {
                        assert(text[1 + i] == name[i]);
                    }
                }
            }
        },
        Node::Group(body) => {
            assert(s[from] == text[0]);
            assert(text[0] == '(');
            let inner = spell(body);
            assert(s.subrange(from + 1, from + 1 + inner.len()) =~= inner) by {
                assert forall|i: int| 0 <= i < inner.len() implies s[from + 1 + i] == inner[i] by {
                    assert(text[1 + i] == inner[i]);
                }
            }
            assert(s[from + 1 + inner.len()] == ')') by {
                assert(text[1 + inner.len() as int] == ')');
            }
            lemma_read_spelled(body, s, from + 1);
        },
        Node::Abstraction(_, _) => {},
    }
}

/// Reading gives back the term that was spelled: where the text of a term stands at
/// `from`, followed by the end of the text or by a closing parenthesis, the grammar reads
/// the nodes of that term there, and stops at the end of its text.
pub proof fn lemma_read_spelled(t: Term, s: Seq<char>, from: int)
    requires
        brackets_are_punctuation(),
        spellable(t),
        0 <= from,
        from + spell(t).len() <= s.len(),
        s.subrange(from, from + spell(t).len()) == spell(t),
        from + spell(t).len() == s.len() || s[from + spell(t).len()] == ')',
    ensures
        parse_elements(s, from) == (t, from + spell(t).len()),
    decreases t, 1nat,
{
    let text = spell(t);
    if t.len() == 0 {
        assert(parse_elements(s, from).0 =~= t);
    } else {
        let first = spell_node(t[0]);
        let rest = spell(t.drop_first());
        assert(node_spellable(t[0]));
        assert(text == first + rest);
        assert forall|i: int| 0 <= i < text.len() implies s[from + i] == #[trigger] text[i] by {
            assert(s.subrange(from, from + text.len())[i] == s[from + i]);
        }
        assert(s.subrange(from, from + first.len()) =~= first) by {
            assert forall|i: int| 0 <= i < first.len() implies s[from + i] == first[i] by {
                assert(text[i] == first[i]);
            }
        }
        lemma_read_spelled_node(t[0], s, from);
        let next = from + first.len();
        assert(s.subrange(next, next + rest.len()) =~= rest) by {
            assert forall|i: int| 0 <= i < rest.len() implies s[next + i] == rest[i] by {
                assert(text[first.len() as int + i] == rest[i]);
            }
        }
        assert forall|i: int| 0 <= i < t.drop_first().len() implies node_spellable(
            #[trigger] t.drop_first()[i],
        ) by {
            assert(t.drop_first()[i] == t[i + 1]);
        }
        lemma_read_spelled(t.drop_first(), s, next);
        assert(seq![t[0]] + t.drop_first() =~= t);
    }
}

/// Reading is the inverse of spelling: the text of a term that can be spelled, and that
/// is not empty, reads as that term.
pub proof fn lemma_parse_spelled(t: Term)
    requires
        brackets_are_punctuation(),
        spellable(t),
        t.len() >= 1,
    ensures
        parse_expression(spell(t)) == Some(t),
{
    let text = spell(t);
    assert(text.subrange(0, text.len() as int) =~= text);
    lemma_read_spelled(t, text, 0);
}

/// The source text of a list of names, one directly after the other.
pub open spec fn spell_names(names: Seq<Seq<char>>) -> Seq<char>
    decreases names.len(),
{
    if names.len() == 0 {
        Seq::empty()
    } else {
        spell_node(Node::Atom(names[0])) + spell_names(names.drop_first())
    }
}

/// The source text of a definition: the name, the parameters, `=`, and the body.
pub open spec fn spell_definition(definition: Definition) -> Seq<char> {
    spell_node(Node::Atom(definition.name)) + spell_names(definition.params) + seq!['=']
        + spell(definition.body)
}

/// Reading gives back the names that were spelled: where their text stands at `from`,
/// followed by `=`, the grammar reads those names there, and stops at the `=`.
pub proof fn lemma_read_spelled_names(names: Seq<Seq<char>>, s: Seq<char>, from: int)
    requires
        brackets_are_punctuation(),
        !unicode_alphanumeric('='),
        forall|i: int| 0 <= i < names.len() ==> node_spellable(Node::Atom(#[trigger] names[i])),
        0 <= from,
        from + spell_names(names).len() < s.len(),
        s.subrange(from, from + spell_names(names).len()) == spell_names(names),
        s[from + spell_names(names).len()] == '=',
    ensures
        parse_items(s, from) == (names, from + spell_names(names).len()),
    decreases names.len(),
{
    let text = spell_names(names);
    if names.len() == 0 {
        assert(parse_items(s, from).0 =~= names);
    } else {
        let first = spell_node(Node::Atom(names[0]));
        let rest = spell_names(names.drop_first());
        assert(text == first + rest);
        assert forall|i: int| 0 <= i < text.len() implies s[from + i] == #[trigger] text[i] by {
            assert(s.subrange(from, from + text.len())[i] == s[from + i]);
        }
        assert(s.subrange(from, from + first.len()) =~= first) by {
            assert forall|i: int| 0 <= i < first.len() implies s[from + i] == first[i] by {
                assert(text[i] == first[i]);
            }
        }
        lemma_read_spelled_node(Node::Atom(names[0]), s, from);
        let next = from + first.len();
        assert(s.subrange(next, next + rest.len()) =~= rest) by {
            assert forall|i: int| 0 <= i < rest.len() implies s[next + i] == rest[i] by {
                assert(text[first.len() as int + i] == rest[i]);
            }
        }
        assert forall|i: int| 0 <= i < names.drop_first().len() implies node_spellable(
            Node::Atom(#[trigger] names.drop_first()[i]),
        ) by {
            assert(names.drop_first()[i] == names[i + 1]);
        }
        lemma_read_spelled_names(names.drop_first(), s, next);
        assert(seq![names[0]] + names.drop_first() =~= names);
    }
}

/// Reading is the inverse of spelling for definitions too: the text of a definition
/// whose name, parameters and body can be spelled reads as that definition, with its
/// body in canonical form.
pub proof fn lemma_parse_spelled_definition(definition: Definition)
    requires
        brackets_are_punctuation(),
        !unicode_alphanumeric('='),
        node_spellable(Node::Atom(definition.name)),
        forall|i: int|
            0 <= i < definition.params.len() ==> node_spellable(
                Node::Atom(#[trigger] definition.params[i]),
            ),
        spellable(definition.body),
        definition.body.len() >= 1,
    ensures
        parse_definition(spell_definition(definition)) == Some(
            Definition {
                name: definition.name,
                params: definition.params,
                body: canonicalize(definition.body),
            },
        ),
{
    let s = spell_definition(definition);
    let name = spell_node(Node::Atom(definition.name));
    let params = spell_names(definition.params);
    let body = spell(definition.body);
    let after_name = name.len() as int;
    let after_params = after_name + params.len();
    assert(s.subrange(0, after_name) =~= name);
    lemma_read_spelled_node(Node::Atom(definition.name), s, 0);
    assert(s.subrange(after_name, after_params) =~= params);
    assert(s[after_params] == '=');
    lemma_read_spelled_names(definition.params, s, after_name);
    assert(s.subrange(after_params + 1, s.len() as int) =~= body);
    lemma_read_spelled(definition.body, s, after_params + 1);
}

/// The item that begins at character `from` of the text: its name and where it ends.
fn item_at<'a>(text: &'a str, length: usize, from: usize) -> (res: Option<(&'a str, usize)>)
    requires
        length == text@.len(),
        from <= length,
    ensures
        match item_end(text@, from as int) {
            Some(end) => res matches Some((name, stop)) && stop == end && from < end <= length
                && name@ == item_name(text@, from as int, end),
            None => res is None,
        },
{
    if from >= length {
        return None;
    }
    let first = text.get_char(from);
    if is_alphanumeric(first) {
        Some((text.substring_char(from, from + 1), from + 1))
    } else if first == '{' {
        let rest = text.substring_char(from + 1, length);
        proof {
            lemma_run_length_bounded(rest@);
        }
        match alphanumeric_prefix(rest) {
            Some(taken) => {
                let run = taken.unicode_len();
                if from + 1 + run < length && text.get_char(from + 1 + run) == '}' {
                    Some((text.substring_char(from + 1, from + 1 + run), from + run + 2))
                } else {
                    None
                }
            },
            None => None,
        }
    } else {
        None
    }
}

/// The element that begins at character `from` of the text, and where it ends.
fn element_at(text: &str, length: usize, from: usize) -> (res: Option<(Element, usize)>)
    requires
        length == text@.len(),
        from <= length,
    ensures
        match parse_element(text@, from as int) {
            Some((node, end)) => res matches Some((element, stop)) && stop == end && from < end
                <= length && element@ == node,
            None => res is None,
        },
    decreases length - from, 0nat,
{
    match item_at(text, length, from) {
        Some((name, end)) => Some((Element::Item(name.to_owned()), end)),
        None => {
            if from < length && text.get_char(from) == '(' {
                let (body, stop) = elements_at(text, length, from + 1);
                if body.0.len() >= 1 && stop < length && text.get_char(stop) == ')' {
                    Some((Element::SubExpression(body), stop + 1))
                } else {
                    None
                }
            } else {
                None
            }
        },
    }
}

/// The longest sequence of elements that begins at character `from` of the text, and
/// where it ends.
fn elements_at(text: &str, length: usize, from: usize) -> (res: (Expression, usize))
    requires
        length == text@.len(),
        from <= length,
    ensures
        res.0@ == parse_elements(text@, from as int).0,
        res.1 == parse_elements(text@, from as int).1,
        from <= res.1 <= length,
    decreases length - from, 1nat,
{
    let mut elements: Vec<Element> = Vec::new();
    let mut position: usize = from;
    let ghost mut found: Term = Seq::empty();
    loop
        invariant
            length == text@.len(),
            from <= position <= length,
            found == nodes(elements@),
            parse_elements(text@, from as int) == (
                found + parse_elements(text@, position as int).0,
                parse_elements(text@, position as int).1,
            ),
        decreases length - position,
    {
        match element_at(text, length, position) {
            Some((element, end)) => {
                proof {
                    let rest = parse_elements(text@, end as int).0;
                    assert(found + (seq![element@] + rest) =~= found.push(element@) + rest);
                    found = found.push(element@);
                }
                elements.push(element);
                assert(found =~= nodes(elements@));
                position = end;
            },
            None => {
                let res = Expression(elements);
                assert(res@ =~= found);
                assert(found + Seq::<Node>::empty() =~= found);
                return (res, position);
            },
        }
    }
}

/// The names of the longest sequence of items that begins at character `from` of the
/// text, and where it ends.
fn items_at<'a>(text: &'a str, length: usize, from: usize) -> (res: (Vec<&'a str>, usize))
    requires
        length == text@.len(),
        from <= length,
    ensures
        slice_names(res.0@) == parse_items(text@, from as int).0,
        res.1 == parse_items(text@, from as int).1,
        from <= res.1 <= length,
{
    let mut items: Vec<&'a str> = Vec::new();
    let mut position: usize = from;
    let ghost mut found: Seq<Seq<char>> = Seq::empty();
    loop
        invariant
            length == text@.len(),
            from <= position <= length,
            found == slice_names(items@),
            parse_items(text@, from as int) == (
                found + parse_items(text@, position as int).0,
                parse_items(text@, position as int).1,
            ),
        decreases length - position,
    {
        match item_at(text, length, position) {
            Some((name, end)) => {
                proof {
                    let rest = parse_items(text@, end as int).0;
                    assert(found + (seq![name@] + rest) =~= found.push(name@) + rest);
                    found = found.push(name@);
                }
                items.push(name);
                assert(found =~= slice_names(items@));
                position = end;
            },
            None => {
                assert(found + Seq::<Seq<char>>::empty() =~= found);
                return (items, position);
            },
        }
    }
}

/// Reads the longest sequence of elements at the start of the text, which must hold at
/// least one, and hands it out with the rest of the text.
pub fn expression(s: &str) -> (res: Result<(&str, Vec<Element>), CombinatorError>)
    ensures
        parse_elements(s@, 0).0.len() == 0 ==> res is Err && res->Err_0 == CombinatorError::Parse,
        parse_elements(s@, 0).0.len() > 0 ==> (res matches Ok((rest, elements)) && nodes(elements@)
            == parse_elements(s@, 0).0 && rest@ == s@.subrange(
            parse_elements(s@, 0).1,
            s@.len() as int,
        )),
{
    let length = s.unicode_len();
    let (body, stop) = elements_at(s, length, 0);
    if body.0.len() == 0 {
        return Err(CombinatorError::Parse);
    }
    let elements = body.0;
    assert(nodes(elements@) =~= body@);
    Ok((s.substring_char(stop, length), elements))
}

/// Reads a declaration `name x1 ... xn =` at the start of the text, and hands out the
/// name and the parameters with the rest of the text.
pub fn declaration(s: &str) -> (res: Result<(&str, (&str, Vec<&str>)), CombinatorError>)
    ensures
        match parse_declaration(s@) {
            Some((name, params, start)) => res matches Ok((rest, (found, arguments))) && found@
                == name && slice_names(arguments@) == params && rest@ == s@.subrange(
                start,
                s@.len() as int,
            ),
            None => res is Err && res->Err_0 == CombinatorError::Parse,
        },
{
    let length = s.unicode_len();
    match item_at(s, length, 0) {
        Some((name, end)) => {
            let (arguments, stop) = items_at(s, length, end);
            if stop < length && s.get_char(stop) == '=' {
                Ok((s.substring_char(stop + 1, length), (name, arguments)))
            } else {
                Err(CombinatorError::Parse)
            }
        },
        None => Err(CombinatorError::Parse),
    }
}

impl Expression {
    /// Reads an expression that takes up the whole text.
    pub fn parse(s: &str) -> (res: Result<Expression, CombinatorError>)
        ensures
            match parse_expression(s@) {
                Some(body) => res is Ok && res->Ok_0@ == body,
                None => res is Err && res->Err_0 == CombinatorError::Parse,
            },
    {
        let length = s.unicode_len();
        let (body, stop) = elements_at(s, length, 0);
        if body.0.len() >= 1 && stop == length {
            Ok(body)
        } else {
            Err(CombinatorError::Parse)
        }
    }
}

impl Combinator {
    /// Reads a definition `name x1 ... xn = body` that takes up the whole text, and
    /// brings its body to canonical form.
    pub fn parse(s: &str) -> (res: Result<Combinator, CombinatorError>)
        ensures
            match parse_definition(s@) {
                Some(definition) => res is Ok && res->Ok_0@ == definition,
                None => res is Err && res->Err_0 == CombinatorError::Parse,
            },
    {
        let length = s.unicode_len();
        match item_at(s, length, 0) {
            Some((name, end)) => {
                let (arguments, stop) = items_at(s, length, end);
                if stop < length && s.get_char(stop) == '=' {
                    let (body, last) = elements_at(s, length, stop + 1);
                    if body.0.len() >= 1 && last == length {
                        let mut args: Vec<String> = Vec::new();
                        let mut i: usize = 0;
                        while i < arguments.len()
                            invariant
                                i <= arguments.len(),
                                args.len() == i,
                                forall|j: int| 0 <= j < i ==> args[j]@ == arguments[j]@,
                            decreases arguments.len() - i,
                        {
                            args.push(arguments[i].to_owned());
                            i += 1;
                        }
                        assert(names(args@) =~= slice_names(arguments@));
                        Ok(
                            Combinator {
                                name: name.to_owned(),
                                args,
                                expression: canonical_expression(&body),
                            },
                        )
                    } else {
                        Err(CombinatorError::Parse)
                    }
                } else {
                    Err(CombinatorError::Parse)
                }
            },
            None => Err(CombinatorError::Parse),
        }
    }
}

/// A run takes up the whole text exactly where the text is made of ASCII letters and
/// digits alone.
pub proof fn lemma_run_length_whole(s: Seq<char>)
    ensures
        run_length(s) == s.len() <==> forall|i: int|
            0 <= i < s.len() ==> ascii_alphanumeric(#[trigger] s[i]),
    decreases s.len(),
{
    lemma_run_length_bounded(s);
    if s.len() > 0 {
        let rest = s.drop_first();
        lemma_run_length_whole(rest);
        lemma_run_length_bounded(rest);
        if forall|i: int| 0 <= i < s.len() ==> ascii_alphanumeric(#[trigger] s[i]) {
            assert(ascii_alphanumeric(s[0]));
            assert forall|i: int| 0 <= i < rest.len() implies ascii_alphanumeric(
                #[trigger] rest[i],
            ) by {
                assert(rest[i] == s[i + 1]);
            }
        }
        if run_length(s) == s.len() {
            assert forall|i: int| 0 <= i < s.len() implies ascii_alphanumeric(#[trigger] s[i]) by {
                if i > 0 {
                    assert(rest[i - 1] == s[i]);
                }
            }
        }
    }
}

/// Whether the brackets of the grammar are no letters and no digits.
fn brackets_plain() -> (res: bool)
    ensures
        res == brackets_are_punctuation(),
{
    !is_alphanumeric('{') && !is_alphanumeric('(') && !is_alphanumeric(')')
}

/// Appends the source text of a name, where it can be spelled.
fn write_name(name: &String, out: &mut String) -> (res: bool)
    ensures
        res == node_spellable(Node::Atom(name@)),
        res ==> final(out)@ == old(out)@ + spell_node(Node::Atom(name@)),
{
    let text = name.as_str();
    let length = text.unicode_len();
    if length == 1 && is_alphanumeric(text.get_char(0)) {
        out.append(text);
        return true;
    }
    proof {
        lemma_run_length_whole(text@);
        lemma_run_length_bounded(text@);
    }
    match alphanumeric_prefix(text) {
        Some(taken) => {
            if taken.unicode_len() == length {
                proof {
                    reveal_strlit("{");
                    reveal_strlit("}");
                }
                assert("{"@ =~= seq!['{']);
                assert("}"@ =~= seq!['}']);
                out.append("{");
                out.append(text);
                out.append("}");
                assert(out@ =~= old(out)@ + spell_node(Node::Atom(name@)));
                true
            } else {
                false
            }
        },
        None => false,
    }
}

/// Appends the source text of an element, where it can be spelled.
fn write_source_element(element: &Element, out: &mut String) -> (res: bool)
    ensures
        res == node_spellable(element@),
        res ==> final(out)@ == old(out)@ + spell_node(element@),
    decreases element, 0nat,
{
    match element {
        Element::Item(name) => write_name(name, out),
        Element::SubExpression(body) => {
            if body.0.len() == 0 {
                return false;
            }
            proof {
                reveal_strlit("(");
                reveal_strlit(")");
            }
            assert("("@ =~= seq!['(']);
            assert(")"@ =~= seq![')']);
            out.append("(");
            if !write_source_expression(body, out) {
                return false;
            }
            out.append(")");
            assert(out@ =~= old(out)@ + spell_node(element@));
            true
        },
        Element::Abstraction(_, _) => false,
    }
}

/// Appends the source text of an expression, where it can be spelled.
fn write_source_expression(expression: &Expression, out: &mut String) -> (res: bool)
    ensures
        res == spellable(expression@),
        res ==> final(out)@ == old(out)@ + spell(expression@),
    decreases expression, 1nat,
{
    let mut i: usize = 0;
    assert(expression@.subrange(0, expression@.len() as int) =~= expression@);
    while i < expression.0.len()
        invariant
            i <= expression.0.len(),
            expression@.len() == expression.0.len(),
            forall|j: int| 0 <= j < i ==> node_spellable(expression@[j]),
            old(out)@ + spell(expression@) == out@ + spell(
                expression@.subrange(i as int, expression@.len() as int),
            ),
        decreases expression.0.len() - i,
    {
        let ghost rest = expression@.subrange(i as int, expression@.len() as int);
        assert(rest[0] == expression.0[i as int]@);
        assert(rest.drop_first() =~= expression@.subrange(i + 1, expression@.len() as int));
        let ghost before = out@;
        if !write_source_element(&expression.0[i], out) {
            assert(!node_spellable(expression@[i as int]));
            return false;
        }
        assert(before + spell(rest) =~= out@ + spell(rest.drop_first()));
        i += 1;
    }
    assert(out@ + Seq::<char>::empty() =~= out@);
    true
}

impl Expression {
    /// The source text of the expression: text that reads back as this expression.
    /// There is none where the expression is empty, or holds an abstraction, an empty
    /// sub-expression or a name that the grammar cannot spell.
    pub fn to_source(&self) -> (res: Option<String>)
        ensures
            res is Some <==> brackets_are_punctuation() && spellable(self@) && self@.len() >= 1,
            res matches Some(text) ==> text@ == spell(self@) && parse_expression(text@) == Some(
                self@,
            ),
    {
        if self.0.len() == 0 || !brackets_plain() {
            return None;
        }
        let mut out = String::new();
        if !write_source_expression(self, &mut out) {
            return None;
        }
        assert(out@ =~= spell(self@));
        proof {
            lemma_parse_spelled(self@);
        }
        Some(out)
    }
}

/// Whether definitions can be spelled: the name, each parameter and the body can, and the
/// body is not empty.
pub open spec fn definition_spellable(definition: Definition) -> bool {
    &&& node_spellable(Node::Atom(definition.name))
    &&& forall|i: int|
        0 <= i < definition.params.len() ==> node_spellable(
            Node::Atom(#[trigger] definition.params[i]),
        )
    &&& spellable(definition.body)
    &&& definition.body.len() >= 1
}

impl Combinator {
    /// The source text of the definition: text that reads back as this definition, with
    /// its body in canonical form. There is none where the name, a parameter or the body
    /// cannot be spelled.
    pub fn to_source(&self) -> (res: Option<String>)
        ensures
            res is Some <==> brackets_are_punctuation() && !unicode_alphanumeric('=')
                && definition_spellable(self@),
            res matches Some(text) ==> text@ == spell_definition(self@) && parse_definition(text@)
                == Some(
                Definition {
                    name: self@.name,
                    params: self@.params,
                    body: canonicalize(self@.body),
                },
            ),
    {
        if self.expression.0.len() == 0 || !brackets_plain() || is_alphanumeric('=') {
            return None;
        }
        let mut out = String::new();
        if !write_name(&self.name, &mut out) {
            return None;
        }
        let mut i: usize = 0;
        assert(self@.params.subrange(0, self@.params.len() as int) =~= self@.params);
        while i < self.args.len()
            invariant
                i <= self.args.len(),
                self@.params.len() == self.args.len(),
                forall|j: int| 0 <= j < i ==> node_spellable(Node::Atom(self@.params[j])),
                spell_node(Node::Atom(self@.name)) + spell_names(self@.params) == out@
                    + spell_names(self@.params.subrange(i as int, self@.params.len() as int)),
            decreases self.args.len() - i,
        {
            let ghost rest = self@.params.subrange(i as int, self@.params.len() as int);
            assert(rest[0] == self.args[i as int]@);
            assert(rest.drop_first() =~= self@.params.subrange(
                i + 1,
                self@.params.len() as int,
            ));
            let ghost before = out@;
            if !write_name(&self.args[i], &mut out) {
                assert(!node_spellable(Node::Atom(self@.params[i as int])));
                return None;
            }
            assert(before + spell_names(rest) =~= out@ + spell_names(rest.drop_first()));
            i += 1;
        }
        assert(out@ + Seq::<char>::empty() =~= out@);
        proof {
            reveal_strlit("=");
        }
        assert("="@ =~= seq!['=']);
        out.append("=");
        if !write_source_expression(&self.expression, &mut out) {
            return None;
        }
        assert(out@ =~= spell_definition(self@));
        proof {
            lemma_parse_spelled_definition(self@);
        }
        Some(out)
    }
}

} // verus!
