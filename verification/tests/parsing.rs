use combinator_parser::parse::{declaration, expression};
use combinator_parser::{Combinator, CombinatorError, Element, Expression};

fn item(name: &str) -> Element {
    Element::Item(name.to_string())
}

fn items(names: &[&str]) -> Expression {
    Expression(names.iter().map(|name| item(name)).collect())
}

fn group(elements: Vec<Element>) -> Element {
    Element::SubExpression(Expression(elements))
}

fn nom_item(s: &str) -> nom::IResult<&str, &str> {
    nom::branch::alt((
        nom::combinator::recognize(nom::character::complete::satisfy(|c| c.is_alphanumeric())),
        nom::sequence::delimited(
            nom::character::complete::char('{'),
            nom::character::complete::alphanumeric1,
            nom::character::complete::char('}'),
        ),
    ))(s)
}

fn nom_element(s: &str) -> nom::IResult<&str, Element> {
    nom::branch::alt((
        nom::combinator::map(nom_item, |name| Element::Item(name.to_string())),
        nom::combinator::map(
            nom::sequence::delimited(
                nom::character::complete::char('('),
                nom_expression,
                nom::character::complete::char(')'),
            ),
            |elements| Element::SubExpression(Expression(elements)),
        ),
    ))(s)
}

fn nom_expression(s: &str) -> nom::IResult<&str, Vec<Element>> {
    nom::multi::many1(nom_element)(s)
}

fn nom_declaration(s: &str) -> nom::IResult<&str, (&str, Vec<&str>)> {
    nom::sequence::terminated(
        nom::sequence::tuple((nom_item, nom::multi::many0(nom_item))),
        nom::character::complete::char('='),
    )(s)
}

const SAMPLES: [&str; 40] = [
    "",
    "a",
    "ab",
    "SII",
    "a(bc)",
    "(ab)c",
    "((ab)c)",
    "(((a)))",
    "a(b(c(d)))e",
    "{True}ab",
    "{True}{False}",
    "a{b}c",
    "{}",
    "{",
    "}",
    "{a",
    "{a}}",
    "{a b}",
    "{a_b}",
    "{\u{e9}}",
    "\u{e9}",
    "\u{3bb}x",
    "x\u{3bb}",
    "\u{663}",
    "(",
    ")",
    "()",
    "(a",
    "a)",
    "a()",
    "(a)(b)",
    "a b",
    " a",
    "a=b",
    "=",
    "a+b",
    "{0}",
    "0(1{2}3)",
    "{ApplyPrime}anfx",
    "{IsZero}nx(f(a({Prev}n)fx))",
];

#[test]
fn expression_agrees_with_the_combinator_grammar() {
    for sample in SAMPLES {
        let expected = nom_expression(sample).ok();
        let got = expression(sample).ok();
        assert_eq!(got, expected, "on {:?}", sample);
    }
}

#[test]
fn declaration_agrees_with_the_combinator_grammar() {
    let heads = [
        "", "a", "ab", "{True}fg", "{a", "{}", "(a)", "a(b)", "\u{3bb}x", "{\u{e9}}x", "a b",
    ];
    let tails = ["", "=", "=a", "==", "=a=b", "=(ab)c", " =a"];
    for head in heads {
        for tail in tails {
            let sample = format!("{}{}", head, tail);
            let expected = nom_declaration(&sample).ok();
            let got = declaration(&sample).ok();
            assert_eq!(got, expected, "on {:?}", sample);
        }
    }
}

#[test]
fn whole_expression_agrees_with_the_combinator_grammar() {
    for sample in SAMPLES {
        let expected = nom::combinator::all_consuming(nom_expression)(sample)
            .ok()
            .map(|(_, elements)| Expression(elements));
        assert_eq!(Expression::parse(sample).ok(), expected, "on {:?}", sample);
    }
}

#[test]
fn parse_reads_items_and_groups() {
    assert_eq!(Expression::parse("SII"), Ok(items(&["S", "I", "I"])));
    assert_eq!(
        Expression::parse("a(bc)"),
        Ok(Expression(vec![item("a"), group(vec![item("b"), item("c")])]))
    );
    assert_eq!(
        Expression::parse("(ab)c"),
        Ok(Expression(vec![group(vec![item("a"), item("b")]), item("c")]))
    );
    assert_eq!(
        Expression::parse("((a))"),
        Ok(Expression(vec![group(vec![group(vec![item("a")])])]))
    );
}

#[test]
fn braces_delimit_a_longer_name() {
    assert_eq!(Expression::parse("{True}ab"), Ok(items(&["True", "a", "b"])));
    assert_eq!(Expression::parse("a{b}c"), Ok(items(&["a", "b", "c"])));
    assert_eq!(Expression::parse("{a1B2}"), Ok(items(&["a1B2"])));
}

#[test]
fn a_single_item_may_be_any_letter_or_digit() {
    assert_eq!(Expression::parse("\u{3bb}7"), Ok(items(&["\u{3bb}", "7"])));
    assert_eq!(Expression::parse("\u{e9}"), Ok(items(&["\u{e9}"])));
}

#[test]
fn a_braced_name_holds_ascii_letters_and_digits_only() {
    assert_eq!(Expression::parse("{\u{e9}}"), Err(CombinatorError::Parse));
    assert_eq!(Expression::parse("{a\u{3bb}}"), Err(CombinatorError::Parse));
    assert_eq!(Expression::parse("{a_b}"), Err(CombinatorError::Parse));
    assert_eq!(Expression::parse("{}"), Err(CombinatorError::Parse));
    assert_eq!(Expression::parse("{a"), Err(CombinatorError::Parse));
}

#[test]
fn malformed_expressions_are_parse_errors() {
    for text in ["", "(", ")", "()", "(a", "a)", "a()", "a b", "a=b", "a+b", "_"] {
        assert_eq!(Expression::parse(text), Err(CombinatorError::Parse), "on {:?}", text);
    }
}

#[test]
fn expression_hands_out_the_rest() {
    assert_eq!(expression("ab)c"), Ok((")c", vec![item("a"), item("b")])));
    assert_eq!(expression("a"), Ok(("", vec![item("a")])));
    assert_eq!(
        expression("(a\u{3bb})\u{3bb} x"),
        Ok((" x", vec![group(vec![item("a"), item("\u{3bb}")]), item("\u{3bb}")]))
    );
    assert_eq!(expression(")"), Err(CombinatorError::Parse));
    assert_eq!(expression(""), Err(CombinatorError::Parse));
}

#[test]
fn declaration_hands_out_name_parameters_and_rest() {
    assert_eq!(declaration("Xab=ba"), Ok(("ba", ("X", vec!["a", "b"]))));
    assert_eq!(declaration("{True}fg=f"), Ok(("f", ("True", vec!["f", "g"]))));
    assert_eq!(declaration("M=SII"), Ok(("SII", ("M", vec![]))));
    assert_eq!(declaration("M="), Ok(("", ("M", vec![]))));
    assert_eq!(declaration("M"), Err(CombinatorError::Parse));
    assert_eq!(declaration("=a"), Err(CombinatorError::Parse));
    assert_eq!(declaration("M(a)=a"), Err(CombinatorError::Parse));
    assert_eq!(declaration(""), Err(CombinatorError::Parse));
}

#[test]
fn definition_is_read_in_canonical_form() {
    let truth = Combinator::parse("{True}fg=f").unwrap();
    assert_eq!(truth.name, "True");
    assert_eq!(truth.args, vec!["f".to_string(), "g".to_string()]);
    assert_eq!(truth.expression, items(&["f"]));
    let y = Combinator::parse("Y=BM(CBM)").unwrap();
    assert_eq!(y.name, "Y");
    assert!(y.args.is_empty());
    assert_eq!(
        y.expression,
        Expression(vec![
            item("B"),
            item("M"),
            group(vec![item("C"), item("B"), item("M")]),
        ])
    );
    let nested = Combinator::parse("X=((ab)c)").unwrap();
    assert_eq!(nested.expression, items(&["a", "b", "c"]));
    let wrapped = Combinator::parse("Xy=a((y))").unwrap();
    assert_eq!(wrapped.expression, items(&["a", "y"]));
    let deep = Combinator::parse("Xy=(((ay)))(b((c))(de))").unwrap();
    assert_eq!(
        deep.expression,
        Expression(vec![
            item("a"),
            item("y"),
            group(vec![item("b"), item("c"), group(vec![item("d"), item("e")])]),
        ])
    );
    assert!(deep.expression.is_canonical());
}

#[test]
fn malformed_definitions_are_parse_errors() {
    for text in ["", "X", "X=", "=a", "X=a)", "X=(a", "X a=a", "Xa=a b", "X=a=b", "(X)=a", "{X=a"] {
        assert_eq!(Combinator::parse(text), Err(CombinatorError::Parse), "on {:?}", text);
    }
}

#[test]
fn source_text_reads_back_as_the_expression() {
    let samples = [
        "a",
        "SII",
        "a(bc)",
        "(ab)c",
        "((a))",
        "{True}ab",
        "a{b1C}c",
        "\u{3bb}(x\u{e9})",
        "{IsZero}nx(f(a({Prev}n)fx))",
    ];
    for sample in samples {
        let parsed = Expression::parse(sample).unwrap();
        let text = parsed.to_source().unwrap();
        assert_eq!(Expression::parse(&text), Ok(parsed), "on {:?}", sample);
    }
    assert_eq!(
        Expression::parse("a({b}(cd))").unwrap().to_source(),
        Some("a(b(cd))".to_string())
    );
    assert_eq!(items(&["ab", "c", "7", "\u{3bb}"]).to_source(), Some("{ab}c7\u{3bb}".to_string()));
}

#[test]
fn there_is_no_source_text_for_what_the_grammar_cannot_spell() {
    assert_eq!(Expression(vec![]).to_source(), None);
    assert_eq!(items(&["a_b"]).to_source(), None);
    assert_eq!(items(&[""]).to_source(), None);
    assert_eq!(items(&["_"]).to_source(), None);
    assert_eq!(items(&["a", "\u{3bb}\u{3bb}"]).to_source(), None);
    assert_eq!(Expression(vec![item("a"), group(vec![])]).to_source(), None);
    let pending = Element::Abstraction(items(&["a"]), "x".to_string());
    assert_eq!(Expression(vec![item("a"), group(vec![pending])]).to_source(), None);
}

#[test]
fn source_text_reads_back_as_the_definition_in_canonical_form() {
    let truth = Combinator {
        name: "True".to_string(),
        args: vec!["f".to_string(), "g".to_string()],
        expression: items(&["f"]),
    };
    assert_eq!(truth.to_source(), Some("{True}fg=f".to_string()));
    assert_eq!(Combinator::parse("{True}fg=f"), Ok(truth));
    let nested = Combinator {
        name: "X".to_string(),
        args: vec![],
        expression: Expression(vec![group(vec![group(vec![item("a"), item("b")]), item("c")])]),
    };
    let text = nested.to_source().unwrap();
    assert_eq!(text, "X=((ab)c)");
    let read = Combinator::parse(&text).unwrap();
    assert_eq!(read.name, "X");
    assert_eq!(read.expression, items(&["a", "b", "c"]));
    let unspellable = Combinator {
        name: "X".to_string(),
        args: vec!["a b".to_string()],
        expression: items(&["a"]),
    };
    assert_eq!(unspellable.to_source(), None);
    let empty = Combinator { name: "X".to_string(), args: vec![], expression: Expression(vec![]) };
    assert_eq!(empty.to_source(), None);
}
