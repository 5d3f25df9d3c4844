use combinator_parser::{Combinator, Element, Expression};

fn item(name: &str) -> Element {
    Element::Item(name.to_string())
}

fn group(elements: Vec<Element>) -> Element {
    Element::SubExpression(Expression(elements))
}

#[test]
fn item_renders_as_its_name() {
    assert_eq!(item("a").to_string(), "a");
    assert_eq!(item("True").to_string(), "True");
    assert_eq!(item("").to_string(), "");
}

#[test]
fn group_renders_between_parentheses() {
    assert_eq!(group(vec![item("a"), item("b")]).to_string(), "(a b)");
    assert_eq!(group(vec![item("a")]).to_string(), "(a)");
    assert_eq!(group(vec![]).to_string(), "()");
    assert_eq!(
        group(vec![item("a"), group(vec![item("b"), group(vec![item("c"), item("d")])])])
            .to_string(),
        "(a (b (c d)))"
    );
}

#[test]
fn abstraction_renders_with_its_variable() {
    let pending = Element::Abstraction(
        Expression(vec![item("a"), group(vec![item("b"), item("x")])]),
        "x".to_string(),
    );
    assert_eq!(pending.to_string(), "[a (b x)]_x");
    let nested = Element::Abstraction(Expression(vec![pending]), "yy".to_string());
    assert_eq!(nested.to_string(), "[[a (b x)]_x]_yy");
}

#[test]
fn expression_renders_with_single_spaces() {
    assert_eq!(Expression(vec![]).to_string(), "");
    assert_eq!(Expression(vec![item("a")]).to_string(), "a");
    assert_eq!(
        Expression(vec![item("S"), group(vec![item("K"), item("I")]), item("Next")]).to_string(),
        "S (K I) Next"
    );
}

#[test]
fn definition_renders_name_parameters_and_body() {
    let combinator = Combinator {
        name: "T".to_string(),
        args: vec!["x".to_string(), "y".to_string()],
        expression: Expression(vec![item("y")]),
    };
    assert_eq!(combinator.to_string(), "T x y = y");
    let point_free = Combinator {
        name: "True".to_string(),
        args: vec![],
        expression: Expression(vec![item("K")]),
    };
    assert_eq!(point_free.to_string(), "True = K");
    let empty = Combinator { name: "E".to_string(), args: vec![], expression: Expression(vec![]) };
    assert_eq!(empty.to_string(), "E = ");
}
