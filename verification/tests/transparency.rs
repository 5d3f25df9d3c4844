use combinator_parser::{AbstractionElimination, Combinator, Element, Expression};

fn item(name: &str) -> Element {
    Element::Item(name.to_string())
}

fn items(names: &[&str]) -> Expression {
    Expression(names.iter().map(|name| item(name)).collect())
}

fn group(elements: Vec<Element>) -> Element {
    Element::SubExpression(Expression(elements))
}

fn point_free(args: &[&str], expression: Expression) -> Expression {
    let mut combinator = Combinator {
        name: "F".to_string(),
        args: args.iter().map(|arg| arg.to_string()).collect(),
        expression,
    };
    assert_eq!(combinator.abstraction_elimination(), Ok(()));
    combinator.expression
}

fn normal(expression: Expression) -> Expression {
    let mut expression = expression;
    assert_eq!(expression.reduce_expression(100_000), Ok(()));
    expression
}

fn agree(args: &[&str], body: Expression, atoms: &[&str], instance: Expression) {
    let applied = point_free(args, body).apply(items(atoms), 100_000).unwrap();
    assert_eq!(applied, normal(instance));
}

#[test]
fn abstraction_is_transparent_on_projections() {
    agree(&["x", "y"], items(&["x"]), &["a", "b"], items(&["a"]));
    agree(&["x", "y"], items(&["y"]), &["a", "b"], items(&["b"]));
    agree(&["x", "y", "z"], items(&["y"]), &["a", "b", "c"], items(&["b"]));
}

#[test]
fn abstraction_is_transparent_on_nested_applications() {
    // F x y z = x z (y (z x))
    let body = Expression(vec![
        item("x"),
        item("z"),
        group(vec![item("y"), group(vec![item("z"), item("x")])]),
    ]);
    let instance = Expression(vec![
        item("a"),
        item("c"),
        group(vec![item("b"), group(vec![item("c"), item("a")])]),
    ]);
    agree(&["x", "y", "z"], body, &["a", "b", "c"], instance);
}

#[test]
fn abstraction_is_transparent_when_the_body_holds_redexes() {
    // F x y = S K y (K x y)
    let body = Expression(vec![
        item("S"),
        item("K"),
        item("y"),
        group(vec![item("K"), item("x"), item("y")]),
    ]);
    let instance = Expression(vec![
        item("S"),
        item("K"),
        item("b"),
        group(vec![item("K"), item("a"), item("b")]),
    ]);
    agree(&["x", "y"], body, &["a", "b"], instance.clone());
    assert_eq!(normal(instance), items(&["a"]));
}

#[test]
fn abstraction_is_transparent_when_arguments_are_primitives_or_parameters() {
    // F x y = y x applied to K and I, and to y and x
    agree(&["x", "y"], items(&["y", "x"]), &["K", "I"], items(&["I", "K"]));
    agree(&["x", "y"], items(&["y", "x"]), &["y", "x"], items(&["x", "y"]));
}

#[test]
fn later_parameter_of_the_same_name_binds() {
    // F x x = x applied to a and b
    agree(&["x", "x"], items(&["x"]), &["a", "b"], items(&["b"]));
}

#[test]
fn parameter_named_like_a_primitive_is_captured() {
    // F K y = K applied to a and b: the K that stands for the constant function after
    // the elimination of y is taken for the parameter K.
    let applied = point_free(&["K", "y"], items(&["K"])).apply(items(&["a", "b"]), 1000);
    assert_eq!(applied, Ok(items(&["a", "a", "b"])));
    assert_eq!(normal(items(&["a"])), items(&["a"]));
}

#[test]
fn abstraction_is_transparent_on_bodies_without_canonical_grouping() {
    // F y = (a y), F y = ((a y)) and F x y = ((x)) ((y (x))), as they stand
    let body = Expression(vec![group(vec![item("a"), item("y")])]);
    assert_eq!(point_free(&["y"], body.clone()), items(&["a"]));
    agree(&["y"], body, &["b"], items(&["a", "b"]));
    let body = Expression(vec![group(vec![group(vec![item("a"), item("y")])])]);
    assert_eq!(point_free(&["y"], body.clone()), items(&["a"]));
    agree(&["y"], body, &["b"], items(&["a", "b"]));
    let body = Expression(vec![
        group(vec![group(vec![item("x")])]),
        group(vec![group(vec![item("y"), group(vec![item("x")])])]),
    ]);
    let instance = Expression(vec![item("a"), group(vec![item("b"), item("a")])]);
    agree(&["x", "y"], body, &["a", "b"], instance);
}

#[test]
fn parsed_definition_with_nested_parentheses_eliminates_rightly() {
    let mut f = Combinator::parse("Fx=((ax))").unwrap();
    assert_eq!(f.expression, items(&["a", "x"]));
    assert_eq!(f.abstraction_elimination(), Ok(()));
    assert_eq!(f.expression, items(&["a"]));
}

#[test]
fn more_fuel_gives_the_same_normal_form() {
    let term = items(&["S", "I", "I", "a"]);
    let mut first = term.clone();
    let mut second = term.clone();
    assert_eq!(first.reduce_expression(3), Ok(()));
    assert_eq!(second.reduce_expression(3000), Ok(()));
    assert_eq!(first, second);
    let mut again = first.clone();
    assert_eq!(again.reduce_expression(0), Ok(()));
    assert_eq!(again, first);
}
