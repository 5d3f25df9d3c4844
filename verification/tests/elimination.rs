use combinator_parser::{
    AbstractionElimination, Combinator, CombinatorError, Element, Expression,
};

fn item(name: &str) -> Element {
    Element::Item(name.to_string())
}

fn items(names: &[&str]) -> Expression {
    Expression(names.iter().map(|name| item(name)).collect())
}

fn group(elements: Vec<Element>) -> Element {
    Element::SubExpression(Expression(elements))
}

fn abstraction(body: Vec<Element>, variable: &str) -> Element {
    Element::Abstraction(Expression(body), variable.to_string())
}

fn definition(name: &str, args: &[&str], expression: Expression) -> Combinator {
    Combinator {
        name: name.to_string(),
        args: args.iter().map(|arg| arg.to_string()).collect(),
        expression,
    }
}

fn eliminated(args: &[&str], expression: Expression) -> Expression {
    let mut combinator = definition("F", args, expression);
    assert_eq!(combinator.abstraction_elimination(), Ok(()));
    assert!(combinator.args.is_empty());
    assert!(!combinator.contains_abstraction());
    combinator.expression
}

fn step(element: Element) -> Element {
    let mut element = element;
    assert_eq!(element.abstraction_substitution(), Ok(()));
    element
}

#[test]
fn second_projection_eliminates_to_k_i() {
    let mut t = definition("T", &["x", "y"], items(&["y"]));
    assert_eq!(t.abstraction_elimination(), Ok(()));
    assert!(t.args.is_empty());
    assert_eq!(t.expression, items(&["K", "I"]));
    assert_eq!(t.name, "T");
    assert_eq!(t.to_string(), "T = K I");
}

#[test]
fn rule_for_the_variable_itself_gives_i() {
    assert_eq!(step(abstraction(vec![item("x")], "x")), item("I"));
}

#[test]
fn rule_for_another_atom_gives_k() {
    assert_eq!(
        step(abstraction(vec![item("a")], "x")),
        group(vec![item("K"), item("a")])
    );
}

#[test]
fn rule_for_a_single_group_gives_k() {
    assert_eq!(
        step(abstraction(vec![group(vec![item("a"), item("b")])], "x")),
        group(vec![item("K"), group(vec![item("a"), item("b")])])
    );
}

#[test]
fn rule_with_variable_on_both_sides_gives_s() {
    assert_eq!(
        step(abstraction(vec![item("x"), item("a"), item("x")], "x")),
        group(vec![
            item("S"),
            abstraction(vec![item("x"), item("a")], "x"),
            abstraction(vec![item("x")], "x"),
        ])
    );
}

#[test]
fn rule_with_variable_in_prefix_only_gives_c() {
    assert_eq!(
        step(abstraction(vec![item("x"), item("a"), item("b")], "x")),
        group(vec![
            item("C"),
            abstraction(vec![item("x"), item("a")], "x"),
            item("b"),
        ])
    );
}

#[test]
fn rule_with_bare_variable_last_contracts() {
    assert_eq!(
        step(abstraction(vec![item("a"), item("b"), item("x")], "x")),
        group(vec![item("a"), item("b")])
    );
}

#[test]
fn rule_with_variable_inside_last_gives_b() {
    let last = group(vec![item("b"), item("x")]);
    assert_eq!(
        step(abstraction(vec![item("a"), last.clone()], "x")),
        group(vec![
            item("B"),
            group(vec![item("a")]),
            abstraction(vec![last], "x"),
        ])
    );
}

#[test]
fn rule_without_the_variable_gives_k_of_the_whole() {
    assert_eq!(
        step(abstraction(vec![item("a"), item("b")], "x")),
        group(vec![item("K"), group(vec![item("a"), item("b")])])
    );
}

#[test]
fn s_is_chosen_before_the_contraction() {
    assert_eq!(
        step(abstraction(vec![item("x"), item("x")], "x")),
        group(vec![
            item("S"),
            abstraction(vec![item("x")], "x"),
            abstraction(vec![item("x")], "x"),
        ])
    );
}

#[test]
fn step_leaves_items_and_rewrites_inside_groups() {
    assert_eq!(step(item("a")), item("a"));
    assert_eq!(
        step(group(vec![item("a"), abstraction(vec![item("x")], "x")])),
        group(vec![item("a"), item("I")])
    );
}

#[test]
fn new_abstractions_wait_for_the_next_step() {
    let mut expression = Expression(vec![abstraction(vec![item("x"), item("x")], "x")]);
    assert_eq!(expression.abstraction_substitution(), Ok(()));
    assert!(expression.contains_abstraction());
    expression.reduce_parens();
    assert_eq!(
        expression,
        Expression(vec![
            item("S"),
            abstraction(vec![item("x")], "x"),
            abstraction(vec![item("x")], "x"),
        ])
    );
    assert_eq!(expression.abstraction_substitution(), Ok(()));
    assert_eq!(expression, items(&["S", "I", "I"]));
    assert!(!expression.contains_abstraction());
}

#[test]
fn empty_abstraction_body_is_a_violation() {
    let mut element = abstraction(vec![], "x");
    let before = element.clone();
    assert_eq!(
        element.abstraction_substitution(),
        Err(CombinatorError::InvariantViolation)
    );
    assert_eq!(element, before);
}

#[test]
fn nested_single_abstraction_is_a_violation() {
    let mut expression = Expression(vec![
        item("a"),
        abstraction(vec![abstraction(vec![item("x")], "x")], "y"),
    ]);
    let before = expression.clone();
    assert_eq!(
        expression.abstraction_substitution(),
        Err(CombinatorError::InvariantViolation)
    );
    assert_eq!(expression, before);
}

#[test]
fn elimination_of_an_empty_body_fails_and_keeps_the_definition() {
    let mut combinator = definition("F", &["x"], Expression(vec![]));
    let before = combinator.clone();
    assert_eq!(
        combinator.abstraction_elimination(),
        Err(CombinatorError::InvariantViolation)
    );
    assert_eq!(combinator, before);
}

#[test]
fn self_application_eliminates_to_s_i_i() {
    assert_eq!(eliminated(&["x"], items(&["x", "x"])), items(&["S", "I", "I"]));
}

#[test]
fn flip_eliminates_to_c_i() {
    assert_eq!(eliminated(&["x"], items(&["x", "a"])), items(&["C", "I", "a"]));
}

#[test]
fn trailing_variable_is_contracted_away() {
    assert_eq!(eliminated(&["x"], items(&["a", "x"])), items(&["a"]));
}

#[test]
fn composition_eliminates_to_b() {
    let body = Expression(vec![item("a"), group(vec![item("b"), item("x")])]);
    assert_eq!(eliminated(&["x"], body), items(&["B", "a", "b"]));
    let body = Expression(vec![item("f"), group(vec![item("g"), item("x")])]);
    assert_eq!(eliminated(&["f", "g", "x"], body), items(&["B"]));
}

#[test]
fn constant_application_eliminates_to_k() {
    assert_eq!(
        eliminated(&["x"], items(&["a", "b"])),
        Expression(vec![item("K"), group(vec![item("a"), item("b")])])
    );
}

#[test]
fn first_projection_eliminates_to_k() {
    assert_eq!(eliminated(&["f", "g"], items(&["f"])), items(&["K"]));
}

#[test]
fn pair_eliminates_to_expected_combinators() {
    // {Pair} x y b = b x y
    assert_eq!(
        eliminated(&["x", "y", "b"], items(&["b", "x", "y"])),
        Expression(vec![
            item("B"),
            item("C"),
            group(vec![item("C"), item("I")]),
        ])
    );
}

#[test]
fn elimination_without_parameters_changes_nothing() {
    let mut combinator = definition("F", &[], items(&["S", "K"]));
    assert_eq!(combinator.abstraction_elimination(), Ok(()));
    assert_eq!(combinator, definition("F", &[], items(&["S", "K"])));
}

#[test]
fn add_abstraction_wraps_the_body_with_the_last_parameter() {
    let mut combinator = definition("F", &["x", "y"], items(&["y", "x"]));
    assert_eq!(combinator.add_abstraction(), Some(()));
    assert_eq!(combinator.args, vec!["x".to_string()]);
    assert_eq!(
        combinator.expression,
        Expression(vec![abstraction(vec![item("y"), item("x")], "y")])
    );
    assert!(combinator.contains_abstraction());
}

#[test]
fn add_abstraction_without_parameters_gives_none() {
    let mut combinator = definition("F", &[], items(&["a"]));
    assert_eq!(combinator.add_abstraction(), None);
    assert_eq!(combinator, definition("F", &[], items(&["a"])));
}

#[test]
fn contains_finds_the_variable_at_any_depth() {
    let expression = Expression(vec![
        item("a"),
        group(vec![item("b"), abstraction(vec![item("x")], "y")]),
    ]);
    assert!(expression.contains(&item("x")));
    assert!(expression.contains(&item("a")));
    assert!(!expression.contains(&item("y")));
    assert!(!expression.contains(&group(vec![item("a")])));
    assert!(item("x").contains(&item("x")));
    assert!(!item("x").contains(&item("X")));
    assert!(definition("F", &[], items(&["a"])).contains(&item("a")));
}

#[test]
fn contains_abstraction_looks_through_groups() {
    assert!(!items(&["a", "b"]).contains_abstraction());
    assert!(Expression(vec![group(vec![abstraction(vec![item("a")], "x")])])
        .contains_abstraction());
    assert!(abstraction(vec![], "x").contains_abstraction());
    assert!(!item("a").contains_abstraction());
}

#[test]
fn eliminated_definition_agrees_with_direct_substitution() {
    // F x y = y (x y), applied to a and b
    let body = Expression(vec![item("y"), group(vec![item("x"), item("y")])]);
    let mut f = definition("F", &["x", "y"], body);
    assert_eq!(f.abstraction_elimination(), Ok(()));
    let through_combinators = f.apply("R", items(&["a", "b"]), 1000).unwrap();
    assert_eq!(through_combinators.name, "R");
    let mut direct = Expression(vec![item("b"), group(vec![item("a"), item("b")])]);
    assert_eq!(direct.reduce_expression(1000), Ok(()));
    assert_eq!(through_combinators.expression, direct);
    assert_eq!(
        direct,
        Expression(vec![item("b"), group(vec![item("a"), item("b")])])
    );
}

#[test]
fn eliminated_definition_agrees_when_the_body_reduces() {
    // F x y = K y x, applied to a and b: both sides reduce to b
    let mut f = definition("F", &["x", "y"], items(&["K", "y", "x"]));
    assert_eq!(f.abstraction_elimination(), Ok(()));
    let through_combinators = f.expression.apply(items(&["a", "b"]), 1000).unwrap();
    let mut direct = items(&["K", "b", "a"]);
    assert_eq!(direct.reduce_expression(1000), Ok(()));
    assert_eq!(through_combinators, direct);
    assert_eq!(direct, items(&["b"]));
}

#[test]
fn apply_refuses_a_definition_with_parameters() {
    let f = definition("F", &["x"], items(&["x"]));
    assert_eq!(
        f.apply("G", items(&["a"]), 10),
        Err(CombinatorError::UnboundParameters)
    );
}

#[test]
fn rule_for_a_single_group_that_holds_the_variable_is_a_violation() {
    let mut element = abstraction(vec![group(vec![item("a"), item("x")])], "x");
    let before = element.clone();
    assert_eq!(
        element.abstraction_substitution(),
        Err(CombinatorError::InvariantViolation)
    );
    assert_eq!(element, before);
}

#[test]
fn elimination_regroups_the_body_before_the_rule_is_applied() {
    // F x = ((a x)), built without canonical grouping
    let body = Expression(vec![group(vec![group(vec![item("a"), item("x")])])]);
    assert_eq!(eliminated(&["x"], body), items(&["a"]));
    // F x = (x) (x)
    let body = Expression(vec![group(vec![item("x")]), group(vec![item("x")])]);
    assert_eq!(eliminated(&["x"], body), items(&["S", "I", "I"]));
}

#[test]
fn eliminated_body_has_canonical_grouping() {
    let body = Expression(vec![
        group(vec![group(vec![item("y")])]),
        group(vec![item("x"), group(vec![group(vec![item("y"), item("z")])])]),
    ]);
    let result = eliminated(&["x", "y", "z"], body);
    assert!(result.is_canonical());
    assert!(result.is_well_formed());
}
