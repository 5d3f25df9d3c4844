use combinator_parser::{
    AbstractionElimination, Combinator, CombinatorError, Element, Expression,
};

fn item(name: &str) -> Element {
    Element::Item(name.to_string())
}

fn items(names: &[&str]) -> Expression {
    Expression(names.iter().map(|name| item(name)).collect())
}

fn group(elements: Vec<Element>) -> Element {
    Element::SubExpression(Expression(elements))
}

fn normal(expression: Expression, fuel: u64) -> Result<Expression, CombinatorError> {
    let mut expression = expression;
    expression.reduce_expression(fuel).map(|_| expression)
}

#[test]
fn i_returns_its_argument() {
    assert_eq!(normal(items(&["I", "x"]), 1), Ok(items(&["x"])));
}

#[test]
fn k_returns_its_first_argument() {
    assert_eq!(normal(items(&["K", "x", "y"]), 1), Ok(items(&["x"])));
}

#[test]
fn s_k_k_is_the_identity() {
    assert_eq!(normal(items(&["S", "K", "K", "x"]), 2), Ok(items(&["x"])));
    assert_eq!(normal(items(&["S", "K", "K", "K"]), 2), Ok(items(&["K"])));
}

#[test]
fn s_distributes_its_third_argument() {
    assert_eq!(
        normal(items(&["S", "a", "b", "c"]), 10),
        Ok(Expression(vec![
            item("a"),
            item("c"),
            group(vec![item("b"), item("c")]),
        ]))
    );
}

#[test]
fn b_composes() {
    assert_eq!(
        normal(items(&["B", "f", "g", "x"]), 10),
        Ok(Expression(vec![item("f"), group(vec![item("g"), item("x")])]))
    );
}

#[test]
fn c_swaps_its_arguments() {
    assert_eq!(normal(items(&["C", "f", "x", "y"]), 10), Ok(items(&["f", "y", "x"])));
}

#[test]
fn arguments_after_the_redex_stay_in_place() {
    assert_eq!(normal(items(&["K", "a", "b", "c", "d"]), 10), Ok(items(&["a", "c", "d"])));
    assert_eq!(normal(items(&["I", "a", "b"]), 10), Ok(items(&["a", "b"])));
    assert_eq!(
        normal(items(&["C", "f", "x", "y", "z"]), 10),
        Ok(items(&["f", "y", "x", "z"]))
    );
}

#[test]
fn too_few_arguments_is_a_normal_form() {
    assert_eq!(normal(items(&["I"]), 0), Ok(items(&["I"])));
    assert_eq!(normal(items(&["K", "a"]), 0), Ok(items(&["K", "a"])));
    assert_eq!(normal(items(&["S", "a", "b"]), 0), Ok(items(&["S", "a", "b"])));
    assert_eq!(normal(items(&["B", "a", "b"]), 0), Ok(items(&["B", "a", "b"])));
    assert_eq!(normal(items(&["C", "a", "b"]), 0), Ok(items(&["C", "a", "b"])));
}

#[test]
fn groups_are_reduced_after_the_head() {
    let term = Expression(vec![item("a"), group(vec![item("I"), item("b")])]);
    assert_eq!(normal(term, 10), Ok(items(&["a", "b"])));
}

#[test]
fn redexes_in_several_groups_reduce() {
    let term = Expression(vec![
        item("a"),
        group(vec![item("K"), item("b"), item("c")]),
        group(vec![item("d"), group(vec![item("I"), item("e"), item("f")])]),
    ]);
    assert_eq!(
        normal(term, 10),
        Ok(Expression(vec![
            item("a"),
            item("b"),
            group(vec![item("d"), group(vec![item("e"), item("f")])]),
        ]))
    );
}

#[test]
fn discarded_argument_is_never_reduced() {
    let omega = group(vec![
        item("S"),
        item("I"),
        item("I"),
        group(vec![item("S"), item("I"), item("I")]),
    ]);
    let term = Expression(vec![item("K"), item("a"), omega]);
    assert_eq!(normal(term, 1), Ok(items(&["a"])));
}

#[test]
fn self_application_of_an_atom() {
    assert_eq!(normal(items(&["S", "I", "I", "a"]), 3), Ok(items(&["a", "a"])));
}

#[test]
fn fuel_counts_the_rewriting_passes() {
    assert_eq!(
        normal(items(&["S", "I", "I", "a"]), 2),
        Err(CombinatorError::OutOfFuel)
    );
    assert_eq!(normal(items(&["I", "x"]), 0), Err(CombinatorError::OutOfFuel));
}

#[test]
fn divergence_runs_out_of_fuel_and_keeps_the_term() {
    let half = group(vec![item("S"), item("I"), item("I")]);
    let mut omega = Expression(vec![item("S"), item("I"), item("I"), half]);
    let before = omega.clone();
    assert_eq!(omega.reduce_expression(200), Err(CombinatorError::OutOfFuel));
    assert_eq!(omega, before);
}

#[test]
fn abstraction_met_in_reduction_is_a_violation() {
    let pending = Element::Abstraction(items(&["x"]), "x".to_string());
    let mut term = Expression(vec![item("a"), pending.clone()]);
    let before = term.clone();
    assert_eq!(
        term.reduce_expression(10),
        Err(CombinatorError::InvariantViolation)
    );
    assert_eq!(term, before);
    let mut discarded = Expression(vec![item("K"), item("a"), pending]);
    assert_eq!(discarded.reduce_expression(10), Ok(()));
    assert_eq!(discarded, items(&["a"]));
}

#[test]
fn canonical_grouping_exposes_the_head() {
    let term = Expression(vec![group(vec![item("K"), item("a")]), item("b")]);
    assert_eq!(normal(term, 10), Ok(items(&["a"])));
}

#[test]
fn element_reduction_works_on_the_body_of_a_group() {
    let mut element = group(vec![item("I"), item("a"), item("b")]);
    assert_eq!(element.reduce_expression(10), Ok(()));
    assert_eq!(element, group(vec![item("a"), item("b")]));
    let mut atom = item("I");
    assert_eq!(atom.reduce_expression(0), Ok(()));
    assert_eq!(atom, item("I"));
    let mut pending = Element::Abstraction(items(&["x"]), "x".to_string());
    assert_eq!(
        pending.reduce_expression(10),
        Err(CombinatorError::InvariantViolation)
    );
}

#[test]
fn definition_reduction_keeps_name_and_parameters() {
    let mut combinator = Combinator {
        name: "F".to_string(),
        args: vec!["x".to_string()],
        expression: items(&["K", "a", "b"]),
    };
    assert_eq!(combinator.reduce_expression(5), Ok(()));
    assert_eq!(combinator.name, "F");
    assert_eq!(combinator.args, vec!["x".to_string()]);
    assert_eq!(combinator.expression, items(&["a"]));
}

#[test]
fn apply_appends_the_arguments_and_reduces() {
    let k = items(&["K"]);
    assert_eq!(k.apply(items(&["a", "b"]), 5), Ok(items(&["a"])));
    assert_eq!(k.apply(items(&["a"]), 5), Ok(items(&["K", "a"])));
    let combinator = Combinator {
        name: "F".to_string(),
        args: vec![],
        expression: items(&["C", "I"]),
    };
    let applied = combinator.apply("G", items(&["a", "b"]), 5).unwrap();
    assert_eq!(applied.name, "G");
    assert!(applied.args.is_empty());
    assert_eq!(applied.expression, items(&["b", "a"]));
    assert_eq!(
        combinator.apply("G", items(&["a", "b"]), 1),
        Err(CombinatorError::OutOfFuel)
    );
}

#[test]
fn nested_leading_groups_do_not_hide_the_head() {
    let term = Expression(vec![
        group(vec![group(vec![item("K"), item("x")]), item("a")]),
        item("b"),
    ]);
    assert!(!term.is_canonical());
    assert_eq!(normal(term, 10), Ok(items(&["x", "b"])));
    let parsed = Expression::parse("((Ka)b)").unwrap();
    assert_eq!(normal(parsed, 10), Ok(items(&["a"])));
    let deeper = Expression::parse("(((((Ia))))b)").unwrap();
    assert_eq!(normal(deeper, 10), Ok(items(&["a", "b"])));
}

#[test]
fn result_of_reduction_has_canonical_grouping_and_is_stable() {
    let term = Expression::parse("((S(Ka)((Ib)))(c))((d))").unwrap();
    let result = normal(term, 100).unwrap();
    assert!(result.is_canonical());
    assert_eq!(
        result,
        Expression(vec![item("a"), group(vec![item("b"), item("c")]), item("d")])
    );
    assert_eq!(normal(result.clone(), 0), Ok(result));
}
