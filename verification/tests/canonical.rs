use combinator_parser::{AbstractionElimination, Element, Expression};

fn item(name: &str) -> Element {
    Element::Item(name.to_string())
}

fn group(elements: Vec<Element>) -> Element {
    Element::SubExpression(Expression(elements))
}

fn canonical(elements: Vec<Element>) -> Expression {
    let mut expression = Expression(elements);
    expression.reduce_parens();
    expression
}

#[test]
fn leading_group_is_spliced() {
    let got = canonical(vec![group(vec![item("a"), item("b")]), item("c")]);
    assert_eq!(got, Expression(vec![item("a"), item("b"), item("c")]));
}

#[test]
fn single_element_group_is_unwrapped() {
    let got = canonical(vec![item("a"), group(vec![item("b")]), item("c")]);
    assert_eq!(got, Expression(vec![item("a"), item("b"), item("c")]));
}

#[test]
fn inner_groups_are_canonicalised() {
    let got = canonical(vec![
        item("a"),
        group(vec![group(vec![item("b"), item("c")]), group(vec![item("d")])]),
    ]);
    assert_eq!(
        got,
        Expression(vec![item("a"), group(vec![item("b"), item("c"), item("d")])])
    );
}

#[test]
fn abstraction_body_is_canonicalised_and_variable_kept() {
    let got = canonical(vec![Element::Abstraction(
        Expression(vec![group(vec![item("a"), item("x")])]),
        "x".to_string(),
    )]);
    assert_eq!(
        got,
        Expression(vec![Element::Abstraction(
            Expression(vec![item("a"), item("x")]),
            "x".to_string()
        )])
    );
}

#[test]
fn non_leading_group_of_two_stays() {
    let input = vec![item("a"), group(vec![item("b"), item("c")])];
    assert_eq!(canonical(input.clone()), Expression(input));
}

#[test]
fn empty_expression_stays_empty() {
    assert_eq!(canonical(vec![]), Expression(vec![]));
}

#[test]
fn leading_empty_group_disappears() {
    let got = canonical(vec![group(vec![]), item("a")]);
    assert_eq!(got, Expression(vec![item("a")]));
}

#[test]
fn second_pass_changes_nothing_on_canonical_result() {
    let mut expression = Expression(vec![
        group(vec![item("a"), group(vec![item("b")])]),
        group(vec![item("c"), item("d")]),
    ]);
    expression.reduce_parens();
    let once = expression.clone();
    expression.reduce_parens();
    assert_eq!(expression, once);
    assert_eq!(
        once,
        Expression(vec![item("a"), item("b"), group(vec![item("c"), item("d")])])
    );
}

#[test]
fn nested_leading_groups_are_spliced_in_one_call() {
    let mut expression = Expression(vec![group(vec![
        group(vec![item("a"), item("b")]),
        item("c"),
    ])]);
    expression.reduce_parens();
    assert_eq!(expression, Expression(vec![item("a"), item("b"), item("c")]));
    expression.reduce_parens();
    assert_eq!(expression, Expression(vec![item("a"), item("b"), item("c")]));
}

#[test]
fn group_around_a_leading_group_is_unwrapped_and_spliced() {
    let mut expression = Expression::from(vec![
        Element::from(vec![Element::from(vec!["a", "b"])]),
        "c".into(),
    ]);
    expression.reduce_parens();
    assert_eq!(
        expression,
        Expression::from(vec!["a".into(), "b".into(), "c".into()])
    );
    let settled = expression.clone();
    expression.reduce_parens();
    assert_eq!(expression, settled);
}

#[test]
fn a_second_call_changes_nothing() {
    let samples = vec![
        Expression(vec![item("a")]),
        Expression(vec![group(vec![group(vec![group(vec![item("a")])])])]),
        Expression(vec![item("a"), group(vec![group(vec![group(vec![item("b"), item("c")])])])]),
        Expression(vec![
            group(vec![group(vec![item("a"), group(vec![item("b")])]), item("c")]),
            group(vec![group(vec![]), item("d")]),
            group(vec![]),
        ]),
        Expression(vec![Element::Abstraction(
            Expression(vec![group(vec![group(vec![item("a"), item("x")])])]),
            "x".to_string(),
        )]),
        Expression(vec![group(vec![]), group(vec![group(vec![item("a")]), item("b")])]),
    ];
    for sample in samples {
        let mut once = sample.clone();
        once.reduce_parens();
        assert!(once.is_canonical(), "{:?}", sample);
        let mut twice = once.clone();
        twice.reduce_parens();
        assert_eq!(twice, once, "{:?}", sample);
    }
}

#[test]
fn element_that_wraps_a_single_element_gives_way_to_it() {
    let mut element = group(vec![group(vec![item("a")])]);
    element.reduce_parens();
    assert_eq!(element, item("a"));
    let mut pending = Element::Abstraction(
        Expression(vec![group(vec![group(vec![item("a"), item("x")])])]),
        "x".to_string(),
    );
    pending.reduce_parens();
    assert_eq!(
        pending,
        Element::Abstraction(Expression(vec![item("a"), item("x")]), "x".to_string())
    );
}

#[test]
fn element_reduce_parens_keeps_an_item() {
    let mut element = item("a");
    element.reduce_parens();
    assert_eq!(element, item("a"));
}

#[test]
fn element_reduce_parens_works_on_the_body() {
    let mut element = group(vec![group(vec![item("a"), item("b")]), item("c")]);
    element.reduce_parens();
    assert_eq!(element, group(vec![item("a"), item("b"), item("c")]));
}

#[test]
fn structural_equality_and_clone_agree() {
    let a = Expression(vec![item("a"), group(vec![item("b"), item("c")])]);
    let b = a.clone();
    assert!(a == b);
    assert!(a != Expression(vec![item("a")]));
    assert!(a != Expression(vec![item("a"), group(vec![item("b"), item("d")])]));
    assert!(item("a") == item("a"));
    assert!(item("a") != item("A"));
    assert!(item("a") != group(vec![item("a")]));
    let pending = Element::Abstraction(Expression(vec![item("a")]), "x".to_string());
    assert!(pending == pending.clone());
    assert!(pending != Element::Abstraction(Expression(vec![item("a")]), "y".to_string()));
    assert!(pending != Element::Abstraction(Expression(vec![item("b")]), "x".to_string()));
}

#[test]
fn conversions_build_the_expected_values() {
    let from_str: Element = "ab".into();
    assert_eq!(from_str, item("ab"));
    let from_names: Element = vec!["a", "b"].into();
    assert_eq!(from_names, group(vec![item("a"), item("b")]));
    let from_elements: Element = vec![item("a")].into();
    assert_eq!(from_elements, group(vec![item("a")]));
    let expression: Expression = vec![item("a"), item("b")].into();
    assert_eq!(expression, Expression(vec![item("a"), item("b")]));
    let from_expression: Element = expression.clone().into();
    assert_eq!(from_expression, group(vec![item("a"), item("b")]));
    let elements: Vec<Element> = expression.into();
    assert_eq!(elements, vec![item("a"), item("b")]);
}

#[test]
fn canonical_grouping_is_recognised() {
    assert!(Expression(vec![]).is_canonical());
    assert!(Expression(vec![item("a")]).is_canonical());
    assert!(Expression(vec![item("a"), group(vec![item("b"), item("c")])]).is_canonical());
    assert!(Expression(vec![item("a"), group(vec![])]).is_canonical());
    assert!(!Expression(vec![group(vec![item("a"), item("b")]), item("c")]).is_canonical());
    assert!(!Expression(vec![item("a"), group(vec![item("b")])]).is_canonical());
    assert!(!Expression(vec![
        item("a"),
        group(vec![item("b"), group(vec![group(vec![item("c"), item("d")]), item("e")])]),
    ])
    .is_canonical());
    let pending = |body: Vec<Element>| Element::Abstraction(Expression(body), "x".to_string());
    assert!(Expression(vec![pending(vec![item("a"), item("x")])]).is_canonical());
    assert!(!Expression(vec![pending(vec![group(vec![item("a"), item("x")])])]).is_canonical());
}

#[test]
fn deeply_nested_grouping_is_canonical_after_one_call() {
    let mut expression = Expression(vec![group(vec![
        group(vec![group(vec![item("a"), item("b")]), item("c")]),
        group(vec![group(vec![group(vec![item("d")])])]),
    ])]);
    assert!(!expression.is_canonical());
    expression.reduce_parens();
    assert!(expression.is_canonical());
    assert_eq!(
        expression,
        Expression(vec![item("a"), item("b"), item("c"), item("d")])
    );
    let settled = expression.clone();
    expression.reduce_parens();
    assert_eq!(expression, settled);
}

#[test]
fn well_formed_expressions_are_recognised() {
    assert!(Expression(vec![item("a")]).is_well_formed());
    assert!(Expression(vec![group(vec![group(vec![item("a")])]), item("b")]).is_well_formed());
    assert!(!Expression(vec![]).is_well_formed());
    assert!(!Expression(vec![item("a"), group(vec![])]).is_well_formed());
    assert!(!Expression(vec![item("a"), group(vec![item("b"), group(vec![])])]).is_well_formed());
    let pending = Element::Abstraction(Expression(vec![item("a")]), "x".to_string());
    assert!(!Expression(vec![item("a"), group(vec![pending])]).is_well_formed());
}
