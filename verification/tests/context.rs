use combinator_parser::{
    AbstractionElimination, Combinator, CombinatorContext, CombinatorError, Element, Expression,
};

fn item(name: &str) -> Element {
    Element::Item(name.to_string())
}

fn items(names: &[&str]) -> Expression {
    Expression(names.iter().map(|name| item(name)).collect())
}

fn group(elements: Vec<Element>) -> Element {
    Element::SubExpression(Expression(elements))
}

fn definition(name: &str, args: &[&str], expression: Expression) -> Combinator {
    Combinator {
        name: name.to_string(),
        args: args.iter().map(|arg| arg.to_string()).collect(),
        expression,
    }
}

fn symbols(names: &[&str]) -> Vec<String> {
    names.iter().map(|name| name.to_string()).collect()
}

#[test]
fn registered_true_selects_first_argument() {
    let mut context = CombinatorContext::new();
    let mut truth = definition("{True}", &["f", "g"], items(&["f"]));
    assert_eq!(truth.abstraction_elimination(), Ok(()));
    assert_eq!(truth.expression, items(&["K"]));
    assert!(context.register_loose(truth).is_ok());
    let mut term = items(&["{True}", "a", "b"]);
    assert_eq!(term.context_substitution(&context), Ok(()));
    assert_eq!(term, items(&["K", "a", "b"]));
    assert_eq!(term.reduce_expression(100), Ok(()));
    assert_eq!(term, items(&["a"]));
}

#[test]
fn strict_registration_rejects_b() {
    let mut context = CombinatorContext::new();
    let mut compose = definition(
        "Z",
        &["f", "g", "x"],
        Expression(vec![item("f"), group(vec![item("g"), item("x")])]),
    );
    assert_eq!(compose.abstraction_elimination(), Ok(()));
    assert_eq!(compose.expression, items(&["B"]));
    let before = context.clone();
    assert_eq!(
        context.register_strict(compose.clone()),
        Err(CombinatorError::Rejected)
    );
    assert_eq!(context.len(), 0);
    assert_eq!(context, before);
    assert_eq!(context.register_loose(compose.clone()), Ok(compose));
    assert_eq!(context.len(), 1);
}

#[test]
fn strict_registration_rejects_b_inside_a_group() {
    let mut context = CombinatorContext::new();
    assert!(context.register_strict(definition("A", &[], items(&["S", "K"]))).is_ok());
    let nested = definition(
        "N",
        &[],
        Expression(vec![item("S"), group(vec![item("K"), group(vec![item("I"), item("B")])])]),
    );
    assert_eq!(context.register_strict(nested), Err(CombinatorError::Rejected));
    assert_eq!(context.len(), 1);
}

#[test]
fn new_context_is_empty() {
    assert_eq!(CombinatorContext::new().len(), 0);
}

#[test]
fn strict_registration_accepts_s_k_i() {
    let mut context = CombinatorContext::new();
    let body = Expression(vec![item("S"), group(vec![item("K"), item("I")]), item("I")]);
    let combinator = definition("A", &[], body);
    assert_eq!(context.register_strict(combinator.clone()), Ok(combinator.clone()));
    assert_eq!(context.len(), 1);
    assert!(context.holds(&combinator));
}

#[test]
fn loose_registration_accepts_b_and_c_and_rejects_other_names() {
    let mut context = CombinatorContext::new();
    assert!(context.register_loose(definition("A", &[], items(&["B", "C", "S"]))).is_ok());
    assert_eq!(
        context.register_loose(definition("D", &[], items(&["S", "x"]))),
        Err(CombinatorError::Rejected)
    );
    assert_eq!(
        context.register_loose(definition("E", &[], items(&["SK"]))),
        Err(CombinatorError::Rejected)
    );
    assert_eq!(context.len(), 1);
}

#[test]
fn registration_rejects_a_pending_abstraction() {
    let mut context = CombinatorContext::new();
    let pending = Element::Abstraction(items(&["S"]), "x".to_string());
    assert_eq!(
        context.register_loose(definition("A", &[], Expression(vec![pending]))),
        Err(CombinatorError::Rejected)
    );
    assert_eq!(context.len(), 0);
}

#[test]
fn registering_twice_keeps_one_entry() {
    let mut context = CombinatorContext::new();
    let combinator = definition("A", &[], items(&["K"]));
    assert!(context.register_strict(combinator.clone()).is_ok());
    assert!(context.register_strict(combinator.clone()).is_ok());
    assert!(context.register_loose(combinator).is_ok());
    assert_eq!(context.len(), 1);
}

#[test]
fn definitions_differing_in_any_part_are_distinct_entries() {
    let mut context = CombinatorContext::new();
    assert!(context.register_strict(definition("A", &[], items(&["K"]))).is_ok());
    assert!(context.register_strict(definition("A", &[], items(&["I"]))).is_ok());
    assert!(context.register_strict(definition("A", &["x"], items(&["K"]))).is_ok());
    assert!(context.register_strict(definition("B", &[], items(&["K"]))).is_ok());
    assert_eq!(context.len(), 4);
    assert!(context.holds(&definition("A", &["x"], items(&["K"]))));
    assert!(!context.holds(&definition("B", &["x"], items(&["K"]))));
}

#[test]
fn register_with_given_symbols() {
    let mut context = CombinatorContext::new();
    let allowed = symbols(&["x", "yz"]);
    let fine = definition("A", &[], items(&["x", "yz", "x"]));
    assert_eq!(context.register(fine.clone(), &allowed), Ok(fine));
    assert_eq!(
        context.register(definition("B", &[], items(&["x", "y"])), &allowed),
        Err(CombinatorError::Rejected)
    );
    assert_eq!(context.len(), 1);
}

#[test]
fn validate_checks_every_atom() {
    let allowed = symbols(&["S", "K", "I"]);
    assert!(CombinatorContext::validate(&items(&["S", "K", "I", "S"]), &allowed));
    assert!(CombinatorContext::validate(&Expression(vec![]), &allowed));
    assert!(CombinatorContext::validate(
        &Expression(vec![item("S"), group(vec![item("K"), group(vec![item("I")])])]),
        &allowed
    ));
    assert!(!CombinatorContext::validate(&items(&["S", "B"]), &allowed));
    assert!(!CombinatorContext::validate(
        &Expression(vec![item("S"), group(vec![item("K"), group(vec![item("x")])])]),
        &allowed
    ));
    assert!(!CombinatorContext::validate(&items(&["S"]), &symbols(&[])));
    let pending = Element::Abstraction(items(&["S"]), "S".to_string());
    assert!(!CombinatorContext::validate(&Expression(vec![item("S"), pending]), &allowed));
}

#[test]
fn find_gives_the_first_registered_body() {
    let mut context = CombinatorContext::new();
    assert!(context.register_strict(definition("A", &[], items(&["K"]))).is_ok());
    assert!(context.register_strict(definition("A", &[], items(&["I"]))).is_ok());
    assert_eq!(context.find(&"A".to_string()), Some(&items(&["K"])));
    assert_eq!(context.find(&"B".to_string()), None);
}

#[test]
fn substitution_replaces_every_occurrence_at_every_depth() {
    let mut context = CombinatorContext::new();
    assert!(context.register_strict(definition("M", &[], items(&["S", "I", "I"]))).is_ok());
    assert!(context.register_strict(definition("T", &[], items(&["K"]))).is_ok());
    let mut term = Expression(vec![
        item("a"),
        item("M"),
        group(vec![item("T"), item("M"), item("b")]),
    ]);
    assert_eq!(term.context_substitution(&context), Ok(()));
    let m = group(vec![item("S"), item("I"), item("I")]);
    assert_eq!(
        term,
        Expression(vec![
            item("a"),
            m.clone(),
            group(vec![item("K"), m, item("b")]),
        ])
    );
}

#[test]
fn substitution_canonicalises_the_result() {
    let mut context = CombinatorContext::new();
    assert!(context.register_strict(definition("M", &[], items(&["S", "I", "I"]))).is_ok());
    let mut term = items(&["M", "a"]);
    assert_eq!(term.context_substitution(&context), Ok(()));
    assert_eq!(term, items(&["S", "I", "I", "a"]));
}

#[test]
fn substituted_body_is_not_substituted_again() {
    let mut context = CombinatorContext::new();
    assert!(context.register_strict(definition("S", &[], items(&["K", "K"]))).is_ok());
    assert!(context.register_strict(definition("K", &[], items(&["I"]))).is_ok());
    let mut term = items(&["a", "S"]);
    assert_eq!(term.context_substitution(&context), Ok(()));
    assert_eq!(
        term,
        Expression(vec![item("a"), group(vec![item("K"), item("K")])])
    );
}

#[test]
fn substitution_with_an_empty_context_only_canonicalises() {
    let context = CombinatorContext::new();
    let mut term = Expression(vec![group(vec![item("a"), item("b")]), item("c")]);
    assert_eq!(term.context_substitution(&context), Ok(()));
    assert_eq!(term, items(&["a", "b", "c"]));
}

#[test]
fn substitution_into_a_pending_abstraction_is_a_violation() {
    let mut context = CombinatorContext::new();
    assert!(context.register_strict(definition("M", &[], items(&["K"]))).is_ok());
    let pending = Element::Abstraction(items(&["M"]), "x".to_string());
    let mut term = Expression(vec![item("M"), group(vec![pending])]);
    let before = term.clone();
    assert_eq!(
        term.context_substitution(&context),
        Err(CombinatorError::InvariantViolation)
    );
    assert_eq!(term, before);
}

#[test]
fn element_substitution_wraps_the_body_in_a_group() {
    let mut context = CombinatorContext::new();
    assert!(context.register_strict(definition("T", &[], items(&["K"]))).is_ok());
    let mut element = item("T");
    assert_eq!(element.context_substitution(&context), Ok(()));
    assert_eq!(element, group(vec![item("K")]));
    let mut other = item("U");
    assert_eq!(other.context_substitution(&context), Ok(()));
    assert_eq!(other, item("U"));
    let mut nested = group(vec![item("a"), item("T")]);
    assert_eq!(nested.context_substitution(&context), Ok(()));
    assert_eq!(nested, group(vec![item("a"), item("K")]));
}

#[test]
fn definition_substitution_keeps_name_and_parameters() {
    let mut context = CombinatorContext::new();
    assert!(context.register_strict(definition("T", &[], items(&["K"]))).is_ok());
    let mut combinator = definition("F", &["x"], items(&["x", "T"]));
    assert_eq!(combinator.context_substitution(&context), Ok(()));
    assert_eq!(combinator, definition("F", &["x"], items(&["x", "K"])));
}

#[test]
fn contexts_are_equal_as_sets() {
    let a = definition("A", &[], items(&["K"]));
    let b = definition("B", &[], items(&["I"]));
    let mut first = CombinatorContext::new();
    assert!(first.register_strict(a.clone()).is_ok());
    assert!(first.register_strict(b.clone()).is_ok());
    let mut second = CombinatorContext::new();
    assert!(second.register_strict(b.clone()).is_ok());
    assert!(second.register_strict(a.clone()).is_ok());
    assert_eq!(first, second);
    let mut third = CombinatorContext::new();
    assert!(third.register_strict(a).is_ok());
    assert_ne!(first, third);
    assert!(third.register_strict(definition("B", &[], items(&["K"]))).is_ok());
    assert_ne!(first, third);
    assert_eq!(first.clone(), first);
}
