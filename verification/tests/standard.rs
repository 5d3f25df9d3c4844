use combinator_parser::standard::{number_to_string, prelude};
use combinator_parser::{
    AbstractionElimination, Combinator, CombinatorContext, CombinatorError, Element, Expression,
};

fn item(name: &str) -> Element {
    Element::Item(name.to_string())
}

fn items(names: &[&str]) -> Expression {
    Expression(names.iter().map(|name| item(name)).collect())
}

fn standard() -> CombinatorContext {
    let mut context = CombinatorContext::new();
    assert_eq!(prelude(&mut context), Ok(()));
    context
}

fn evaluate(context: &CombinatorContext, source: &str) -> Expression {
    let mut expression = Expression::parse(source).unwrap();
    assert_eq!(expression.context_substitution(context), Ok(()));
    assert_eq!(expression.reduce_expression(10_000_000), Ok(()));
    expression
}

fn applications(count: usize) -> Expression {
    let mut expression = items(&["x"]);
    for _ in 0..count {
        expression = Expression(vec![item("f"), Element::SubExpression(expression)]);
    }
    let mut canonical = expression;
    canonical.reduce_parens();
    canonical
}

#[test]
fn number_text_wraps_the_numeral() {
    assert_eq!(number_to_string(0), "{Apply}({Fib}(0))fx");
    assert_eq!(number_to_string(1), "{Apply}({Fib}({Next}(0)))fx");
    assert_eq!(number_to_string(3), "{Apply}({Fib}({Next}({Next}({Next}(0)))))fx");
    assert_eq!(number_to_string(-5), "{Apply}({Fib}(0))fx");
}

#[test]
fn prelude_registers_the_standard_definitions() {
    let context = standard();
    assert_eq!(context.len(), 19);
    assert_eq!(context.find(&"M".to_string()), Some(&items(&["S", "I", "I"])));
    assert_eq!(context.find(&"True".to_string()), Some(&items(&["K"])));
    assert_eq!(context.find(&"False".to_string()), Some(&items(&["K", "I"])));
    assert_eq!(context.find(&"0".to_string()), Some(&items(&["I"])));
    assert_eq!(context.find(&"Nothing".to_string()), None);
}

#[test]
fn prelude_twice_adds_nothing() {
    let mut context = standard();
    let once = context.clone();
    assert_eq!(prelude(&mut context), Ok(()));
    assert_eq!(context, once);
}

#[test]
fn define_registers_and_hands_back_the_definition() {
    let mut context = CombinatorContext::new();
    let truth = context.define("{True}fg=f").unwrap();
    assert_eq!(
        truth,
        Combinator { name: "True".to_string(), args: vec![], expression: items(&["K"]) }
    );
    let not = context.define("Nb=b{True}").unwrap();
    assert_eq!(not.expression, items(&["C", "I", "K"]));
    assert_eq!(context.len(), 2);
}

#[test]
fn define_reports_each_failure_and_keeps_the_context() {
    let mut context = CombinatorContext::new();
    assert_eq!(context.define("X=(a"), Err(CombinatorError::Parse));
    assert_eq!(context.define("Xa=ab"), Err(CombinatorError::Rejected));
    assert_eq!(context.define("X={Unknown}"), Err(CombinatorError::Rejected));
    assert_eq!(context.len(), 0);
}

#[test]
fn booleans_select_and_negate() {
    let context = standard();
    assert_eq!(evaluate(&context, "{True}ab"), items(&["a"]));
    assert_eq!(evaluate(&context, "{False}ab"), items(&["b"]));
    assert_eq!(evaluate(&context, "{Not}{True}ab"), items(&["b"]));
    assert_eq!(evaluate(&context, "{Not}{False}ab"), items(&["a"]));
}

#[test]
fn pairs_give_back_their_parts() {
    let context = standard();
    assert_eq!(evaluate(&context, "{First}({Pair}ab)"), items(&["a"]));
    assert_eq!(evaluate(&context, "{Second}({Pair}ab)"), items(&["b"]));
}

#[test]
fn numerals_apply_a_function_that_many_times() {
    let context = standard();
    assert_eq!(evaluate(&context, "{Apply}0fx"), applications(0));
    assert_eq!(evaluate(&context, "{Apply}1fx"), applications(1));
    assert_eq!(evaluate(&context, "{Apply}({Next}1)fx"), applications(2));
    assert_eq!(evaluate(&context, "{Apply}({Prev}({Next}1))fx"), applications(1));
    assert_eq!(applications(2).to_string(), "f (f x)");
}

#[test]
fn addition_and_multiplication_compute() {
    let context = standard();
    assert_eq!(evaluate(&context, "{Apply}({Add}1({Next}1))fx"), applications(3));
    assert_eq!(
        evaluate(&context, "{Apply}({Mult}({Next}1)({Next}({Next}1)))fx"),
        applications(6)
    );
}

#[test]
fn fibonacci_numbers_compute() {
    let context = standard();
    let expected = [0, 1, 1, 2, 3];
    for (n, fib) in expected.iter().enumerate() {
        let source = number_to_string(n as i32);
        assert_eq!(evaluate(&context, &source), applications(*fib), "fib({})", n);
    }
}
