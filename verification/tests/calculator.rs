use shunting_yard::get_precedence;
use shunting_yard::Algorithm;
use shunting_yard::AlgorithmError;
use shunting_yard::AssociatedWith;
use shunting_yard::Output;

#[test]
fn simple_expression() {
    let mut algorithm = Algorithm::default();
    let result = algorithm.execute("10 * 2 + 100");
    assert_eq!(result, Ok(120));
}

#[test]
fn advanced_expression() {
    let mut algorithm = Algorithm::default();
    let result = algorithm.execute("((100 + 1) * 2) + 500 + (300 * 2 / 15) * 10");
    assert_eq!(result, Ok(1102));
}

#[test]
fn right_associative_power() {
    let mut algorithm = Algorithm::default();
    assert_eq!(algorithm.execute("2^3^2"), Ok(512));
}

#[test]
fn left_associative_division() {
    let mut algorithm = Algorithm::default();
    assert_eq!(algorithm.execute("20 / 4 / 5"), Ok(1));
}

#[test]
fn truncating_division() {
    let mut algorithm = Algorithm::default();
    assert_eq!(algorithm.execute("7 / 2"), Ok(3));
}

#[test]
fn division_truncates_toward_zero() {
    let mut algorithm = Algorithm::default();
    assert_eq!(algorithm.execute("(1 - 4) / 2"), Ok(-1));
}

#[test]
fn postfix_queue_order() {
    let mut algorithm = Algorithm::default();
    assert_eq!(algorithm.execute("10 * 2 + 100"), Ok(120));
    assert_eq!(
        algorithm.queue,
        vec![
            Output::Number(10),
            Output::Number(2),
            Output::Operator('*'),
            Output::Number(100),
            Output::Operator('+'),
        ]
    );
    assert!(algorithm.operator_stack.is_empty());
}

#[test]
fn conversion_is_repeatable() {
    let mut first = Algorithm::default();
    let mut second = Algorithm::default();
    let r1 = first.execute("(8 + 2) * 3^2");
    let r2 = second.execute("(8 + 2) * 3^2");
    assert_eq!(r1, Ok(90));
    assert_eq!(r1, r2);
    assert_eq!(first.queue, second.queue);
}

#[test]
fn calculate_result_matches_execute() {
    let mut algorithm = Algorithm::default();
    assert_eq!(algorithm.execute("10 * 2 + 100"), Ok(120));
    assert_eq!(algorithm.calculate_result(), 120);
}

#[test]
fn largest_literal_accepted() {
    let mut algorithm = Algorithm::default();
    assert_eq!(algorithm.execute("2147483647"), Ok(2147483647));
}

#[test]
fn numeric_literal_out_of_range() {
    let mut algorithm = Algorithm::default();
    assert_eq!(
        algorithm.execute("2147483648"),
        Err(AlgorithmError::UnableToParseInt)
    );
    assert!(algorithm.queue.is_empty());
    assert!(algorithm.operator_stack.is_empty());
}

#[test]
fn long_literal_out_of_range() {
    let mut algorithm = Algorithm::default();
    assert_eq!(
        algorithm.execute("11111111111 + 1"),
        Err(AlgorithmError::UnableToParseInt)
    );
}

#[test]
fn unbalanced_close_paren_recovers() {
    // A ')' with no matching '(' pops the whole operator stack, as if an
    // open parenthesis stood before the expression.
    let mut algorithm = Algorithm::default();
    assert_eq!(algorithm.execute("3 + 4)"), Ok(7));
    assert_eq!(
        algorithm.queue,
        vec![
            Output::Number(3),
            Output::Number(4),
            Output::Operator('+'),
        ]
    );
}

#[test]
fn unmatched_open_paren_fails_evaluation() {
    // An unmatched '(' is drained into the queue as a stray token, which the
    // evaluator rejects.
    let mut algorithm = Algorithm::default();
    assert_eq!(
        algorithm.execute("(3 + 4"),
        Err(AlgorithmError::ArithmeticError)
    );
    assert_eq!(
        algorithm.queue,
        vec![
            Output::Number(3),
            Output::Number(4),
            Output::Operator('+'),
            Output::Operator('('),
        ]
    );
}

#[test]
fn division_by_zero_reported() {
    let mut algorithm = Algorithm::default();
    assert_eq!(
        algorithm.execute("1 / 0"),
        Err(AlgorithmError::ArithmeticError)
    );
}

#[test]
fn negative_exponent_reported() {
    let mut algorithm = Algorithm::default();
    assert_eq!(
        algorithm.execute("2 ^ (1 - 2)"),
        Err(AlgorithmError::ArithmeticError)
    );
}

#[test]
fn exponent_overflow_reported() {
    let mut algorithm = Algorithm::default();
    assert_eq!(
        algorithm.execute("2 ^ 31"),
        Err(AlgorithmError::ArithmeticError)
    );
    let mut other = Algorithm::default();
    assert_eq!(other.execute("2 ^ 30"), Ok(1073741824));
}

#[test]
fn negative_base_power_reaches_minimum() {
    let mut algorithm = Algorithm::default();
    assert_eq!(algorithm.execute("(0 - 2) ^ 31"), Ok(i32::MIN));
}

#[test]
fn addition_overflow_reported() {
    let mut algorithm = Algorithm::default();
    assert_eq!(
        algorithm.execute("2147483647 + 1"),
        Err(AlgorithmError::ArithmeticError)
    );
}

#[test]
fn empty_input_fails_evaluation() {
    let mut algorithm = Algorithm::default();
    assert_eq!(algorithm.execute(""), Err(AlgorithmError::ArithmeticError));
    assert!(algorithm.queue.is_empty());
}

#[test]
fn surplus_operands_fail_evaluation() {
    let mut algorithm = Algorithm::default();
    assert_eq!(
        algorithm.execute("3 4"),
        Err(AlgorithmError::ArithmeticError)
    );
}

#[test]
fn unrecognized_characters_skipped() {
    let mut algorithm = Algorithm::default();
    assert_eq!(algorithm.execute("1a + 2b"), Ok(3));
}

#[test]
fn precedence_table() {
    assert_eq!(get_precedence('^'), (4, AssociatedWith::Right));
    assert_eq!(get_precedence('*'), (3, AssociatedWith::Left));
    assert_eq!(get_precedence('/'), (3, AssociatedWith::Left));
    assert_eq!(get_precedence('+'), (2, AssociatedWith::Left));
    assert_eq!(get_precedence('-'), (2, AssociatedWith::Left));
}

#[test]
fn default_state_empty() {
    let algorithm = Algorithm::default();
    assert!(algorithm.operator_stack.is_empty());
    assert!(algorithm.queue.is_empty());
}

#[test]
fn state_reset_between_calls() {
    // The second call starts from fresh state: nothing of the first call's
    // queue leaks into the second result.
    let mut algorithm = Algorithm::default();
    assert_eq!(algorithm.execute("1 + 2"), Ok(3));
    assert_eq!(algorithm.execute("10 * 10"), Ok(100));
    assert_eq!(
        algorithm.queue,
        vec![
            Output::Number(10),
            Output::Number(10),
            Output::Operator('*'),
        ]
    );
}
