use calculator::decimal::decimal_string;
use calculator::dispatcher::{Calculator, Events};
use calculator::reducer::{evaluate_postfix, shunting_yard, EvalError, Tokens};

fn press(c: &mut Calculator, events: &[Events]) {
    for &e in events {
        c.dispatch(e);
    }
}

#[test]
fn display_starts_at_zero() {
    let c = Calculator::default();
    assert_eq!(c.display(), "0");
}

#[test]
fn digit_entry_builds_value() {
    let mut c = Calculator::default();
    press(&mut c, &[Events::Number(1), Events::Number(2), Events::Number(3)]);
    assert_eq!(c.display(), "123");
}

#[test]
fn digit_entry_negative_value() {
    let mut c = Calculator::default();
    press(&mut c, &[Events::Number(5), Events::Number(6), Events::Neg]);
    assert_eq!(c.display(), "-56");
}

#[test]
fn digit_entry_guard_caps_input_length() {
    let mut c = Calculator::default();
    for _ in 0..10 {
        c.dispatch(Events::Number(9));
    }
    assert_eq!(c.display(), "9999999999");
    // The guard admits one more digit (the value is still within it) ...
    c.dispatch(Events::Number(9));
    assert_eq!(c.display(), "99999999999");
    // ... and then ignores every further digit.
    c.dispatch(Events::Number(9));
    assert_eq!(c.display(), "99999999999");
}

#[test]
fn backspace_drops_last_digit() {
    let mut c = Calculator::default();
    press(
        &mut c,
        &[
            Events::Number(1),
            Events::Number(2),
            Events::Number(3),
            Events::Number(4),
            Events::Backspace,
        ],
    );
    assert_eq!(c.display(), "123");
}

#[test]
fn backspace_truncates_toward_zero_on_negatives() {
    let mut c = Calculator::default();
    press(&mut c, &[Events::Number(5), Events::Number(6), Events::Neg, Events::Backspace]);
    assert_eq!(c.display(), "-5");
}

#[test]
fn backspace_on_zero_stays_zero() {
    let mut c = Calculator::default();
    c.dispatch(Events::Backspace);
    assert_eq!(c.display(), "0");
}

#[test]
fn neg_twice_is_identity() {
    let mut c = Calculator::default();
    press(&mut c, &[Events::Number(1), Events::Number(2), Events::Neg, Events::Neg]);
    assert_eq!(c.display(), "12");
}

#[test]
fn neg_on_zero_stays_zero() {
    let mut c = Calculator::default();
    c.dispatch(Events::Neg);
    assert_eq!(c.display(), "0");
}

#[test]
fn multiplication_binds_tighter_than_addition() {
    let mut c = Calculator::default();
    press(
        &mut c,
        &[Events::Number(2), Events::Add, Events::Number(3), Events::Mul, Events::Number(4), Events::Eq],
    );
    assert_eq!(c.display(), "14");
}

#[test]
fn subtraction_is_left_associative() {
    let mut c = Calculator::default();
    press(
        &mut c,
        &[
            Events::Number(1),
            Events::Number(0),
            Events::Sub,
            Events::Number(3),
            Events::Sub,
            Events::Number(2),
            Events::Eq,
        ],
    );
    assert_eq!(c.display(), "5");
}

#[test]
fn division_truncates() {
    let mut c = Calculator::default();
    press(&mut c, &[Events::Number(7), Events::Div, Events::Number(2), Events::Eq]);
    assert_eq!(c.display(), "3");
}

#[test]
fn division_by_zero_is_caught_and_resets() {
    let mut c = Calculator::default();
    press(&mut c, &[Events::Number(5), Events::Div, Events::Number(0), Events::Eq]);
    assert_eq!(c.display(), "0");
    // The calculator stays usable afterwards.
    press(&mut c, &[Events::Number(1), Events::Add, Events::Number(2), Events::Eq]);
    assert_eq!(c.display(), "3");
}

#[test]
fn overflow_is_caught_and_resets() {
    let mut c = Calculator::default();
    for _ in 0..10 {
        c.dispatch(Events::Number(9));
    }
    c.dispatch(Events::Mul);
    for _ in 0..10 {
        c.dispatch(Events::Number(9));
    }
    c.dispatch(Events::Eq);
    assert_eq!(c.display(), "0");
}

#[test]
fn reset_clears_everything() {
    let mut c = Calculator::default();
    press(&mut c, &[Events::Number(7), Events::Add, Events::Number(8), Events::Reset]);
    assert_eq!(c.display(), "0");
    press(&mut c, &[Events::Number(4), Events::Eq]);
    assert_eq!(c.display(), "4");
}

#[test]
fn operator_after_eq_chains_the_result() {
    let mut c = Calculator::default();
    press(&mut c, &[Events::Number(2), Events::Add, Events::Number(3), Events::Eq]);
    assert_eq!(c.display(), "5");
    press(&mut c, &[Events::Mul, Events::Number(4), Events::Eq]);
    assert_eq!(c.display(), "20");
}

#[test]
fn digits_after_eq_append_to_the_result() {
    let mut c = Calculator::default();
    press(&mut c, &[Events::Number(2), Events::Add, Events::Number(3), Events::Eq]);
    assert_eq!(c.display(), "5");
    c.dispatch(Events::Number(1));
    assert_eq!(c.display(), "51");
}

#[test]
fn eq_on_fresh_state_shows_zero() {
    let mut c = Calculator::default();
    c.dispatch(Events::Eq);
    assert_eq!(c.display(), "0");
}

#[test]
fn idle_changes_nothing() {
    let mut c = Calculator::default();
    press(&mut c, &[Events::Number(4), Events::Idle, Events::Idle]);
    assert_eq!(c.display(), "4");
}

#[test]
fn shunting_yard_orders_by_precedence() {
    let infix = vec![
        Tokens::Number(2),
        Tokens::Add,
        Tokens::Number(3),
        Tokens::Mul,
        Tokens::Number(4),
    ];
    let postfix = shunting_yard(infix);
    assert_eq!(
        postfix,
        vec![Tokens::Number(2), Tokens::Number(3), Tokens::Number(4), Tokens::Mul, Tokens::Add]
    );
}

#[test]
fn shunting_yard_keeps_same_precedence_left_to_right() {
    let infix = vec![
        Tokens::Number(10),
        Tokens::Sub,
        Tokens::Number(3),
        Tokens::Sub,
        Tokens::Number(2),
    ];
    let postfix = shunting_yard(infix);
    assert_eq!(
        postfix,
        vec![Tokens::Number(10), Tokens::Number(3), Tokens::Sub, Tokens::Number(2), Tokens::Sub]
    );
}

#[test]
fn single_operator_round_trip() {
    let infix = vec![Tokens::Number(7), Tokens::Sub, Tokens::Number(2)];
    let postfix = shunting_yard(infix);
    assert_eq!(postfix, vec![Tokens::Number(7), Tokens::Number(2), Tokens::Sub]);
    assert_eq!(evaluate_postfix(&postfix), Ok(5));
}

#[test]
fn evaluate_postfix_rejects_malformed_streams() {
    assert_eq!(evaluate_postfix(&vec![]), Err(EvalError::MalformedExpression));
    assert_eq!(evaluate_postfix(&vec![Tokens::Add]), Err(EvalError::MalformedExpression));
    assert_eq!(
        evaluate_postfix(&vec![Tokens::Number(1), Tokens::Number(2)]),
        Err(EvalError::MalformedExpression)
    );
}

#[test]
fn evaluate_postfix_reports_division_by_zero() {
    assert_eq!(
        evaluate_postfix(&vec![Tokens::Number(5), Tokens::Number(0), Tokens::Div]),
        Err(EvalError::DivisionByZero)
    );
}

#[test]
fn evaluate_postfix_reports_overflow() {
    assert_eq!(
        evaluate_postfix(&vec![Tokens::Number(i64::MAX), Tokens::Number(1), Tokens::Add]),
        Err(EvalError::Overflow)
    );
    assert_eq!(
        evaluate_postfix(&vec![Tokens::Number(i64::MIN), Tokens::Number(-1), Tokens::Div]),
        Err(EvalError::Overflow)
    );
}

#[test]
fn evaluate_postfix_division_truncates_toward_zero() {
    assert_eq!(
        evaluate_postfix(&vec![Tokens::Number(-7), Tokens::Number(2), Tokens::Div]),
        Ok(-3)
    );
    assert_eq!(
        evaluate_postfix(&vec![Tokens::Number(7), Tokens::Number(-2), Tokens::Div]),
        Ok(-3)
    );
}

#[test]
fn decimal_string_handles_extremes() {
    assert_eq!(decimal_string(0), "0");
    assert_eq!(decimal_string(-1), "-1");
    assert_eq!(decimal_string(i64::MAX), "9223372036854775807");
    assert_eq!(decimal_string(i64::MIN), "-9223372036854775808");
}
