use num_bigint::BigInt;
use num_rational::BigRational;
use polycalc::basis::Basis;
use polycalc::polynomial::{x, Polynomial};
use polycalc::session::{
    describe_evaluation, perform_calculation, perform_evaluation, rerender_result,
    update_history_display, AppState, HistoryEntry, HISTORY_LIMIT,
};

fn whole(n: i64) -> BigRational {
    BigRational::from_integer(BigInt::from(n))
}

#[test]
fn new_state_is_empty() {
    let state = AppState::new();
    assert!(state.history.is_empty());
    assert!(state.current_poly.is_none());
    assert_eq!(state.basis, Basis::Standard);
    assert_eq!(rerender_result(&state), None);
}

#[test]
fn empty_input_is_the_zero_polynomial() {
    let mut state = AppState::new();
    let text = perform_calculation(&mut state, String::new());
    assert_eq!(text, "0");
    assert_eq!(state.current_poly, Some(Polynomial::constant(whole(0))));
    assert!(state.history.is_empty());
    assert_eq!(rerender_result(&state), Some(String::from("0")));
}

#[test]
fn calculation_keeps_polynomial_and_history() {
    let mut state = AppState::new();
    let text = perform_calculation(&mut state, String::from("(x+1)^2"));
    assert_eq!(text, "x^2 + 2*x + 1");
    assert_eq!(rerender_result(&state), Some(String::from("x^2 + 2*x + 1")));
    assert_eq!(state.history.len(), 1);
    assert_eq!(state.history[0].query, "(x+1)^2");
    assert_eq!(state.history[0].result, "x^2 + 2*x + 1");
}

#[test]
fn failed_calculation_shows_the_message_and_keeps_the_polynomial() {
    let mut state = AppState::new();
    perform_calculation(&mut state, String::from("x"));
    let text = perform_calculation(&mut state, String::from("2/0"));
    assert_eq!(text, "Division by zero is not allowed.");
    assert_eq!(state.current_poly, Some(x()));
    assert_eq!(rerender_result(&state), Some(String::from("x")));
    assert_eq!(perform_evaluation(&state, "5"), "5");
    assert_eq!(state.history.len(), 2);
    assert_eq!(state.history[1].query, "2/0");
    assert_eq!(state.history[1].result, "Error: Division by zero is not allowed.");
}

#[test]
fn failed_calculation_without_a_polynomial_leaves_none() {
    let mut state = AppState::new();
    let text = perform_calculation(&mut state, String::from("y"));
    assert_eq!(text, "Unexpected identifier 'y' without function call");
    assert!(state.current_poly.is_none());
    assert_eq!(rerender_result(&state), None);
}

#[test]
fn failed_calculation_after_empty_input_keeps_zero() {
    let mut state = AppState::new();
    perform_calculation(&mut state, String::new());
    perform_calculation(&mut state, String::from("(x"));
    assert_eq!(state.current_poly, Some(Polynomial::constant(whole(0))));
}

#[test]
fn white_space_alone_is_an_error_not_zero() {
    let mut state = AppState::new();
    let text = perform_calculation(&mut state, String::from(" "));
    assert_eq!(text, "Expected a number, variable 'x', or parenthesis but found ''");
    assert!(state.current_poly.is_none());
    assert_eq!(
        state.history[0].result,
        "Error: Expected a number, variable 'x', or parenthesis but found ''"
    );
}

#[test]
fn history_keeps_the_last_ten() {
    let mut state = AppState::new();
    for n in 0..13 {
        perform_calculation(&mut state, format!("x+{}", n));
        assert!(state.history.len() <= HISTORY_LIMIT);
    }
    assert_eq!(state.history.len(), 10);
    assert_eq!(state.history[0].query, "x+3");
    assert_eq!(state.history[9].query, "x+12");
}

#[test]
fn result_follows_the_basis() {
    let mut state = AppState::new();
    perform_calculation(&mut state, String::from("x^2"));
    assert_eq!(rerender_result(&state), Some(String::from("x^2")));
    state.basis = Basis::Binomial;
    assert_eq!(rerender_result(&state), Some(String::from("2*C(x,2) + x")));
}

#[test]
fn history_display_is_newest_first_in_the_basis_of_the_moment() {
    let mut state = AppState::new();
    perform_calculation(&mut state, String::from("x^2"));
    perform_calculation(&mut state, String::from("1/0"));
    perform_calculation(&mut state, String::from("C(x,2)"));
    let lines = update_history_display(&state.history, Basis::Binomial);
    assert_eq!(
        lines,
        vec![
            (String::from("C(x,2)"), String::from("C(x,2)")),
            (String::from("1/0"), String::from("Error: Division by zero is not allowed.")),
            (String::from("x^2"), String::from("2*C(x,2) + x")),
        ]
    );
    let standard = update_history_display(&state.history, Basis::Standard);
    assert_eq!(standard[0].1, "(1/2)*x^2 - (1/2)*x");
    assert_eq!(standard[2].1, "x^2");
}

#[test]
fn history_display_shows_the_noted_result_of_unreadable_inputs() {
    let history = vec![HistoryEntry { query: String::from("?"), result: String::from("noted") }];
    let lines = update_history_display(&history, Basis::Standard);
    assert_eq!(lines, vec![(String::from("?"), String::from("noted"))]);
    assert!(update_history_display(&Vec::new(), Basis::Standard).is_empty());
}

#[test]
fn evaluation_of_the_current_polynomial() {
    let mut state = AppState::new();
    perform_calculation(&mut state, String::from("x^2+2*x+1"));
    assert_eq!(perform_evaluation(&state, "3"), "16");
    assert_eq!(perform_evaluation(&state, "1/2"), "9/4");
    assert_eq!(perform_evaluation(&state, "-4/2"), "1");
    assert_eq!(perform_evaluation(&state, "-3/2"), "1/4");
    assert_eq!(perform_evaluation(&state, "6/4"), "25/4");
}

#[test]
fn evaluation_complaints() {
    let mut state = AppState::new();
    assert_eq!(perform_evaluation(&state, ""), "");
    assert_eq!(perform_evaluation(&state, "2"), "No valid polynomial to evaluate.");
    assert_eq!(perform_evaluation(&state, "two"), "Invalid number for x");
    perform_calculation(&mut state, String::from("x"));
    assert_eq!(perform_evaluation(&state, ""), "");
    assert_eq!(perform_evaluation(&state, "1/0"), "Invalid number for x");
    assert_eq!(perform_evaluation(&state, "0.5"), "Invalid number for x");
    assert_eq!(perform_evaluation(&state, "7"), "7");
}

#[test]
fn describe_evaluation_of_each_case() {
    let current = Some(x().mul(x()));
    assert_eq!(describe_evaluation(&current, "", Some(whole(2))), "");
    assert_eq!(describe_evaluation(&current, "2", Some(whole(2))), "4");
    assert_eq!(describe_evaluation(&current, "q", None), "Invalid number for x");
    assert_eq!(
        describe_evaluation(&None, "2", Some(whole(2))),
        "No valid polynomial to evaluate."
    );
    assert_eq!(describe_evaluation(&None, "q", None), "Invalid number for x");
}
