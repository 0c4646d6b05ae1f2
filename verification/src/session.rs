//! What a calculator keeps between two inputs, and what it decides on each:
//! the polynomial last computed, the basis to show it in, and the last
//! inputs with their results.

use crate::basis::{binomial_coords, Basis};
use crate::error::message_text;
use crate::format::render;
use crate::lowest_terms::{fractions_from, lemma_lowest_terms_of};
use crate::parse::{parse, parse_spec};
use crate::polynomial::{poly_eval, Polynomial};
use crate::rational::{
    fraction_value, ratio_fraction, ratio_of_text, ratio_text, rational_from_text,
    rational_to_string, rational_zero,
};
use num_bigint::BigInt;
use num_rational::Ratio;
use vstd::prelude::*;
use vstd::string::*;

verus! {

/// How many inputs the history keeps.
pub const HISTORY_LIMIT: usize = 10;

/// One input and the result shown for it when it was entered.
pub struct HistoryEntry {
    pub query: String,
    pub result: String,
}

/// The state of the calculator.
pub struct AppState {
    /// The last inputs, oldest first, at most [`HISTORY_LIMIT`] of them.
    pub history: Vec<HistoryEntry>,
    /// The polynomial of the last input, if that was read.
    pub current_poly: Option<Polynomial>,
    /// The basis in which results are shown.
    pub basis: Basis,
}

/// A polynomial written out in a basis.
pub open spec fn shown(p: Seq<real>, basis: Basis) -> Seq<char> {
    match basis {
        Basis::Standard => render(fractions_from(p), Basis::Standard),
        Basis::Binomial => render(fractions_from(binomial_coords(p)), Basis::Binomial),
    }
}

/// The result noted in the history for an input: the polynomial written out
/// in `basis`, or `Error: ` and the message of the refusal.
pub open spec fn outcome_text(input: Seq<char>, basis: Basis) -> Seq<char> {
    match parse_spec(input) {
        Ok(p) => shown(p, basis),
        Err(failure) => "Error: "@ + message_text(failure),
    }
}

/// The polynomial kept after an input: the zero polynomial for the empty
/// input, what the input stands for where it is read, and `prior`, the
/// polynomial kept before, where it is refused.
pub open spec fn outcome_poly(input: Seq<char>, prior: Option<Seq<real>>) -> Option<Seq<real>> {
    if input.len() == 0 {
        Some(seq![0real])
    } else {
        match parse_spec(input) {
            Ok(p) => Some(p),
            Err(_) => prior,
        }
    }
}

/// What is shown for an input: `0` for the empty input, the polynomial
/// written out in `basis` where the input is read, and the message of the
/// refusal, word for word, where it is not.
pub open spec fn shown_text(input: Seq<char>, basis: Basis) -> Seq<char> {
    if input.len() == 0 {
        "0"@
    } else {
        match parse_spec(input) {
            Ok(p) => shown(p, basis),
            Err(failure) => message_text(failure),
        }
    }
}

/// A history entry as a pair of texts.
pub open spec fn entry_view(entry: HistoryEntry) -> (Seq<char>, Seq<char>) {
    (entry.query@, entry.result@)
}

/// A history as a sequence of pairs of texts.
pub open spec fn history_view(history: Seq<HistoryEntry>) -> Seq<(Seq<char>, Seq<char>)> {
    Seq::new(history.len(), |i: int| entry_view(history[i]))
}

/// The history after one more entry: the entry comes last, and the oldest
/// one leaves where that makes more than [`HISTORY_LIMIT`].
pub open spec fn history_after(
    history: Seq<(Seq<char>, Seq<char>)>,
    entry: (Seq<char>, Seq<char>),
) -> Seq<(Seq<char>, Seq<char>)> {
    if history.len() + 1 > HISTORY_LIMIT {
        history.push(entry).drop_first()
    } else {
        history.push(entry)
    }
}

/// The polynomial of an optional value.
pub open spec fn poly_view(p: Option<Polynomial>) -> Option<Seq<real>> {
    match p {
        Some(poly) => Some(poly@),
        None => None,
    }
}

/// What a line of the history shows for its input now: the polynomial in
/// the basis of the moment where the input is read, else the result noted.
pub open spec fn history_line(entry: (Seq<char>, Seq<char>), basis: Basis) -> Seq<char> {
    match parse_spec(entry.0) {
        Ok(p) => shown(p, basis),
        Err(_) => entry.1,
    }
}

/// What an evaluation shows: nothing for an empty input, a complaint for a
/// text that is no number or where there is no polynomial, else the value
/// of `current` at the number, written as a fraction in lowest terms.
pub open spec fn evaluation_text(
    current: Option<Seq<real>>,
    input: Seq<char>,
    point: Option<(int, int)>,
) -> Seq<char> {
    if input.len() == 0 {
        ""@
    } else {
        match point {
            None => "Invalid number for x"@,
            Some(f) => match current {
                None => "No valid polynomial to evaluate."@,
                Some(p) => {
                    let value = crate::lowest_terms::lowest_terms_of(
                        poly_eval(p, fraction_value(f)),
                    );
                    ratio_text(value.0, value.1)
                },
            },
        }
    }
}

impl AppState {
    /// The state at the start: no history, no polynomial, the power basis.
    pub fn new() -> (state: AppState)
        ensures
            state.history@.len() == 0,
            state.current_poly is None,
            state.basis == Basis::Standard,
    {
        AppState { history: Vec::new(), current_poly: None, basis: Basis::Standard }
    }
}

/// Takes one input and returns what to show for it. The empty input makes
/// the zero polynomial the current one and leaves the history alone. Any
/// other input is read and goes into the history with its result: where it
/// is read, its polynomial becomes the current one; where it is refused,
/// the current polynomial stays as it was and the message is what to show.
pub fn perform_calculation(state: &mut AppState, expression: String) -> (text: String)
    ensures
        text@ == shown_text(expression@, old(state).basis),
        final(state).basis == old(state).basis,
        poly_view(final(state).current_poly) == outcome_poly(
            expression@,
            poly_view(old(state).current_poly),
        ),
        history_view(final(state).history@) == if expression@.len() == 0 {
            history_view(old(state).history@)
        } else {
            history_after(
                history_view(old(state).history@),
                (expression@, outcome_text(expression@, old(state).basis)),
            )
        },
        old(state).history@.len() <= HISTORY_LIMIT ==> final(state).history@.len()
            <= HISTORY_LIMIT,
{
    if expression.as_str().is_empty() {
        let zero = rational_zero();
        proof {
            crate::polynomial::lemma_value_whole(zero);
        }
        state.current_poly = Some(Polynomial::constant(zero));
        return String::from_str("0");
    }
    let ghost before = history_view(state.history@);
    let (text, noted) = match parse(expression.as_str()) {
        Ok(poly) => {
            let text = state.basis.format(&poly);
            let noted = text.clone();
            state.current_poly = Some(poly);
            (text, noted)
        },
        Err(e) => {
            let text = e.message();
            let mut noted = String::from_str("Error: ");
            noted.append(text.as_str());
            (text, noted)
        },
    };
    let ghost entry = (expression@, noted@);
    state.history.push(HistoryEntry { query: expression, result: noted });
    assert(history_view(state.history@) =~= before.push(entry));
    if state.history.len() > HISTORY_LIMIT {
        state.history.remove(0);
        assert(history_view(state.history@) =~= before.push(entry).drop_first());
    }
    text
}

/// The text for the result area: the current polynomial in the basis of
/// the moment, if there is one.
pub fn rerender_result(state: &AppState) -> (text: Option<String>)
    ensures
        match poly_view(state.current_poly) {
            Some(p) => text is Some && text->0@ == shown(p, state.basis),
            None => text is None,
        },
{
    match &state.current_poly {
        Some(poly) => Some(state.basis.format(poly)),
        None => None,
    }
}

/// The lines of the history display, newest first: each input with what it
/// shows in `basis`.
pub fn update_history_display(history: &[HistoryEntry], basis: Basis) -> (lines: Vec<
    (String, String),
>)
    ensures
        lines@.len() == history@.len(),
        forall|i: int|
            0 <= i < lines@.len() ==> {
                let entry = entry_view(history@[history@.len() - 1 - i]);
                &&& (#[trigger] lines@[i]).0@ == entry.0
                &&& lines@[i].1@ == history_line(entry, basis)
            },
{
    let n = history.len();
    let mut lines: Vec<(String, String)> = Vec::new();
    let mut i: usize = 0;
    while i < n
        invariant
            i <= n,
            n == history@.len(),
            lines@.len() == i,
            forall|j: int|
                0 <= j < i ==> {
                    let entry = entry_view(history@[n - 1 - j]);
                    &&& (#[trigger] lines@[j]).0@ == entry.0
                    &&& lines@[j].1@ == history_line(entry, basis)
                },
        decreases n - i,
    {
        let entry = &history[n - 1 - i];
        let text = match parse(entry.query.as_str()) {
            Ok(poly) => basis.format(&poly),
            Err(_) => entry.result.clone(),
        };
        lines.push((entry.query.clone(), text));
        i += 1;
    }
    lines
}

/// What an evaluation shows, for the number `point` read from `input`.
pub fn describe_evaluation(
    current: &Option<Polynomial>,
    input: &str,
    point: Option<Ratio<BigInt>>,
) -> (text: String)
    requires
        point is Some ==> crate::rational::is_canonical(point->0),
    ensures
        text@ == evaluation_text(
            poly_view(*current),
            input@,
            match point {
                Some(x) => Some(ratio_fraction(x)),
                None => None,
            },
        ),
{
    if input.is_empty() {
        return String::from_str("");
    }
    let x = match point {
        Some(x) => x,
        None => {
            return String::from_str("Invalid number for x");
        },
    };
    match current {
        Some(poly) => {
            let value = poly.eval(&x);
            proof {
                lemma_lowest_terms_of(value);
            }
            rational_to_string(&value)
        },
        None => String::from_str("No valid polynomial to evaluate."),
    }
}

/// Evaluates the current polynomial at the number that `input` writes, and
/// says what to show.
pub fn perform_evaluation(state: &AppState, input: &str) -> (text: String)
    ensures
        text@ == evaluation_text(poly_view(state.current_poly), input@, ratio_of_text(input@)),
{
    let point = rational_from_text(input);
    describe_evaluation(&state.current_poly, input, point)
}

} // verus!
