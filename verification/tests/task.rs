use taski::task::{as_argument, input_name, summarize, Input, State};

#[test]
fn summarize_keeps_short_text() {
    assert_eq!(summarize("hello", 5), "hello");
    assert_eq!(summarize("", 0), "");
}

#[test]
fn summarize_shortens_around_an_ellipsis() {
    assert_eq!(summarize("abcdefghij", 4), "ab...ij");
    assert_eq!(summarize("abcdefghij", 5), "ab...hij");
    assert_eq!(summarize("abcdefghij", 0), "...");
    assert_eq!(summarize("äöüßéè", 2), "ä...è");
}

#[test]
fn input_names_show_the_summarized_value() {
    assert_eq!(input_name("1"), "Input(1)");
    assert_eq!(input_name("\"Hello\""), "Input(\"Hello\")");
    assert_eq!(input_name("[1, 2, 3, 4, 5, 6, 7, 8, 9, 10]"), "Input([1, 2, 3, ... 8, 9, 10])");
}

#[test]
fn arguments_show_the_state() {
    assert_eq!(as_argument(State::Pending), "<pending>");
    assert_eq!(as_argument(State::Running), "<running>");
    assert_eq!(as_argument(State::Succeeded), "<succeeded>");
    assert_eq!(as_argument(State::Failed), "<failed>");
}

#[test]
fn state_predicates() {
    assert!(State::Pending.is_pending() && !State::Pending.is_running());
    assert!(State::Running.is_running() && !State::Running.did_succeed());
    assert!(State::Succeeded.did_succeed() && !State::Succeeded.did_fail());
    assert!(State::Failed.did_fail() && !State::Failed.is_pending());
}

#[test]
fn input_wraps_a_value() {
    let i: Input<i32> = Input::from(3);
    assert_eq!(i.0, 3);
    assert_eq!(Input::new("x").into_inner(), "x");
}
