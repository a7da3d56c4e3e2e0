use jmrg::engine::{Action, Merger};
use jmrg::error::MrgError;

fn names(items: &[&str]) -> Vec<String> {
    items.iter().map(|item| item.to_string()).collect()
}

fn line(text: &str) -> Option<Result<String, MrgError>> {
    Some(Ok(text.to_string()))
}

fn failed(cause: &str) -> Option<Result<String, MrgError>> {
    Some(Err(MrgError { msg: cause.to_string() }))
}

fn is_read(action: &Action, wanted: usize) -> bool {
    matches!(action, Action::Read { source } if *source == wanted)
}

fn is_skip(action: &Action, wanted: usize, text: &str) -> bool {
    matches!(action, Action::Skip { source, warning } if *source == wanted && warning == text)
}

fn is_write(action: &Action, wanted: usize, text: &str) -> bool {
    matches!(action, Action::Write { source, line } if *source == wanted && line == text)
}

fn is_finish(action: &Action) -> bool {
    matches!(action, Action::Finish)
}

#[test]
fn merge_of_no_sources_is_complete_at_once() {
    let (mut engine, action) = Merger::new(names(&["t"]), 0);
    assert_eq!(engine.sources(), 0);
    assert!(is_finish(&action));
    assert!(is_finish(&engine.step(None)));
    assert!(is_finish(&engine.step(line(r#"{"t":1}"#))));
}

#[test]
fn first_action_reads_the_first_source() {
    let (engine, action) = Merger::new(names(&["t"]), 3);
    assert_eq!(engine.sources(), 3);
    assert!(is_read(&action, 0));
}

#[test]
fn sources_are_pulled_in_order_before_anything_is_written() {
    let (mut engine, action) = Merger::new(names(&["t"]), 3);
    assert!(is_read(&action, 0));
    assert!(is_read(&engine.step(line(r#"{"t":5}"#)), 1));
    assert!(is_read(&engine.step(line(r#"{"t":1}"#)), 2));
    let action = engine.step(line(r#"{"t":3}"#));
    assert!(is_write(&action, 1, r#"{"t":1}"#));
}

#[test]
fn written_source_is_read_next() {
    let (mut engine, _) = Merger::new(names(&["t"]), 2);
    engine.step(line(r#"{"t":15,"a":"x"}"#));
    let action = engine.step(line(r#"{"t":16,"a":"z"}"#));
    assert!(is_write(&action, 0, r#"{"t":15,"a":"x"}"#));
    let action = engine.step(line(r#"{"t":18,"a":"y"}"#));
    assert!(is_write(&action, 1, r#"{"t":16,"a":"z"}"#));
    let action = engine.step(line(r#"{"t":17,"a":"w"}"#));
    assert!(is_write(&action, 1, r#"{"t":17,"a":"w"}"#));
    let action = engine.step(None);
    assert!(is_write(&action, 0, r#"{"t":18,"a":"y"}"#));
    assert!(is_finish(&engine.step(None)));
}

#[test]
fn line_without_key_is_skipped_with_a_warning() {
    let (mut engine, _) = Merger::new(names(&["t"]), 1);
    let action = engine.step(line(r#"{"x":1}"#));
    assert!(is_skip(&action, 0, "cannot parse entry: no fields of the provided set"));
    let action = engine.step(line(r#"{"t":2}"#));
    assert!(is_write(&action, 0, r#"{"t":2}"#));
    assert!(is_finish(&engine.step(None)));
}

#[test]
fn malformed_line_is_skipped_with_a_warning() {
    let (mut engine, _) = Merger::new(names(&["t"]), 1);
    let action = engine.step(line("no json"));
    assert!(is_skip(&action, 0, "cannot parse entry: not a JSON object with an integer key"));
    let action = engine.step(line(""));
    assert!(is_skip(&action, 0, "cannot parse entry: not a JSON object with an integer key"));
    let action = engine.step(line(r#"{"t":"1"}"#));
    assert!(is_skip(&action, 0, "cannot parse entry: not a JSON object with an integer key"));
    assert!(is_finish(&engine.step(None)));
}

#[test]
fn failed_read_is_skipped_with_a_warning() {
    let (mut engine, _) = Merger::new(names(&["t"]), 2);
    let action = engine.step(failed("stream did not contain valid UTF-8"));
    assert!(is_skip(&action, 0, "cannot get next line: stream did not contain valid UTF-8"));
    assert!(is_read(&engine.step(line(r#"{"t":1}"#)), 1));
    let action = engine.step(failed("broken pipe"));
    assert!(is_skip(&action, 1, "cannot get next line: broken pipe"));
    let action = engine.step(None);
    assert!(is_write(&action, 0, r#"{"t":1}"#));
}

#[test]
fn skipped_lines_do_not_touch_the_lines_around_them() {
    let (mut engine, _) = Merger::new(names(&["t"]), 2);
    assert!(is_skip(
        &engine.step(line(r#"{"x":1}"#)),
        0,
        "cannot parse entry: no fields of the provided set"
    ));
    assert!(is_read(&engine.step(line(r#"{"t":4}"#)), 1));
    let action = engine.step(line(r#"{"t":3}"#));
    assert!(is_write(&action, 1, r#"{"t":3}"#));
    assert!(is_skip(
        &engine.step(line(r#"{"x":2}"#)),
        1,
        "cannot parse entry: no fields of the provided set"
    ));
    let action = engine.step(line(r#"{"t":5}"#));
    assert!(is_write(&action, 0, r#"{"t":4}"#));
    let action = engine.step(None);
    assert!(is_write(&action, 1, r#"{"t":5}"#));
    assert!(is_finish(&engine.step(None)));
}

#[test]
fn source_without_entries_does_not_hold_up_the_others() {
    let (mut engine, _) = Merger::new(names(&["t"]), 3);
    assert!(is_read(&engine.step(None), 1));
    assert!(is_skip(
        &engine.step(line("{}")),
        1,
        "cannot parse entry: no fields of the provided set"
    ));
    assert!(is_read(&engine.step(None), 2));
    let action = engine.step(line(r#"{"t":1}"#));
    assert!(is_write(&action, 2, r#"{"t":1}"#));
    let action = engine.step(line(r#"{"t":2}"#));
    assert!(is_write(&action, 2, r#"{"t":2}"#));
    assert!(is_finish(&engine.step(None)));
}

#[test]
fn all_sources_empty_is_complete_after_their_ends() {
    let (mut engine, _) = Merger::new(names(&["t"]), 2);
    assert!(is_read(&engine.step(None), 1));
    assert!(is_finish(&engine.step(None)));
    assert!(is_finish(&engine.step(None)));
}

#[test]
fn complete_merge_stays_complete() {
    let (mut engine, _) = Merger::new(names(&["t"]), 1);
    assert!(is_finish(&engine.step(None)));
    assert!(is_finish(&engine.step(line(r#"{"t":1}"#))));
    assert!(is_finish(&engine.step(failed("late"))));
}

#[test]
fn source_out_of_order_is_still_emitted_whole() {
    let (mut engine, _) = Merger::new(names(&["t"]), 1);
    let action = engine.step(line(r#"{"t":9}"#));
    assert!(is_write(&action, 0, r#"{"t":9}"#));
    let action = engine.step(line(r#"{"t":1}"#));
    assert!(is_write(&action, 0, r#"{"t":1}"#));
    assert!(is_finish(&engine.step(None)));
}

#[test]
fn tie_is_broken_one_way_or_the_other() {
    let (mut engine, _) = Merger::new(names(&["t"]), 2);
    engine.step(line(r#"{"t":7,"s":0}"#));
    let action = engine.step(line(r#"{"t":7,"s":1}"#));
    let first = match action {
        Action::Write { source, line } => {
            assert!(source == 0 || source == 1);
            assert_eq!(line, format!("{{\"t\":7,\"s\":{}}}", source));
            source
        }
        _ => panic!("a write was due"),
    };
    let action = engine.step(None);
    let other = 1 - first;
    assert!(is_write(&action, other, &format!("{{\"t\":7,\"s\":{}}}", other)));
    assert!(is_finish(&engine.step(None)));
}
