use permtrace::engine::run;
use permtrace::player::Player;
use permtrace::step::State;
use permtrace::trace::Trace;
use permtrace::CoreError;

fn done_snapshots(trace: &Trace) -> Vec<String> {
    let mut out = Vec::new();
    let mut i = 0;
    while i < trace.len() {
        let step = trace.get(i).unwrap();
        if step.tag == State::Done {
            out.push(step.snapshot.iter().collect::<String>());
        }
        i += 1;
    }
    out
}

#[test]
fn two_symbols_both_orders() {
    let trace = run("2\nab").unwrap();
    assert_eq!(done_snapshots(&trace), vec!["ab".to_string(), "ba".to_string()]);
}

#[test]
fn trace_opens_with_start_and_sorted() {
    let trace = run("2\nba").unwrap();
    let first = trace.get(0).unwrap();
    assert_eq!(first.tag, State::Start);
    assert_eq!(first.snapshot, vec!['b', 'a']);
    let second = trace.get(1).unwrap();
    assert_eq!(second.tag, State::Sorted);
    assert_eq!(second.snapshot, vec!['a', 'b']);
}

#[test]
fn duplicate_pool_three_distinct_outputs() {
    let trace = run("3\naab").unwrap();
    let dones = done_snapshots(&trace);
    assert_eq!(dones.len(), 3);
    let mut sorted = dones.clone();
    sorted.sort();
    sorted.dedup();
    assert_eq!(
        sorted,
        vec!["aab".to_string(), "aba".to_string(), "baa".to_string()]
    );
}

#[test]
fn distinct_pool_all_permutations_once() {
    let trace = run("3\nabc").unwrap();
    let dones = done_snapshots(&trace);
    // 3! permutations of three distinct symbols, each exactly once.
    assert_eq!(dones.len(), 6);
    let mut sorted = dones.clone();
    sorted.sort();
    sorted.dedup();
    assert_eq!(sorted.len(), 6);
    for want in ["abc", "acb", "bac", "bca", "cab", "cba"] {
        assert!(dones.iter().any(|d| d == want));
    }
}

#[test]
fn single_symbol_single_done() {
    let trace = run("1\nx").unwrap();
    assert_eq!(trace.len(), 3);
    let dones = done_snapshots(&trace);
    assert_eq!(dones, vec!["x".to_string()]);
}

#[test]
fn empty_target_single_empty_done() {
    let trace = run("0\n").unwrap();
    let dones = done_snapshots(&trace);
    assert_eq!(dones, vec![String::new()]);
}

#[test]
fn short_pool_padded_with_filler() {
    let trace = run("4\nab").unwrap();
    let first = trace.get(0).unwrap();
    assert_eq!(first.snapshot, vec!['a', 'b', '\u{10FFFF}', '\u{10FFFF}']);
    // The filler sorts after the real symbols, so the sorted pool ends in
    // the two fillers.
    let sorted = trace.get(1).unwrap();
    assert_eq!(sorted.snapshot, vec!['a', 'b', '\u{10FFFF}', '\u{10FFFF}']);
    let dones = done_snapshots(&trace);
    // Fillers count as duplicates of each other, so exactly 4! / 2! = 12
    // distinct arrangements of {a, b, f, f} are reached, each once —
    // strictly fewer than the 4! = 24 of four distinct symbols.
    assert_eq!(dones.len(), 12);
    let mut distinct = dones.clone();
    distinct.sort();
    distinct.dedup();
    assert_eq!(distinct.len(), 12);
}

#[test]
fn long_pool_truncated() {
    let trace = run("1\nabc").unwrap();
    assert_eq!(done_snapshots(&trace), vec!["a".to_string()]);
}

#[test]
fn pool_spans_lines_and_crlf() {
    let lf = run("3\nab\nc").unwrap();
    let crlf = run("3\r\nab\r\nc").unwrap();
    assert_eq!(done_snapshots(&lf), done_snapshots(&crlf));
    assert_eq!(lf.get(0).unwrap().snapshot, vec!['a', 'b', 'c']);
}

#[test]
fn missing_count_line_is_rejected() {
    assert_eq!(run("").err(), Some(CoreError::InputFormatError));
    assert_eq!(run("\nab").err(), Some(CoreError::InputFormatError));
}

#[test]
fn non_numeric_count_line_is_rejected() {
    assert_eq!(run("x\nab").err(), Some(CoreError::InputFormatError));
    assert_eq!(run("2a\nbc").err(), Some(CoreError::InputFormatError));
    assert_eq!(run("-1\nab").err(), Some(CoreError::InputFormatError));
}

#[test]
fn oversized_count_line_is_rejected() {
    assert_eq!(
        run("99999999999999999999999999\nab").err(),
        Some(CoreError::InputFormatError)
    );
}

#[test]
fn get_out_of_range() {
    let trace = run("2\nab").unwrap();
    let n = trace.len();
    assert!(trace.get(n).is_err());
    assert_eq!(trace.get(n).err(), Some(CoreError::IndexOutOfRange));
    assert!(trace.get(n - 1).is_ok());
}

#[test]
fn repeated_reads_are_stable() {
    let trace = run("3\naab").unwrap();
    assert_eq!(trace.len(), trace.len());
    for i in 0..trace.len() {
        let a = trace.get(i).unwrap();
        let b = trace.get(i).unwrap();
        assert_eq!(a.tag, b.tag);
        assert_eq!(a.snapshot, b.snapshot);
        assert_eq!(a.primary_index, b.primary_index);
        assert_eq!(a.pivot_index, b.pivot_index);
    }
    let p = Player::new(&trace);
    let once = p.completed_before_cursor(&trace);
    let again = p.completed_before_cursor(&trace);
    assert_eq!(once, again);
}

#[test]
fn advance_then_retreat_restores_index() {
    let trace = run("2\nab").unwrap();
    let mut p = Player::new(&trace);
    for _ in 0..trace.len() - 1 {
        let before = p.index;
        p.advance(&trace);
        p.retreat(&trace);
        assert_eq!(p.index, before);
        p.advance(&trace);
    }
}

#[test]
fn cursor_saturates_at_both_ends() {
    let trace = run("1\nx").unwrap();
    let mut p = Player::new(&trace);
    p.retreat(&trace);
    assert_eq!(p.index, 0);
    for _ in 0..10 {
        p.advance(&trace);
    }
    assert_eq!(p.index, trace.len() - 1);
    p.advance(&trace);
    assert_eq!(p.index, trace.len() - 1);
}

#[test]
fn current_follows_cursor() {
    let trace = run("2\nab").unwrap();
    let mut p = Player::new(&trace);
    assert_eq!(p.current(&trace).tag, State::Start);
    p.advance(&trace);
    assert_eq!(p.current(&trace).tag, State::Sorted);
    p.retreat(&trace);
    assert_eq!(p.current(&trace).tag, State::Start);
}

#[test]
fn scroll_is_clamped_to_done_count() {
    let trace = run("2\nab").unwrap();
    let mut p = Player::new(&trace);
    // Nothing completed yet: scrolling cannot leave zero.
    p.scroll_done_forward(&trace);
    assert_eq!(p.done_scroll_offset, 0);
    p.scroll_done_backward(&trace);
    assert_eq!(p.done_scroll_offset, 0);
    // Walk to the end: both Done steps lie before the cursor.
    for _ in 0..trace.len() - 1 {
        p.advance(&trace);
    }
    assert_eq!(p.completed_before_cursor(&trace).len(), 2);
    p.scroll_done_forward(&trace);
    assert_eq!(p.done_scroll_offset, 1);
    p.scroll_done_forward(&trace);
    assert_eq!(p.done_scroll_offset, 1);
    p.scroll_done_backward(&trace);
    assert_eq!(p.done_scroll_offset, 0);
    p.scroll_done_backward(&trace);
    assert_eq!(p.done_scroll_offset, 0);
}

#[test]
fn retreat_reclamps_scroll_offset() {
    let trace = run("2\nab").unwrap();
    let mut p = Player::new(&trace);
    for _ in 0..trace.len() - 1 {
        p.advance(&trace);
    }
    p.scroll_done_forward(&trace);
    assert_eq!(p.done_scroll_offset, 1);
    // Step back past the second Done step: the offset bound shrinks with it.
    for _ in 0..trace.len() - 1 {
        p.retreat(&trace);
    }
    assert_eq!(p.index, 0);
    assert_eq!(p.done_scroll_offset, 0);
}

#[test]
fn completed_before_cursor_in_emission_order() {
    let trace = run("3\naab").unwrap();
    let mut p = Player::new(&trace);
    for _ in 0..trace.len() - 1 {
        p.advance(&trace);
    }
    let all: Vec<String> = p
        .completed_before_cursor(&trace)
        .iter()
        .map(|s| s.iter().collect::<String>())
        .collect();
    let mut expected = done_snapshots(&trace);
    // The last step is under the cursor, not before it.
    if trace.get(trace.len() - 1).unwrap().tag == State::Done {
        expected.pop();
    }
    assert_eq!(all, expected);
}

#[test]
fn snapshots_are_independent_copies() {
    let trace = run("2\nab").unwrap();
    // Two steps recorded at different moments hold different sequences,
    // so no recorded snapshot aliases the live working sequence.
    let sorted = trace.get(1).unwrap().snapshot.clone();
    let dones = done_snapshots(&trace);
    assert_eq!(sorted, vec!['a', 'b']);
    assert_eq!(dones[1], "ba".to_string());
}
