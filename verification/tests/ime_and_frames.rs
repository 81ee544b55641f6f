//! The input method, and the time that frames take.

use quill::frame_stats::{aggregate, FrameStats, Snapshot, FRAME_WINDOW};
use quill::ime::{handle_text_input_event, CursorRectangle, ImeAction, ImeState, TextInputEvent};

fn preedit_event(text: Option<&str>, cursor_begin: i32, cursor_end: i32) -> TextInputEvent {
    TextInputEvent::PreeditString {
        text: text.map(String::from),
        cursor_begin,
        cursor_end,
    }
}

fn commit_event(text: Option<&str>) -> TextInputEvent {
    TextInputEvent::CommitString {
        text: text.map(String::from),
    }
}

fn done_event(serial: u32) -> TextInputEvent {
    TextInputEvent::Done { serial }
}

fn delete_event(before: u32, after: u32) -> TextInputEvent {
    TextInputEvent::DeleteSurroundingText {
        before_length: before,
        after_length: after,
    }
}

#[test]
fn preedit_then_commit_then_done_yields_commit_action() {
    let mut state = ImeState::new();
    let action = handle_text_input_event(preedit_event(Some("ni"), 2, 2), &mut state);
    assert_eq!(action, ImeAction::Nothing);
    let action = handle_text_input_event(done_event(1), &mut state);
    assert_eq!(
        action,
        ImeAction::UpdatePreedit { text: "ni".into(), cursor_begin: 2, cursor_end: 2 }
    );
    assert_eq!(state.current_preedit(), "ni");
    handle_text_input_event(commit_event(Some("你")), &mut state);
    handle_text_input_event(preedit_event(Some(""), 0, 0), &mut state);
    let action = handle_text_input_event(done_event(2), &mut state);
    match action {
        ImeAction::Composite(actions) => {
            assert_eq!(actions.len(), 2);
            assert!(matches!(actions[0], ImeAction::Commit(ref bytes) if bytes == "你".as_bytes()));
            assert!(matches!(actions[1], ImeAction::UpdatePreedit { ref text, .. } if text.is_empty()));
        }
        other => panic!("{other:?}"),
    }
    assert_eq!(state.current_preedit(), "");
}

#[test]
fn commit_only_done_yields_single_commit_action() {
    let mut state = ImeState::new();
    handle_text_input_event(commit_event(Some("hello")), &mut state);
    let action = handle_text_input_event(done_event(1), &mut state);
    assert_eq!(action, ImeAction::Commit(b"hello".to_vec()));
}

#[test]
fn preedit_only_done_yields_single_update_preedit() {
    let mut state = ImeState::new();
    handle_text_input_event(preedit_event(Some("hao"), 3, 3), &mut state);
    let action = handle_text_input_event(done_event(1), &mut state);
    assert_eq!(
        action,
        ImeAction::UpdatePreedit { text: "hao".into(), cursor_begin: 3, cursor_end: 3 }
    );
}

#[test]
fn empty_done_yields_nothing() {
    let mut state = ImeState::new();
    let action = handle_text_input_event(done_event(1), &mut state);
    assert_eq!(action, ImeAction::Nothing);
}

#[test]
fn composite_action_orders_delete_commit_preedit() {
    let mut state = ImeState::new();
    handle_text_input_event(commit_event(Some("X")), &mut state);
    handle_text_input_event(preedit_event(Some("Y"), 1, 1), &mut state);
    handle_text_input_event(delete_event(2, 0), &mut state);
    let action = handle_text_input_event(done_event(1), &mut state);
    match action {
        ImeAction::Composite(actions) => {
            assert_eq!(actions.len(), 3);
            assert!(matches!(
                actions[0],
                ImeAction::DeleteSurroundingText { before: 2, after: 0 }
            ));
            assert!(matches!(actions[1], ImeAction::Commit(ref b) if b == b"X"));
            assert!(matches!(actions[2], ImeAction::UpdatePreedit { ref text, .. } if text == "Y"));
        }
        other => panic!("{other:?}"),
    }
}

#[test]
fn preedit_string_with_none_text_treated_as_empty() {
    let mut state = ImeState::new();
    handle_text_input_event(preedit_event(None, -1, -1), &mut state);
    let action = handle_text_input_event(done_event(1), &mut state);
    assert_eq!(
        action,
        ImeAction::UpdatePreedit { text: String::new(), cursor_begin: -1, cursor_end: -1 }
    );
    assert_eq!(state.current_preedit(), "");
}

#[test]
fn commit_string_with_none_text_yields_nothing() {
    let mut state = ImeState::new();
    handle_text_input_event(commit_event(None), &mut state);
    let action = handle_text_input_event(done_event(1), &mut state);
    assert_eq!(action, ImeAction::Nothing);
}

#[test]
fn commit_string_with_empty_text_yields_nothing() {
    let mut state = ImeState::new();
    handle_text_input_event(commit_event(Some("")), &mut state);
    let action = handle_text_input_event(done_event(1), &mut state);
    assert_eq!(action, ImeAction::Nothing);
}

#[test]
fn leave_clears_preedit_and_returns_leave_focus() {
    let mut state = ImeState::new();
    handle_text_input_event(preedit_event(Some("xie"), 3, 3), &mut state);
    handle_text_input_event(done_event(1), &mut state);
    assert_eq!(state.current_preedit(), "xie");
    assert!(!state.is_enabled());
    let action = handle_text_input_event(TextInputEvent::Leave, &mut state);
    assert_eq!(action, ImeAction::LeaveFocus);
    assert_eq!(state.current_preedit(), "");
    assert_eq!(state.current_preedit_cursor(), (-1, -1));
}

#[test]
fn entering_the_focus_forgets_what_was_said() {
    let mut state = ImeState::new();
    handle_text_input_event(commit_event(Some("lost")), &mut state);
    let action = handle_text_input_event(TextInputEvent::Enter, &mut state);
    assert_eq!(action, ImeAction::EnterFocus);
    assert!(state.is_enabled());
    assert_eq!(handle_text_input_event(done_event(1), &mut state), ImeAction::Nothing);
    assert_eq!(handle_text_input_event(TextInputEvent::Other, &mut state), ImeAction::Nothing);
}

#[test]
fn a_group_without_a_text_leaves_the_one_that_is_shown() {
    let mut state = ImeState::new();
    handle_text_input_event(preedit_event(Some("ni"), 2, 2), &mut state);
    handle_text_input_event(done_event(1), &mut state);
    handle_text_input_event(commit_event(Some("x")), &mut state);
    handle_text_input_event(done_event(2), &mut state);
    assert_eq!(state.current_preedit(), "ni");
    assert_eq!(state.current_preedit_cursor(), (2, 2));
}

#[test]
fn default_state_is_disabled_with_no_preedit() {
    let state = ImeState::new();
    assert!(!state.is_enabled());
    assert_eq!(state.current_preedit(), "");
    assert_eq!(state.current_preedit_cursor(), (0, 0));
}

#[test]
fn cursor_rectangle_first_call_returns_some() {
    let mut state = ImeState::new();
    let r1 = CursorRectangle { x: 10, y: 20, width: 5, height: 12 };
    assert_eq!(state.update_cursor_rectangle(r1), Some(r1));
}

#[test]
fn cursor_rectangle_unchanged_returns_none() {
    let mut state = ImeState::new();
    let r1 = CursorRectangle { x: 10, y: 20, width: 5, height: 12 };
    let _ = state.update_cursor_rectangle(r1);
    assert_eq!(state.update_cursor_rectangle(r1), None);
}

#[test]
fn cursor_rectangle_changed_returns_some_new() {
    let mut state = ImeState::new();
    let r1 = CursorRectangle { x: 10, y: 20, width: 5, height: 12 };
    let _ = state.update_cursor_rectangle(r1);
    let r2 = CursorRectangle { x: 30, y: 40, width: 5, height: 12 };
    assert_eq!(state.update_cursor_rectangle(r2), Some(r2));
}

#[test]
fn multi_frame_sequence_two_commits() {
    let mut state = ImeState::new();
    handle_text_input_event(preedit_event(Some("ni"), 2, 2), &mut state);
    let _ = handle_text_input_event(done_event(1), &mut state);
    handle_text_input_event(commit_event(Some("你")), &mut state);
    handle_text_input_event(preedit_event(Some(""), 0, 0), &mut state);
    let action = handle_text_input_event(done_event(2), &mut state);
    match action {
        ImeAction::Composite(ref a) => {
            assert!(matches!(a[0], ImeAction::Commit(ref b) if b == "你".as_bytes()));
        }
        _ => panic!(),
    }
    assert_eq!(state.current_preedit(), "");
    handle_text_input_event(preedit_event(Some("hao"), 3, 3), &mut state);
    let _ = handle_text_input_event(done_event(3), &mut state);
    assert_eq!(state.current_preedit(), "hao");
    handle_text_input_event(commit_event(Some("好")), &mut state);
    handle_text_input_event(preedit_event(Some(""), 0, 0), &mut state);
    let action = handle_text_input_event(done_event(4), &mut state);
    match action {
        ImeAction::Composite(ref a) => {
            assert!(matches!(a[0], ImeAction::Commit(ref b) if b == "好".as_bytes()));
        }
        _ => panic!(),
    }
}

#[test]
fn pending_cleared_after_done() {
    let mut state = ImeState::new();
    handle_text_input_event(commit_event(Some("a")), &mut state);
    let _ = handle_text_input_event(done_event(1), &mut state);
    let action = handle_text_input_event(done_event(2), &mut state);
    assert_eq!(action, ImeAction::Nothing);
}

#[test]
fn commit_utf8_multibyte_bytes_preserved() {
    let mut state = ImeState::new();
    handle_text_input_event(commit_event(Some("你好世界")), &mut state);
    let action = handle_text_input_event(done_event(1), &mut state);
    assert_eq!(action, ImeAction::Commit("你好世界".as_bytes().to_vec()));
}

fn micros(n: u64) -> u64 {
    n * 1_000
}

fn millis(n: u64) -> u64 {
    n * 1_000_000
}

fn make_stats_from_deltas(deltas: &[u64]) -> Option<Snapshot> {
    let mut stats = FrameStats::new();
    let mut t: u64 = 77_000_000;
    assert!(stats.record_present(t).is_none());
    let mut out = None;
    for dt in deltas {
        t += *dt;
        out = stats.record_present(t);
    }
    out
}

#[test]
fn baseline_then_uniform_window_fills_once() {
    let step = micros(16_667);
    let deltas = vec![step; FRAME_WINDOW];
    let snap = make_stats_from_deltas(&deltas).unwrap();
    assert_eq!(snap.frames, FRAME_WINDOW);
    assert_eq!(snap.elapsed, step as u128 * FRAME_WINDOW as u128);
    assert_eq!(snap.min, step);
    assert_eq!(snap.max, step);
    assert_eq!(snap.avg, step);
}

#[test]
fn varied_intervals_preserve_min_avg_max() {
    let mut deltas = vec![millis(16); FRAME_WINDOW];
    deltas[10] = micros(14_900);
    deltas[40] = micros(22_100);
    let snap = make_stats_from_deltas(&deltas).unwrap();
    assert_eq!(snap.frames, FRAME_WINDOW);
    assert_eq!(snap.min, micros(14_900));
    assert_eq!(snap.max, micros(22_100));
    let expected_sum: u64 = deltas.iter().copied().sum();
    assert_eq!(snap.elapsed, expected_sum as u128);
    assert_eq!(snap.avg, expected_sum / FRAME_WINDOW as u64);
}

#[test]
fn partial_window_returns_none_and_does_not_flush() {
    let mut stats = FrameStats::new();
    let mut t: u64 = 1;
    stats.record_present(t);
    for _ in 0..(FRAME_WINDOW - 1) {
        t += millis(16);
        assert!(stats.record_present(t).is_none());
    }
}

#[test]
fn second_window_starts_fresh_after_snapshot() {
    let step1 = millis(16);
    let step2 = millis(20);
    let mut stats = FrameStats::new();
    let mut t: u64 = 1;
    stats.record_present(t);
    let mut first = None;
    for _ in 0..FRAME_WINDOW {
        t += step1;
        first = stats.record_present(t);
    }
    let first = first.unwrap();
    assert_eq!(first.avg, step1);
    let mut second = None;
    for _ in 0..FRAME_WINDOW {
        t += step2;
        second = stats.record_present(t);
    }
    let second = second.unwrap();
    assert_eq!(second.frames, FRAME_WINDOW);
    assert_eq!(second.min, step2);
    assert_eq!(second.max, step2);
    assert_eq!(second.avg, step2);
}

#[test]
fn time_that_runs_backwards_counts_as_none() {
    let mut stats = FrameStats::new();
    stats.record_present(100);
    let mut last = None;
    for _ in 0..FRAME_WINDOW {
        last = stats.record_present(50);
    }
    let snap = last.unwrap();
    assert_eq!((snap.elapsed, snap.min, snap.max, snap.avg), (0, 0, 0, 0));
    assert_eq!(aggregate(&vec![]).frames, 0);
    assert_eq!(aggregate(&vec![3, 4]).avg, 3);
}

#[test]
fn every_window_gives_one_summary() {
    let mut stats = FrameStats::new();
    let mut t: u64 = 5;
    assert!(stats.record_present(t).is_none());
    for k in 1..=(3 * FRAME_WINDOW as u64) {
        t += k;
        let got = stats.record_present(t);
        assert_eq!(got.is_some(), k % FRAME_WINDOW as u64 == 0);
        if let Some(snap) = got {
            assert_eq!((snap.min, snap.max), (k - FRAME_WINDOW as u64 + 1, k));
            assert!(snap.min <= snap.avg && snap.avg <= snap.max);
        }
    }
}

#[test]
fn more_than_a_window_is_summed_up_too() {
    let snap = aggregate(&vec![u64::MAX; 2 * FRAME_WINDOW]);
    assert_eq!(snap.frames, 2 * FRAME_WINDOW);
    assert_eq!(snap.elapsed, 2 * FRAME_WINDOW as u128 * u64::MAX as u128);
    assert_eq!((snap.min, snap.avg, snap.max), (u64::MAX, u64::MAX, u64::MAX));
}
