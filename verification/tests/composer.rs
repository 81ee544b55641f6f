//! The composer: its tokens, its marks, its candidates and its keys.

use quill::completion::{GenerationId, Suggestion, SuggestionGroup};
use quill::composer::fuzzy::{fuzzy_filter, score_subsequence};
use quill::composer::prompt_track::{Osc133Event, Osc133Scanner, Segment};
use quill::composer::state::{ComposerInput, ComposerOutcome, ComposerState};
use quill::composer::tokenizer::{tokenize, RedirectKind, TokenKind};

fn suggestion(text: &str) -> Suggestion {
    Suggestion {
        text: text.to_string(),
        display: text.to_string(),
        description: String::new(),
        group: SuggestionGroup::Dynamic,
    }
}

fn active_state() -> ComposerState {
    let mut state = ComposerState::new();
    state.feed_pty_output(b"\x1b]133;A\x07");
    state
}

fn type_chars(state: &mut ComposerState, text: &str) {
    for ch in text.chars() {
        assert_eq!(state.handle_input(ComposerInput::Char(ch)), ComposerOutcome::Consumed);
    }
}

#[test]
fn test_simple_words() {
    let t = tokenize("git checkout main", 0);
    assert_eq!(t.tokens.len(), 3);
    assert!(t.tokens.iter().all(|tk| tk.kind == TokenKind::Word));
    assert_eq!(t.tokens[2].text, "main");
}

#[test]
fn test_single_quotes() {
    let t = tokenize("echo 'hello world'", 0);
    assert_eq!(t.tokens.len(), 2);
    assert_eq!(t.tokens[1].text, "hello world");
    assert_eq!(t.tokens[1].raw, "'hello world'");
}

#[test]
fn test_double_quotes_with_escape() {
    let t = tokenize(r#"echo "a\"b""#, 0);
    assert_eq!(t.tokens.len(), 2);
    assert_eq!(t.tokens[1].text, r#"a"b"#);
}

#[test]
fn test_backslash_space() {
    let t = tokenize(r"cd path\ with\ spaces", 0);
    assert_eq!(t.tokens.len(), 2);
    assert_eq!(t.tokens[1].text, "path with spaces");
}

#[test]
fn test_pipe_simple() {
    let t = tokenize("ls | grep foo", 0);
    assert_eq!(t.tokens.len(), 4);
    assert_eq!(t.tokens[1].kind, TokenKind::Pipe);
    assert!(matches!(t.tokens[0].kind, TokenKind::Word));
}

#[test]
fn test_redirect_out() {
    let t = tokenize("echo hi > file.txt", 0);
    assert_eq!(t.tokens.len(), 4);
    assert_eq!(t.tokens[2].kind, TokenKind::Redirect(RedirectKind::Out));
    assert_eq!(t.tokens[3].text, "file.txt");
}

#[test]
fn test_redirect_append() {
    let t = tokenize("echo hi >> file", 0);
    assert_eq!(t.tokens.len(), 4);
    assert_eq!(t.tokens[2].kind, TokenKind::Redirect(RedirectKind::Append));
}

#[test]
fn test_sequence_and() {
    let t = tokenize("a && b", 0);
    assert_eq!(t.tokens.len(), 3);
    assert_eq!(t.tokens[1].kind, TokenKind::Sequence);
    assert_eq!(t.tokens[1].raw, "&&");
}

#[test]
fn test_unterminated_quote() {
    let t = tokenize("echo 'hello", 0);
    assert_eq!(t.tokens.len(), 2);
    assert_eq!(t.tokens[1].kind, TokenKind::Unterminated);
    assert_eq!(t.tokens[1].text, "hello");
}

#[test]
fn test_cursor_in_middle() {
    let t = tokenize("git ch", 6);
    assert_eq!(t.current_token_idx, Some(1));
    assert_eq!(t.current_token_offset, 2);
}

#[test]
fn test_cursor_in_whitespace() {
    let t = tokenize("git  checkout", 4);
    assert_eq!(t.current_token_idx, None);
}

#[test]
fn test_cursor_at_end_no_trailing_space() {
    let t = tokenize("git ch", 6);
    assert_eq!(t.current_token_idx, Some(1));
}

#[test]
fn test_cursor_at_end_after_space() {
    let t = tokenize("git ", 4);
    assert_eq!(t.current_token_idx, None);
}

#[test]
fn test_pipe_at_cursor() {
    let t = tokenize("ls | gr", 7);
    assert_eq!(t.current_token_idx, Some(2));
    assert_eq!(t.current_token_offset, 2);
}

#[test]
fn other_operators() {
    let t = tokenize("a & b; c || d < e << f", 0);
    let kinds: Vec<TokenKind> = t.tokens.iter().map(|t| t.kind).filter(|k| *k != TokenKind::Word).collect();
    assert_eq!(
        kinds,
        vec![
            TokenKind::Background,
            TokenKind::Sequence,
            TokenKind::Sequence,
            TokenKind::Redirect(RedirectKind::In),
            TokenKind::Redirect(RedirectKind::Heredoc),
        ]
    );
}

#[test]
fn tokens_cover_all_but_blanks() {
    let line = "echo \"你 好\" | grep 'x";
    let t = tokenize(line, 0);
    let mut rebuilt = String::new();
    let mut at = 0;
    for tok in &t.tokens {
        assert!(line[at..tok.start].chars().all(|c| c == ' '));
        assert_eq!(&line[tok.start..tok.end], tok.raw);
        rebuilt.push_str(&tok.raw);
        at = tok.end;
    }
    assert_eq!(rebuilt, "echo\"你 好\"|grep'x");
    assert_eq!(t.tokens[1].text, "你 好");
}

#[test]
fn test_simple_prompt_start() {
    let mut scanner = Osc133Scanner::new();
    assert_eq!(
        scanner.feed(b"\x1b]133;A\x07hello"),
        vec![Segment::Marker(Osc133Event::PromptStart), Segment::Bytes(b"hello")]
    );
}

#[test]
fn test_st_terminator() {
    let mut scanner = Osc133Scanner::new();
    assert_eq!(
        scanner.feed(b"\x1b]133;A\x1b\\hello"),
        vec![Segment::Marker(Osc133Event::PromptStart), Segment::Bytes(b"hello")]
    );
}

#[test]
fn test_command_done_with_exit() {
    let mut scanner = Osc133Scanner::new();
    assert_eq!(
        scanner.feed(b"\x1b]133;D;0\x07"),
        vec![Segment::Marker(Osc133Event::CommandDone(Some(0)))]
    );
}

#[test]
fn test_command_done_no_exit() {
    let mut scanner = Osc133Scanner::new();
    assert_eq!(
        scanner.feed(b"\x1b]133;D\x07"),
        vec![Segment::Marker(Osc133Event::CommandDone(None))]
    );
}

#[test]
fn test_split_across_reads() {
    let mut scanner = Osc133Scanner::new();
    assert_eq!(scanner.feed(b"\x1b]13"), Vec::<Segment<'_>>::new());
    assert_eq!(
        scanner.feed(b"3;A\x07x"),
        vec![Segment::Marker(Osc133Event::PromptStart), Segment::Bytes(b"x")]
    );
}

#[test]
fn test_non_133_osc_passthrough() {
    let mut scanner = Osc133Scanner::new();
    assert_eq!(
        scanner.feed(b"\x1b]0;title\x07"),
        vec![Segment::Bytes(b"\x1b]0;title\x07")]
    );
}

#[test]
fn test_mixed_text_and_marker() {
    let mut scanner = Osc133Scanner::new();
    assert_eq!(
        scanner.feed(b"abc\x1b]133;A\x07def"),
        vec![
            Segment::Bytes(b"abc"),
            Segment::Marker(Osc133Event::PromptStart),
            Segment::Bytes(b"def"),
        ]
    );
}

#[test]
fn test_partial_buffer_overflow_protection() {
    let mut scanner = Osc133Scanner::new();
    let chunk = vec![b'x'; 1024];
    let mut saw_passthrough = false;
    assert_eq!(scanner.feed(b"\x1b]133;A"), Vec::<Segment<'_>>::new());
    for _ in 0..100 {
        let segments = scanner.feed(&chunk);
        if !segments.is_empty() {
            saw_passthrough = true;
            assert!(matches!(segments.as_slice(), [Segment::Bytes(_)]));
        }
    }
    assert!(saw_passthrough);
}

#[test]
fn other_marks() {
    let mut scanner = Osc133Scanner::new();
    assert_eq!(
        scanner.feed(b"\x1b]133;B\x07\x1b]133;C\x07\x1b]133;D;-7\x07"),
        vec![
            Segment::Marker(Osc133Event::InputStart),
            Segment::Marker(Osc133Event::CommandStart),
            Segment::Marker(Osc133Event::CommandDone(Some(-7))),
        ]
    );
}

#[test]
fn scoring_rules_cover_order_contiguous_and_word_start() {
    assert!(score_subsequence("checkout", "cho").is_some());
    assert!(score_subsequence("checkout", "coh").is_none());
    let contiguous = score_subsequence("checkout", "che").unwrap();
    let scattered = score_subsequence("cache-entry", "che").unwrap();
    assert!(contiguous > scattered);
    let word_start = score_subsequence("--all-files", "af").unwrap();
    let middle = score_subsequence("--waffle", "af").unwrap();
    assert!(word_start > middle);
}

#[test]
fn filter_sorts_best_first() {
    let out = fuzzy_filter(
        vec![suggestion("commit"), suggestion("checkout"), suggestion("cherry-pick")],
        "ch",
    );
    assert_eq!(out[0].text, "checkout");
    assert_eq!(out[1].text, "cherry-pick");
}

#[test]
fn an_empty_query_keeps_all_in_order() {
    let out = fuzzy_filter(vec![suggestion("b"), suggestion("a")], "");
    let texts: Vec<&str> = out.iter().map(|s| s.text.as_str()).collect();
    assert_eq!(texts, vec!["b", "a"]);
    assert_eq!(score_subsequence("x", ""), Some(0));
}

#[test]
fn test_initial_state() {
    let state = ComposerState::new();
    assert!(!state.is_active());
    assert_eq!(state.buffer(), "");
    assert_eq!(state.cursor(), 0);
}

#[test]
fn test_prompt_start_activates() {
    let mut state = active_state();
    type_chars(&mut state, "stale");
    assert_eq!(state.cursor(), 5);
    let segments = state.feed_pty_output(b"\x1b]133;A\x07");
    assert_eq!(segments, vec![Segment::Marker(Osc133Event::PromptStart)]);
    drop(segments);
    assert!(state.is_active());
    assert_eq!(state.buffer(), "");
    assert_eq!(state.cursor(), 0);
}

#[test]
fn test_command_start_deactivates() {
    let mut state = active_state();
    state.feed_pty_output(b"\x1b]133;C\x07");
    assert!(!state.is_active());
}

#[test]
fn test_gate_blocks_when_ime() {
    let mut state = active_state();
    state.set_ime_preedit_active(true);
    assert_eq!(state.handle_input(ComposerInput::Char('x')), ComposerOutcome::Passthrough);
    assert_eq!(state.buffer(), "");
}

#[test]
fn test_gate_blocks_when_alt_screen() {
    let mut state = active_state();
    state.set_alt_screen(true);
    assert_eq!(state.handle_input(ComposerInput::Char('x')), ComposerOutcome::Passthrough);
    assert_eq!(state.buffer(), "");
}

#[test]
fn test_char_insert_at_cursor() {
    let mut state = active_state();
    type_chars(&mut state, "ab");
    state.handle_input(ComposerInput::LeftArrow);
    state.handle_input(ComposerInput::Char('x'));
    assert_eq!(state.buffer(), "axb");
    assert_eq!(state.cursor(), 2);
}

#[test]
fn test_backspace_deletes_prev_char() {
    let mut state = active_state();
    type_chars(&mut state, "ab");
    state.handle_input(ComposerInput::Backspace);
    assert_eq!(state.buffer(), "a");
    assert_eq!(state.cursor(), 1);
}

#[test]
fn test_backspace_handles_multibyte() {
    let mut state = active_state();
    type_chars(&mut state, "a你");
    state.handle_input(ComposerInput::Backspace);
    assert_eq!(state.buffer(), "a");
    assert_eq!(state.cursor(), 1);
}

#[test]
fn test_arrow_moves_cursor() {
    let mut state = active_state();
    type_chars(&mut state, "a你b");
    state.handle_input(ComposerInput::LeftArrow);
    assert_eq!(state.cursor(), 4);
    state.handle_input(ComposerInput::LeftArrow);
    assert_eq!(state.cursor(), 1);
    state.handle_input(ComposerInput::RightArrow);
    assert_eq!(state.cursor(), 4);
    state.handle_input(ComposerInput::Home);
    assert_eq!(state.cursor(), 0);
    state.handle_input(ComposerInput::End);
    assert_eq!(state.cursor(), 5);
}

#[test]
fn test_enter_returns_submit_and_clears() {
    let mut state = active_state();
    type_chars(&mut state, "ls");
    assert_eq!(
        state.handle_input(ComposerInput::Enter),
        ComposerOutcome::Submit("ls".to_string())
    );
    assert_eq!(state.buffer(), "");
    assert_eq!(state.cursor(), 0);
}

#[test]
fn test_escape_clears_returns_consumed() {
    let mut state = active_state();
    type_chars(&mut state, "x");
    assert_eq!(state.handle_input(ComposerInput::Escape), ComposerOutcome::Consumed);
    assert_eq!(state.buffer(), "");
    assert!(!state.is_active());
}

#[test]
fn test_pending_gen_increments_on_keystroke() {
    let mut state = active_state();
    assert_eq!(state.pending_gen(), GenerationId(0));
    state.handle_input(ComposerInput::Char('a'));
    state.handle_input(ComposerInput::LeftArrow);
    assert_eq!(state.pending_gen(), GenerationId(2));
}

#[test]
fn test_pty_segments_passthrough_non_133() {
    let mut state = ComposerState::new();
    assert_eq!(
        state.feed_pty_output(b"abc\x1b]0;title\x07def"),
        vec![Segment::Bytes(b"abc\x1b]0;title\x07def")]
    );
}

#[test]
fn test_tab_cycles_candidates_without_query() {
    let mut state = active_state();
    assert!(state.poll_results(vec![(GenerationId(0), vec![suggestion("a"), suggestion("b")])]));
    assert_eq!(state.selected(), Some(0));
    assert_eq!(state.handle_input(ComposerInput::Tab), ComposerOutcome::Consumed);
    assert_eq!(state.selected(), Some(1));
    assert!(!state.take_debounce_request());
    assert_eq!(state.handle_input(ComposerInput::BackTab), ComposerOutcome::Consumed);
    assert_eq!(state.selected(), Some(0));
}

#[test]
fn test_right_accepts_selected_candidate() {
    let mut state = active_state();
    type_chars(&mut state, "git ch");
    let gen = state.pending_gen();
    assert!(state.poll_results(vec![(gen, vec![suggestion("checkout")])]));
    assert_eq!(state.handle_input(ComposerInput::RightArrow), ComposerOutcome::Consumed);
    assert_eq!(state.buffer(), "git checkout");
    assert_eq!(state.cursor(), "git checkout".len());
    assert!(state.take_debounce_request());
}

#[test]
fn delete_removes_the_character_at_the_cursor() {
    let mut state = active_state();
    type_chars(&mut state, "a你b");
    state.handle_input(ComposerInput::Home);
    state.handle_input(ComposerInput::RightArrow);
    state.handle_input(ComposerInput::Delete);
    assert_eq!(state.buffer(), "ab");
    assert_eq!(state.cursor(), 1);
    state.handle_input(ComposerInput::End);
    state.handle_input(ComposerInput::Delete);
    assert_eq!(state.buffer(), "ab");
}

#[test]
fn a_question_is_asked_for_the_command_at_the_cursor() {
    let mut state = active_state();
    type_chars(&mut state, "ls | git ch");
    let ctx = state.trigger_query(3, "/work").unwrap();
    assert_eq!(ctx.command, "git");
    assert_eq!(ctx.current_token, "ch");
    assert_eq!(ctx.previous_tokens, vec!["git".to_string()]);
    assert_eq!(ctx.working_dir, "/work");
    assert!(state.has_pending_results());
    let gen = state.pending_gen();
    assert!(!state.poll_results(vec![(gen, vec![]), (gen, vec![]), (gen, vec![])]));
    assert!(!state.has_pending_results());
}

#[test]
fn no_question_without_a_command() {
    let mut state = active_state();
    assert!(state.trigger_query(3, "/").is_none());
    type_chars(&mut state, "ls | ");
    assert!(state.trigger_query(3, "/").is_none());
    let mut idle = ComposerState::new();
    assert!(idle.trigger_query(3, "/").is_none());
}

#[test]
fn answers_to_an_old_question_are_ignored() {
    let mut state = active_state();
    type_chars(&mut state, "g");
    let old_gen = state.pending_gen();
    type_chars(&mut state, "i");
    assert!(!state.poll_results(vec![(old_gen, vec![suggestion("git")])]));
    assert!(state.candidates().is_empty());
    assert!(!state.popup_visible());
}

#[test]
fn candidates_are_merged_without_duplicates() {
    let mut state = active_state();
    type_chars(&mut state, "c");
    let gen = state.pending_gen();
    state.trigger_query(2, "/");
    state.poll_results(vec![
        (gen, vec![suggestion("cat"), suggestion("cd")]),
        (gen, vec![suggestion("cd"), suggestion("cp")]),
    ]);
    let mut texts: Vec<&str> = state.candidates().iter().map(|s| s.text.as_str()).collect();
    texts.sort();
    assert_eq!(texts, vec!["cat", "cd", "cp"]);
    assert!(state.popup_visible());
}

#[test]
fn a_typed_character_and_a_backspace_leave_the_line() {
    let mut state = active_state();
    type_chars(&mut state, "a你");
    state.handle_input(ComposerInput::LeftArrow);
    state.handle_input(ComposerInput::Char('é'));
    state.handle_input(ComposerInput::Backspace);
    assert_eq!(state.buffer(), "a你");
    assert_eq!(state.cursor(), 1);
    let t = state.current_tokenization();
    assert_eq!(t.current_token_idx, Some(0));
    assert_eq!(t.current_token_offset, 1);
}

#[test]
fn tokens_stand_apart_in_the_buffer() {
    let line = "écho 'a b'|wc  -l>>out 2>err \"x";
    let t = tokenize(line, 0);
    let raws: Vec<&str> = t.tokens.iter().map(|k| k.raw.as_str()).collect();
    assert_eq!(
        raws,
        vec!["écho", "'a b'", "|", "wc", "-l", ">>", "out", "2>", "err", "\"x"]
    );
    let mut at = 0;
    for token in &t.tokens {
        assert!(line[at..token.start].chars().all(|c| c == ' ' || c == '\t'));
        assert_eq!(&line[token.start..token.end], token.raw);
        assert!(token.start < token.end);
        at = token.end;
    }
    for cursor in 0..=line.len() {
        let n = t.tokens.iter().filter(|k| k.start <= cursor && cursor < k.end).count();
        assert!(n <= 1);
    }
}

#[test]
fn enter_accepts_the_selected_candidate_and_then_submits() {
    let mut state = active_state();
    type_chars(&mut state, "git ch");
    let gen = state.pending_gen();
    assert!(state.poll_results(vec![(gen, vec![suggestion("checkout")])]));
    assert_eq!(state.handle_input(ComposerInput::Enter), ComposerOutcome::Consumed);
    assert_eq!(state.buffer(), "git checkout");
    assert_eq!(state.cursor(), "git checkout".len());
    assert!(state.candidates().is_empty());
    assert!(state.take_debounce_request());
    assert_eq!(
        state.handle_input(ComposerInput::Enter),
        ComposerOutcome::Submit("git checkout".to_string())
    );
    assert_eq!(state.buffer(), "");
}

#[test]
fn the_last_mark_decides_whether_keys_are_taken() {
    let mut state = ComposerState::new();
    state.feed_pty_output(b"\x1b]133;A\x07$ \x1b]133;B\x07ls\x1b]133;C\x07");
    assert!(!state.is_active());
    state.feed_pty_output(b"out\x1b]133;D;0\x07\x1b]133;A\x07");
    assert!(state.is_active());
    state.set_alt_screen(true);
    assert!(!state.is_active());
    state.set_alt_screen(false);
    assert!(state.is_active());
}

#[test]
fn escape_lasts_until_the_next_prompt() {
    let mut state = active_state();
    state.handle_input(ComposerInput::Escape);
    assert_eq!(state.handle_input(ComposerInput::Char('x')), ComposerOutcome::Passthrough);
    state.feed_pty_output(b"some output");
    state.set_alt_screen(true);
    state.set_alt_screen(false);
    assert!(!state.is_active());
    state.feed_pty_output(b"\x1b]133;A\x07");
    assert!(state.is_active());
    assert_eq!(state.handle_input(ComposerInput::Char('x')), ComposerOutcome::Consumed);
}

#[test]
fn a_change_makes_a_question_due_once() {
    let mut state = active_state();
    assert!(!state.take_debounce_request());
    type_chars(&mut state, "ab");
    assert!(state.take_debounce_request());
    assert!(!state.take_debounce_request());
    state.handle_input(ComposerInput::Backspace);
    assert!(state.take_debounce_request());
    assert!(!state.take_debounce_request());
}

#[test]
fn two_lines_joined_by_a_blank_have_the_tokens_of_both() {
    let first = "echo 'a b' >>out";
    let second = "grep \"x y\" | wc";
    let joined = format!("{first} {second}");
    let a = tokenize(first, 0).tokens;
    let b = tokenize(second, 0).tokens;
    let both = tokenize(&joined, 0).tokens;
    assert_eq!(both.len(), a.len() + b.len());
    for (k, token) in both.iter().enumerate() {
        let (part, moved) = if k < a.len() {
            (&a[k], 0)
        } else {
            (&b[k - a.len()], first.len() + 1)
        };
        assert_eq!((&token.text, &token.raw, token.kind), (&part.text, &part.raw, part.kind));
        assert_eq!((token.start, token.end), (part.start + moved, part.end + moved));
    }
    let open = tokenize("echo 'a ls", 0).tokens;
    assert_eq!(open.len(), 2);
}

#[test]
fn a_score_is_given_to_subsequences_only() {
    for (text, query, found) in [
        ("checkout", "ckt", true),
        ("checkout", "tkc", false),
        ("Checkout", "cO", true),
        ("ab", "abb", false),
        ("", "", true),
    ] {
        assert_eq!(score_subsequence(text, query).is_some(), found);
    }
    assert_eq!(score_subsequence("ab", "a"), Some(18));
}

#[test]
fn equal_candidates_stay_in_the_order_given() {
    let mut first = suggestion("x");
    first.display = "abc".to_string();
    let mut second = suggestion("y");
    second.display = "abc".to_string();
    let out = fuzzy_filter(vec![second.clone(), suggestion("zzz"), first.clone()], "abc");
    assert_eq!(out, vec![second, first]);
}
