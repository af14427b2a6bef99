use smokey::layout::{render_test, SpanStyle};
use smokey::punct::Punctuation;
use smokey::typing::{test_key_handle, Action, Key, TestState};

fn cat_dog_state() -> TestState {
    let words = vec!["cat".to_string(), "dog".to_string()];
    let puncts = vec![Punctuation::Null, Punctuation::Null];
    let buffer = render_test(&words, &puncts, 100);
    TestState::from_buffer(buffer).expect("buffer fits")
}

#[test]
fn fresh_state_starts_at_the_first_glyph() {
    let ts = cat_dog_state();
    assert_eq!(ts.test_length, 8);
    assert_eq!(ts.done, 0);
    assert_eq!(ts.correct, 0);
    assert_eq!(ts.mistakes, 0);
    assert_eq!(ts.blanks, 0);
    assert_eq!(ts.cursor_x, 0);
    assert_eq!(ts.current_char, 'c');
}

#[test]
fn typing_everything_correctly_completes_and_restarts() {
    let mut ts = cat_dog_state();
    for c in ['c', 'a', 't', ' ', 'd', 'o'] {
        assert_eq!(test_key_handle(Key::Char(c), &mut ts), Action::Idle);
    }
    assert_eq!(test_key_handle(Key::Char('g'), &mut ts), Action::Restart);
    assert_eq!(ts.correct, 7);
    assert_eq!(ts.mistakes, 0);
    assert_eq!(ts.done, ts.test_length);
    assert_eq!(ts.blanks, 1);
}

#[test]
fn blank_is_skipped_after_a_word() {
    let mut ts = cat_dog_state();
    for c in ['c', 'a', 't'] {
        test_key_handle(Key::Char(c), &mut ts);
    }
    // the overflow slot was hopped: done counts it, the separator is next
    assert_eq!(ts.done, 4);
    assert_eq!(ts.blanks, 1);
    assert_eq!(ts.current_char, ' ');
}

#[test]
fn wrong_key_then_backspace_keeps_the_mistake() {
    let mut ts = cat_dog_state();
    for c in ['c', 'a', 't', ' '] {
        test_key_handle(Key::Char(c), &mut ts);
    }
    assert_eq!(ts.current_char, 'd');
    let done_before = ts.done;
    test_key_handle(Key::Char('x'), &mut ts);
    assert_eq!(ts.mistakes, 1);
    assert_eq!(ts.text[done_before].style, SpanStyle::Incorrect);
    test_key_handle(Key::Backspace, &mut ts);
    // the span is pending again and done is restored...
    assert_eq!(ts.text[done_before].style, SpanStyle::Pending);
    assert_eq!(ts.done, done_before);
    assert_eq!(ts.current_char, 'd');
    // ...but the mistake is never given back
    assert_eq!(ts.mistakes, 1);
    assert_eq!(ts.correct, 4);
}

#[test]
fn overflow_slot_catches_extra_characters() {
    let mut ts = cat_dog_state();
    for c in ['c', 'a', 't'] {
        test_key_handle(Key::Char(c), &mut ts);
    }
    assert_eq!(ts.current_char, ' ');
    test_key_handle(Key::Char('x'), &mut ts);
    test_key_handle(Key::Char('y'), &mut ts);
    assert_eq!(ts.mistakes, 2);
    assert_eq!(ts.done, 4);
    assert_eq!(ts.text[3].content, vec!['x', 'y']);
    // backspace empties the slot one character at a time
    test_key_handle(Key::Backspace, &mut ts);
    assert_eq!(ts.text[3].content, vec!['x']);
    test_key_handle(Key::Backspace, &mut ts);
    assert!(ts.text[3].content.is_empty());
    // and then undoes the hop over the slot
    test_key_handle(Key::Backspace, &mut ts);
    assert_eq!(ts.done, 2);
    assert_eq!(ts.blanks, 0);
    assert_eq!(ts.current_char, 't');
}

#[test]
fn overflow_slot_is_capped_at_eight() {
    let mut ts = cat_dog_state();
    for c in ['c', 'a', 't'] {
        test_key_handle(Key::Char(c), &mut ts);
    }
    for _ in 0..12 {
        test_key_handle(Key::Char('z'), &mut ts);
    }
    assert_eq!(ts.text[3].content.len(), 8);
    // every attempt counted as a mistake, even the dropped ones
    assert_eq!(ts.mistakes, 12);
}

#[test]
fn control_undoes_a_whole_word() {
    let mut ts = cat_dog_state();
    for c in ['c', 'a', 't', ' '] {
        test_key_handle(Key::Char(c), &mut ts);
    }
    assert_eq!(ts.done, 5);
    assert_eq!(test_key_handle(Key::Ctrl, &mut ts), Action::Idle);
    assert_eq!(ts.done, 0);
    assert_eq!(ts.blanks, 0);
    assert_eq!(ts.current_char, 'c');
    assert_eq!(ts.cursor_x, 0);
    for i in 0..5 {
        assert_eq!(ts.text[i].style, SpanStyle::Pending);
    }
    // the keystrokes stay on the counters
    assert_eq!(ts.correct, 4);
}

#[test]
fn control_at_a_word_boundary_clears_the_slot() {
    let mut ts = cat_dog_state();
    for c in ['c', 'a', 't'] {
        test_key_handle(Key::Char(c), &mut ts);
    }
    test_key_handle(Key::Char('x'), &mut ts);
    assert_eq!(ts.text[3].content, vec!['x']);
    test_key_handle(Key::Ctrl, &mut ts);
    assert!(ts.text[3].content.is_empty());
    assert_eq!(ts.done, 0);
    assert_eq!(ts.blanks, 0);
    assert_eq!(ts.current_char, 'c');
}

#[test]
fn control_with_nothing_done_is_a_no_op() {
    let mut ts = cat_dog_state();
    assert_eq!(test_key_handle(Key::Ctrl, &mut ts), Action::Idle);
    assert_eq!(ts.done, 0);
}

#[test]
fn backspace_with_nothing_done_is_a_no_op() {
    let mut ts = cat_dog_state();
    assert_eq!(test_key_handle(Key::Backspace, &mut ts), Action::Idle);
    assert_eq!(ts.done, 0);
    assert_eq!(ts.cursor_x, 0);
}

#[test]
fn tab_restarts_and_escape_quits() {
    let mut ts = cat_dog_state();
    test_key_handle(Key::Char('c'), &mut ts);
    assert_eq!(test_key_handle(Key::Tab, &mut ts), Action::Restart);
    assert_eq!(test_key_handle(Key::Esc, &mut ts), Action::Quit);
    assert_eq!(test_key_handle(Key::Other, &mut ts), Action::Idle);
    // none of those touch the state itself
    assert_eq!(ts.done, 1);
    assert_eq!(ts.correct, 1);
}

#[test]
fn done_always_counts_resolved_and_blank_spans() {
    let mut ts = cat_dog_state();
    let keys = [
        Key::Char('c'),
        Key::Char('x'),
        Key::Backspace,
        Key::Char('a'),
        Key::Char('t'),
        Key::Char('q'),
        Key::Char(' '),
        Key::Backspace,
        Key::Ctrl,
        Key::Char('c'),
    ];
    for k in keys {
        test_key_handle(k, &mut ts);
        let mut resolved = 0;
        for (i, sp) in ts.text.iter().enumerate() {
            let is_blank = i + 1 < ts.text.len() && ts.text[i + 1].content == vec![' '];
            if (i as usize) < ts.done && !is_blank {
                assert_ne!(sp.style, SpanStyle::Pending);
                resolved += 1;
            }
        }
        assert_eq!(ts.done, resolved + ts.blanks);
        assert!(ts.done <= ts.test_length);
    }
}

#[test]
fn cursor_follows_typing_and_undo() {
    let mut ts = cat_dog_state();
    test_key_handle(Key::Char('c'), &mut ts);
    assert_eq!(ts.cursor_x, 1);
    test_key_handle(Key::Char('a'), &mut ts);
    test_key_handle(Key::Char('t'), &mut ts);
    assert_eq!(ts.cursor_x, 3);
    test_key_handle(Key::Char(' '), &mut ts);
    assert_eq!(ts.cursor_x, 4);
    test_key_handle(Key::Backspace, &mut ts);
    assert_eq!(ts.cursor_x, 3);
}

#[test]
fn new_test_builds_a_fresh_session() {
    let words: Vec<String> =
        ["alpha", "beta", "gamma", "delta"].iter().map(|w| w.to_string()).collect();
    let ts = smokey::laws::new_test(&words, 20).expect("buffer fits");
    assert_eq!(ts.done, 0);
    assert_eq!(ts.correct, 0);
    assert_eq!(ts.mistakes, 0);
    assert_eq!(ts.blanks, 0);
    assert!(ts.test_length >= 4 + 3 * 3);
    for span in &ts.text {
        assert_eq!(span.style, SpanStyle::Pending);
    }
    // type the whole buffer correctly: the machine must complete and restart
    let mut ts = ts;
    let mut last = Action::Idle;
    for _ in 0..(ts.test_length * 2) {
        if ts.done >= ts.test_length {
            break;
        }
        let c = ts.current_char;
        last = test_key_handle(Key::Char(c), &mut ts);
    }
    assert_eq!(last, Action::Restart);
    assert_eq!(ts.done, ts.test_length);
    assert_eq!(ts.mistakes, 0);
}
