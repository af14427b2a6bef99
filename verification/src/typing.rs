//! Input state machine: consumes the flattened span buffer one keystroke at
//! a time, tracking correct, mistaken and blank spans, with single-character
//! and word-level undo.

use vstd::prelude::*;
use crate::layout::{spans_view, Span, SpanM, SpanStyle};

verus! {

/// The largest buffer the machine accepts; keeps all cursor arithmetic
/// comfortably inside a 32-bit usize.
pub const MAX_TEST_LEN: usize = 100_000_000;

/// Overflow slots absorb at most this many mistyped characters.
pub const BLANK_CAP: usize = 8;

/// A keystroke as the machine sees it. Any key with the control modifier
/// held arrives as `Ctrl` (terminals report control chords unreliably, so
/// the modifier alone selects word-undo).
#[derive(Clone, Copy, PartialEq, Eq, Structural, Debug)]
pub enum Key {
    Char(char),
    Backspace,
    Tab,
    Esc,
    Ctrl,
    Other,
}

/// What the caller must do after a keystroke.
#[derive(Clone, Copy, PartialEq, Eq, Structural, Debug)]
pub enum Action {
    /// Keep feeding keystrokes.
    Idle,
    /// The test finished or was abandoned: generate a fresh buffer.
    Restart,
    /// The session ends.
    Quit,
}

/// Span `i` is a separator space.
pub open spec fn sp_at(t: Seq<SpanM>, i: int) -> bool {
    t[i].content == seq![' ']
}

/// Span `i` is an overflow slot: it sits right before a separator space.
pub open spec fn blank_at(t: Seq<SpanM>, i: int) -> bool {
    i + 1 < t.len() && sp_at(t, i + 1)
}

/// Span `i` is an ordinary glyph.
pub open spec fn glyph_at(t: Seq<SpanM>, i: int) -> bool {
    !sp_at(t, i) && !blank_at(t, i)
}

/// An overflow slot holds at most `BLANK_CAP` characters, none a space.
pub open spec fn blank_ok(s: SpanM) -> bool {
    &&& s.content.len() <= BLANK_CAP
    &&& forall|k: int| 0 <= k < s.content.len() ==> s.content[k] != ' '
}

/// A glyph holds exactly one character, never a space.
pub open spec fn glyph_ok(s: SpanM) -> bool {
    s.content.len() == 1 && s.content[0] != ' '
}

/// The shape every buffer the machine runs over has: a non-empty span
/// sequence in which every separator space closes a word of at least one
/// glyph and follows its overflow slot.
pub open spec fn buffer_wf(t: Seq<SpanM>) -> bool {
    &&& t.len() >= 1
    &&& forall|i: int| 0 <= i < t.len() && #[trigger] sp_at(t, i) ==> 2 <= i && !sp_at(t, i - 1) && !sp_at(t, i - 2)
    &&& forall|i: int| 0 <= i < t.len() && #[trigger] blank_at(t, i) ==> blank_ok(t[i])
    &&& forall|i: int| 0 <= i < t.len() && #[trigger] glyph_at(t, i) ==> glyph_ok(t[i])
}

/// A freshly generated buffer: well-formed, everything pending, every
/// overflow slot still empty.
pub open spec fn fresh_buffer(t: Seq<SpanM>) -> bool {
    &&& buffer_wf(t)
    &&& forall|i: int| 0 <= i < t.len() ==> (#[trigger] t[i]).style == SpanStyle::Pending
    &&& forall|i: int| 0 <= i < t.len() && #[trigger] blank_at(t, i) ==> t[i].content.len() == 0
}

/// How many overflow slots lie strictly before `n`.
pub open spec fn blanks_upto(t: Seq<SpanM>, n: int) -> int
    decreases n,
{
    if n <= 0 {
        0
    } else {
        blanks_upto(t, n - 1) + if blank_at(t, n - 1) {
            1int
        } else {
            0int
        }
    }
}

/// How many overflow characters sit in slots strictly before `n`.
pub open spec fn overflow_upto(t: Seq<SpanM>, n: int) -> int
    decreases n,
{
    if n <= 0 {
        0
    } else {
        overflow_upto(t, n - 1) + if blank_at(t, n - 1) {
            t[n - 1].content.len() as int
        } else {
            0int
        }
    }
}

/// The mathematical image of a typing session.
#[verifier::ext_equal]
pub ghost struct TestM {
    pub text: Seq<SpanM>,
    pub done: int,
    pub correct: int,
    pub mistakes: int,
    pub blanks: int,
    pub cursor_x: int,
    pub test_length: int,
    pub current_char: char,
}

/// The machine invariant: the buffer keeps its shape, `done` rests on a
/// glyph or separator, everything before `done` is resolved, everything
/// from `done` on is pending with empty overflow slots, and the counters
/// agree with the buffer.
pub open spec fn st_wf(m: TestM) -> bool {
    &&& buffer_wf(m.text)
    &&& m.test_length == m.text.len()
    &&& m.test_length <= MAX_TEST_LEN
    &&& 0 <= m.done <= m.test_length
    &&& m.done < m.test_length ==> !blank_at(m.text, m.done) && m.text[m.done].content.len() == 1
        && m.current_char == m.text[m.done].content[0]
    &&& forall|i: int|
        0 <= i < m.done && !blank_at(m.text, i) ==> (#[trigger] m.text[i]).style
            != SpanStyle::Pending
    &&& forall|i: int|
        m.done <= i < m.text.len() && !blank_at(m.text, i) ==> (#[trigger] m.text[i]).style
            == SpanStyle::Pending
    &&& forall|i: int|
        0 <= i < m.text.len() && #[trigger] blank_at(m.text, i) ==> m.text[i].style
            == SpanStyle::Pending
    &&& forall|i: int|
        m.done <= i < m.text.len() && #[trigger] blank_at(m.text, i) ==> m.text[i].content.len()
            == 0
    &&& m.blanks == blanks_upto(m.text, m.done)
    &&& 0 <= m.correct <= u64::MAX
    &&& 0 <= m.mistakes <= u64::MAX
    &&& m.cursor_x == m.done - m.blanks + overflow_upto(m.text, m.done)
}

/// The live typing session.
pub struct TestState {
    pub text: Vec<Span>,
    pub done: usize,
    pub correct: u64,
    pub mistakes: u64,
    pub blanks: usize,
    pub cursor_x: usize,
    pub test_length: usize,
    pub current_char: char,
}

impl View for TestState {
    type V = TestM;

    open spec fn view(&self) -> TestM {
        TestM {
            text: spans_view(self.text@),
            done: self.done as int,
            correct: self.correct as int,
            mistakes: self.mistakes as int,
            blanks: self.blanks as int,
            cursor_x: self.cursor_x as int,
            test_length: self.test_length as int,
            current_char: self.current_char,
        }
    }
}

/// The state a fresh session starts in over the buffer `t`.
pub open spec fn initial_state(t: Seq<SpanM>) -> TestM {
    TestM {
        text: t,
        done: 0,
        correct: 0,
        mistakes: 0,
        blanks: 0,
        cursor_x: 0,
        test_length: t.len() as int,
        current_char: t[0].content[0],
    }
}

/// Counting facts the machine leans on: there are never more overflow
/// slots than spans before a point, none at all at the very start, and the
/// slot contents stay within the cap.
pub proof fn lemma_count_bounds(t: Seq<SpanM>, n: int)
    requires
        buffer_wf(t),
        0 <= n <= t.len(),
    ensures
        0 <= blanks_upto(t, n),
        2 * blanks_upto(t, n) <= n,
        0 <= overflow_upto(t, n) <= 8 * blanks_upto(t, n),
    decreases n,
{
    if n > 0 {
        lemma_count_bounds(t, n - 1);
        if blank_at(t, n - 1) {
            assert(blank_ok(t[n - 1]));
            if n >= 2 && blank_at(t, n - 2) {
                assert(sp_at(t, n - 1) && sp_at(t, n));
                assert(false);
            }
            if n - 1 == 0 {
                assert(sp_at(t, 1));
                assert(false);
            }
            lemma_count_bounds(t, n - 2);
            assert(blanks_upto(t, n - 1) == blanks_upto(t, n - 2));
            assert(overflow_upto(t, n - 1) == overflow_upto(t, n - 2));
        }
    }
}

/// A slot strictly before `n` is counted by the prefix counters.
pub proof fn lemma_counts_include(t: Seq<SpanM>, k: int, n: int)
    requires
        buffer_wf(t),
        0 <= k < n <= t.len(),
        blank_at(t, k),
    ensures
        blanks_upto(t, n) >= 1,
        overflow_upto(t, n) >= t[k].content.len(),
        blanks_upto(t, n) - 1 >= blanks_upto(t, k),
        overflow_upto(t, n) - t[k].content.len() >= overflow_upto(t, k),
    decreases n,
{
    lemma_count_bounds(t, k);
    if n - 1 == k {
    } else {
        lemma_counts_include(t, k, n - 1);
        if blank_at(t, n - 1) {
            assert(blank_ok(t[n - 1]));
        }
    }
}

/// Counters only see the spans before the point (and whether the point
/// itself is a separator), so edits elsewhere leave them alone.
pub proof fn lemma_counts_local(t1: Seq<SpanM>, t2: Seq<SpanM>, n: int)
    requires
        t1.len() == t2.len(),
        0 <= n <= t1.len(),
        forall|i: int| 0 <= i < n ==> t1[i].content == t2[i].content,
        n < t1.len() ==> sp_at(t1, n) == sp_at(t2, n),
    ensures
        blanks_upto(t1, n) == blanks_upto(t2, n),
        overflow_upto(t1, n) == overflow_upto(t2, n),
    decreases n,
{
    if n > 0 {
        assert(n - 1 < t1.len() ==> sp_at(t1, n - 1) == sp_at(t2, n - 1));
        lemma_counts_local(t1, t2, n - 1);
        assert(blank_at(t1, n - 1) == blank_at(t2, n - 1));
    }
}


/// Saturating increment used for the keystroke counters.
pub open spec fn inc_sat(x: int) -> int {
    if x < u64::MAX {
        x + 1
    } else {
        x
    }
}

/// The buffer with only the style of span `i` changed.
pub open spec fn with_style(t: Seq<SpanM>, i: int, st: SpanStyle) -> Seq<SpanM> {
    t.update(i, SpanM { content: t[i].content, style: st })
}

/// The buffer with only the content of span `i` changed.
pub open spec fn with_content(t: Seq<SpanM>, i: int, cs: Seq<char>) -> Seq<SpanM> {
    t.update(i, SpanM { content: cs, style: t[i].style })
}

/// After `done` moved forward but before the completion check: hop an
/// empty overflow slot (counting it as done and blank) or look up the next
/// expected character.
pub open spec fn settle_advance(m: TestM) -> TestM {
    if m.text[m.done].content.len() == 0 {
        TestM {
            done: m.done + 1,
            blanks: m.blanks + 1,
            current_char: m.text[m.done + 1].content[0],
            ..m
        }
    } else {
        TestM { current_char: m.text[m.done].content[0], ..m }
    }
}

/// After `done` moved forward: the test completes when every span is
/// resolved, otherwise the machine settles on the next expected character.
pub open spec fn settle(m: TestM) -> (TestM, Action) {
    if m.done == m.test_length {
        (m, Action::Restart)
    } else {
        (settle_advance(m), Action::Idle)
    }
}

/// An ordinary keystroke. A match resolves the span under the cursor as
/// correct; a mismatch counts a mistake and either lands in the previous
/// word's overflow slot (at a word boundary, while the slot has room) or
/// resolves the span as incorrect.
pub open spec fn step_char(m: TestM, c: char) -> (TestM, Action) {
    if m.done >= m.test_length {
        (m, Action::Idle)
    } else if c == m.current_char {
        settle(
            TestM {
                correct: inc_sat(m.correct),
                text: with_style(m.text, m.done, SpanStyle::Correct),
                done: m.done + 1,
                cursor_x: m.cursor_x + 1,
                ..m
            },
        )
    } else {
        let m1 = TestM { mistakes: inc_sat(m.mistakes), ..m };
        if m.current_char == ' ' {
            if m.text[m.done - 1].content.len() < BLANK_CAP {
                (
                    TestM {
                        text: with_content(
                            m.text,
                            m.done - 1,
                            m.text[m.done - 1].content.push(c),
                        ),
                        cursor_x: m.cursor_x + 1,
                        ..m1
                    },
                    Action::Idle,
                )
            } else {
                (m1, Action::Idle)
            }
        } else {
            settle(
                TestM {
                    text: with_style(m.text, m.done, SpanStyle::Incorrect),
                    done: m.done + 1,
                    cursor_x: m.cursor_x + 1,
                    ..m1
                },
            )
        }
    }
}

/// Backspace. At a word boundary it empties the overflow slot one
/// character at a time, then undoes the blank hop; elsewhere it reverts
/// the previous span to pending. Mistake and correct counters never move.
pub open spec fn step_back(m: TestM) -> (TestM, Action) {
    if m.done == 0 || m.done >= m.test_length {
        (m, Action::Idle)
    } else if m.current_char == ' ' {
        if m.text[m.done - 1].content.len() == 0 {
            (
                TestM {
                    done: m.done - 2,
                    blanks: m.blanks - 1,
                    cursor_x: m.cursor_x - 1,
                    current_char: m.text[m.done - 2].content[0],
                    text: with_style(m.text, m.done - 2, SpanStyle::Pending),
                    ..m
                },
                Action::Idle,
            )
        } else {
            (
                TestM {
                    text: with_content(
                        m.text,
                        m.done - 1,
                        m.text[m.done - 1].content.drop_last(),
                    ),
                    cursor_x: m.cursor_x - 1,
                    ..m
                },
                Action::Idle,
            )
        }
    } else {
        (
            TestM {
                done: m.done - 1,
                cursor_x: m.cursor_x - 1,
                current_char: m.text[m.done - 1].content[0],
                text: with_style(m.text, m.done - 1, SpanStyle::Pending),
                ..m
            },
            Action::Idle,
        )
    }
}


/// Unwinds `done` back over the glyphs of a word, reverting each passed
/// span to pending, until it rests just after a separator (or at the very
/// start).
pub open spec fn unwind(t: Seq<SpanM>, done: int, cx: int) -> (Seq<SpanM>, int, int)
    decreases done,
{
    if done <= 0 || sp_at(t, done - 1) {
        (t, done, cx)
    } else {
        unwind(with_style(t, done - 1, SpanStyle::Pending), done - 1, cx - 1)
    }
}

/// Word-level undo (any control chord). A possible trailing overflow slot
/// is emptied and its blank hop undone first; then the word before the
/// cursor is unwound glyph by glyph to the previous separator.
pub open spec fn step_ctrl(m: TestM) -> (TestM, Action) {
    if m.done == 0 || m.done >= m.test_length {
        (m, Action::Idle)
    } else {
        let ma = if m.current_char == ' ' {
            let blen = m.text[m.done - 1].content.len() as int;
            TestM {
                text: with_style(
                    with_content(m.text, m.done - 1, Seq::empty()),
                    m.done - 2,
                    SpanStyle::Pending,
                ),
                cursor_x: m.cursor_x - blen - 1,
                done: m.done - 2,
                blanks: m.blanks - 1,
                ..m
            }
        } else if sp_at(m.text, m.done - 1) {
            let blen = m.text[m.done - 2].content.len() as int;
            TestM {
                text: with_style(
                    with_content(
                        with_style(m.text, m.done - 1, SpanStyle::Pending),
                        m.done - 2,
                        Seq::empty(),
                    ),
                    m.done - 3,
                    SpanStyle::Pending,
                ),
                cursor_x: m.cursor_x - blen - 2,
                done: m.done - 3,
                blanks: m.blanks - 1,
                ..m
            }
        } else {
            m
        };
        let (t2, d2, cx2) = unwind(ma.text, ma.done, ma.cursor_x);
        (
            TestM {
                text: t2,
                done: d2,
                cursor_x: cx2,
                current_char: t2[d2].content[0],
                ..ma
            },
            Action::Idle,
        )
    }
}

/// One keystroke of the whole machine.
pub open spec fn step(m: TestM, k: Key) -> (TestM, Action) {
    match k {
        Key::Ctrl => step_ctrl(m),
        Key::Char(c) => step_char(m, c),
        Key::Backspace => step_back(m),
        Key::Tab => (m, Action::Restart),
        Key::Esc => (m, Action::Quit),
        Key::Other => (m, Action::Idle),
    }
}

/// Changing a style changes no content, so the buffer keeps its shape and
/// its counters.
pub proof fn lemma_style_keeps_shape(t: Seq<SpanM>, i: int, st: SpanStyle)
    requires
        0 <= i < t.len(),
    ensures
        forall|j: int| 0 <= j < t.len() ==> #[trigger] sp_at(with_style(t, i, st), j) == sp_at(t, j),
        forall|j: int|
            0 <= j < t.len() ==> #[trigger] blank_at(with_style(t, i, st), j) == blank_at(t, j),
        forall|j: int|
            0 <= j < t.len() ==> #[trigger] glyph_at(with_style(t, i, st), j) == glyph_at(t, j),
        buffer_wf(t) ==> buffer_wf(with_style(t, i, st)),
        forall|n: int|
            0 <= n <= t.len() ==> #[trigger] blanks_upto(with_style(t, i, st), n) == blanks_upto(
                t,
                n,
            ) && overflow_upto(with_style(t, i, st), n) == overflow_upto(t, n),
{
    let t2 = with_style(t, i, st);
    assert forall|j: int| 0 <= j < t.len() implies #[trigger] sp_at(t2, j) == sp_at(t, j) by {
        assert(t2[j].content == t[j].content);
    }
    assert forall|j: int| 0 <= j < t.len() implies #[trigger] blank_at(t2, j) == blank_at(t, j) by {
        if j + 1 < t.len() {
            assert(sp_at(t2, j + 1) == sp_at(t, j + 1));
        }
    }
    assert forall|j: int| 0 <= j < t.len() implies #[trigger] glyph_at(t2, j) == glyph_at(t, j) by {
        assert(sp_at(t2, j) == sp_at(t, j));
        assert(blank_at(t2, j) == blank_at(t, j));
    }
    if buffer_wf(t) {
        assert forall|j: int| 0 <= j < t2.len() && #[trigger] blank_at(t2, j) implies blank_ok(
            t2[j],
        ) by {
            assert(blank_at(t, j) && blank_ok(t[j]));
            assert(t2[j].content == t[j].content);
        }
        assert forall|j: int| 0 <= j < t2.len() && #[trigger] glyph_at(t2, j) implies glyph_ok(
            t2[j],
        ) by {
            assert(glyph_at(t, j) && glyph_ok(t[j]));
            assert(t2[j].content == t[j].content);
        }
    }
    assert forall|n: int| 0 <= n <= t.len() implies #[trigger] blanks_upto(t2, n) == blanks_upto(
        t,
        n,
    ) && overflow_upto(t2, n) == overflow_upto(t, n) by {
        assert(forall|j: int| 0 <= j < t.len() ==> t2[j].content == t[j].content);
        if n < t.len() {
            assert(sp_at(t2, n) == sp_at(t, n));
        }
        lemma_counts_local(t2, t, n);
    }
}

fn bump(x: u64) -> (r: u64)
    ensures
        r as int == inc_sat(x as int),
{
    if x < u64::MAX {
        x + 1
    } else {
        x
    }
}

impl TestState {
    /// Reverts or resolves the style of span `i`, touching nothing else.
    fn set_style(&mut self, i: usize, st: SpanStyle)
        requires
            i < old(self).text@.len(),
        ensures
            final(self)@ == (TestM { text: with_style(old(self)@.text, i as int, st), ..old(self)@ }),
    {
        let e = vstd::std_specs::vec::vec_index_mut(&mut self.text, i);
        e.style = st;
        proof {
            assert(spans_view(self.text@) =~~= with_style(old(self)@.text, i as int, st));
            assert(self@ =~~= (TestM {
                text: with_style(old(self)@.text, i as int, st),
                ..old(self)@
            }));
        }
    }

    /// Appends one overflowing mistake character to slot `i`.
    fn push_overflow(&mut self, i: usize, c: char)
        requires
            i < old(self).text@.len(),
        ensures
            final(self)@ == (TestM {
                text: with_content(
                    old(self)@.text,
                    i as int,
                    old(self)@.text[i as int].content.push(c),
                ),
                ..old(self)@
            }),
    {
        let e = vstd::std_specs::vec::vec_index_mut(&mut self.text, i);
        e.content.push(c);
        proof {
            assert(spans_view(self.text@) =~~= with_content(
                old(self)@.text,
                i as int,
                old(self)@.text[i as int].content.push(c),
            ));
            assert(self@ =~~= (TestM {
                text: with_content(
                    old(self)@.text,
                    i as int,
                    old(self)@.text[i as int].content.push(c),
                ),
                ..old(self)@
            }));
        }
    }

    /// Removes the most recent overflow character from slot `i`.
    fn pop_overflow(&mut self, i: usize)
        requires
            i < old(self).text@.len(),
            old(self)@.text[i as int].content.len() >= 1,
        ensures
            final(self)@ == (TestM {
                text: with_content(
                    old(self)@.text,
                    i as int,
                    old(self)@.text[i as int].content.drop_last(),
                ),
                ..old(self)@
            }),
    {
        let e = vstd::std_specs::vec::vec_index_mut(&mut self.text, i);
        e.content.pop();
        proof {
            assert(spans_view(self.text@) =~~= with_content(
                old(self)@.text,
                i as int,
                old(self)@.text[i as int].content.drop_last(),
            ));
            assert(self@ =~~= (TestM {
                text: with_content(
                    old(self)@.text,
                    i as int,
                    old(self)@.text[i as int].content.drop_last(),
                ),
                ..old(self)@
            }));
        }
    }

    /// Empties overflow slot `i` in one go.
    fn clear_overflow(&mut self, i: usize)
        requires
            i < old(self).text@.len(),
        ensures
            final(self)@ == (TestM {
                text: with_content(old(self)@.text, i as int, Seq::empty()),
                ..old(self)@
            }),
    {
        let e = vstd::std_specs::vec::vec_index_mut(&mut self.text, i);
        e.content.clear();
        proof {
            assert(spans_view(self.text@) =~~= with_content(
                old(self)@.text,
                i as int,
                Seq::empty(),
            ));
            assert(self@ =~~= (TestM {
                text: with_content(old(self)@.text, i as int, Seq::empty()),
                ..old(self)@
            }));
        }
    }

    /// Reads the expected character at the cursor.
    fn set_next_char(&mut self)
        requires
            old(self)@.done < old(self)@.text.len(),
            old(self)@.text[old(self)@.done].content.len() >= 1,
        ensures
            final(self)@ == (TestM {
                current_char: old(self)@.text[old(self)@.done].content[0],
                ..old(self)@
            }),
    {
        self.current_char = self.text[self.done].content[0];
        proof {
            assert(self@ =~~= (TestM {
                current_char: old(self)@.text[old(self)@.done].content[0],
                ..old(self)@
            }));
        }
    }

    /// Advances over an empty overflow slot, counting it as both done and
    /// blank, then reads the next expected character.
    pub fn set_next_char_beware_blanks(&mut self)
        requires
            buffer_wf(old(self)@.text),
            old(self)@.test_length == old(self)@.text.len(),
            old(self)@.test_length <= MAX_TEST_LEN,
            0 <= old(self)@.done < old(self)@.test_length,
            old(self)@.blanks < old(self)@.test_length,
        ensures
            final(self)@ == settle_advance(old(self)@),
    {
        let ghost t = old(self)@.text;
        let ghost d = old(self)@.done;
        if self.text[self.done].content.len() > 0 {
            self.set_next_char();
        } else {
            proof {
                assert(!sp_at(t, d));
                if glyph_at(t, d) {
                    assert(glyph_ok(t[d]));
                }
                assert(blank_at(t, d));
                assert(sp_at(t, d + 1));
                assert(t[d + 1].content.len() == 1);
            }
            self.done = self.done + 1;
            self.blanks = self.blanks + 1;
            self.set_next_char();
        }
        proof {
            assert(self@ =~~= settle_advance(old(self)@));
        }
    }

    /// After a span was resolved: completes the test when everything is
    /// done, otherwise settles on the next expected character.
    pub fn set_next_char_or_end(&mut self) -> (a: Action)
        requires
            buffer_wf(old(self)@.text),
            old(self)@.test_length == old(self)@.text.len(),
            old(self)@.test_length <= MAX_TEST_LEN,
            0 <= old(self)@.done <= old(self)@.test_length,
            old(self)@.blanks < old(self)@.test_length,
        ensures
            final(self)@ == settle(old(self)@).0,
            a == settle(old(self)@).1,
    {
        if self.done < self.test_length {
            self.set_next_char_beware_blanks();
            Action::Idle
        } else {
            Action::Restart
        }
    }
}


/// Editing the content of an overflow slot (with space-free characters,
/// within the cap) keeps the buffer shape; only the overflow count past
/// the slot moves.
#[verifier::spinoff_prover]
pub proof fn lemma_content_keeps_shape(t: Seq<SpanM>, i: int, cs: Seq<char>)
    requires
        buffer_wf(t),
        0 <= i < t.len(),
        blank_at(t, i),
        cs.len() <= BLANK_CAP,
        forall|k: int| 0 <= k < cs.len() ==> cs[k] != ' ',
    ensures
        forall|j: int| 0 <= j < t.len() ==> #[trigger] sp_at(with_content(t, i, cs), j) == sp_at(t, j),
        forall|j: int|
            0 <= j < t.len() ==> #[trigger] blank_at(with_content(t, i, cs), j) == blank_at(t, j),
        buffer_wf(with_content(t, i, cs)),
        forall|n: int|
            0 <= n <= i ==> #[trigger] blanks_upto(with_content(t, i, cs), n) == blanks_upto(t, n)
                && overflow_upto(with_content(t, i, cs), n) == overflow_upto(t, n),
        forall|n: int|
            i < n <= t.len() ==> #[trigger] blanks_upto(with_content(t, i, cs), n) == blanks_upto(
                t,
                n,
            ) && overflow_upto(with_content(t, i, cs), n) == overflow_upto(t, n) + cs.len()
                - t[i].content.len(),
{
    let t2 = with_content(t, i, cs);
    assert(blank_ok(t[i]));
    assert forall|j: int| 0 <= j < t.len() implies #[trigger] sp_at(t2, j) == sp_at(t, j) by {
        if j != i {
            assert(t2[j].content == t[j].content);
        } else {
            assert(!sp_at(t, i)) by {
                assert(sp_at(t, i + 1));
            }
            assert(!sp_at(t2, i)) by {
                if cs.len() == 1 {
                    assert(cs[0] != ' ');
                }
            }
        }
    }
    assert forall|j: int| 0 <= j < t.len() implies #[trigger] blank_at(t2, j) == blank_at(t, j) by {
        if j + 1 < t.len() {
            assert(sp_at(t2, j + 1) == sp_at(t, j + 1));
        }
    }
    assert forall|j: int| 0 <= j < t2.len() && #[trigger] sp_at(t2, j) implies 2 <= j && !sp_at(
        t2,
        j - 1,
    ) && !sp_at(t2, j - 2) by {
        assert(sp_at(t, j));
    }
    assert forall|j: int| 0 <= j < t2.len() && #[trigger] blank_at(t2, j) implies blank_ok(
        t2[j],
    ) by {
        assert(blank_at(t, j) && blank_ok(t[j]));
        if j != i {
            assert(t2[j].content == t[j].content);
        }
    }
    assert forall|j: int| 0 <= j < t2.len() && #[trigger] glyph_at(t2, j) implies glyph_ok(
        t2[j],
    ) by {
        assert(glyph_at(t, j) && glyph_ok(t[j]));
        assert(j != i);
        assert(t2[j].content == t[j].content);
    }
    assert forall|n: int| 0 <= n <= i implies #[trigger] blanks_upto(t2, n) == blanks_upto(t, n)
        && overflow_upto(t2, n) == overflow_upto(t, n) by {
        assert(forall|j: int| 0 <= j < n ==> t2[j].content == t[j].content);
        assert(sp_at(t2, n) == sp_at(t, n));
        lemma_counts_local(t2, t, n);
    }
    assert forall|n: int| i < n <= t.len() implies #[trigger] blanks_upto(t2, n) == blanks_upto(
        t,
        n,
    ) && overflow_upto(t2, n) == overflow_upto(t, n) + cs.len() - t[i].content.len() by {
        lemma_counts_shift(t, t2, i, cs, n);
    }
}

/// Helper induction for the shifted overflow count.
proof fn lemma_counts_shift(t: Seq<SpanM>, t2: Seq<SpanM>, i: int, cs: Seq<char>, n: int)
    requires
        0 <= i < t.len(),
        i < n <= t.len(),
        t2 == with_content(t, i, cs),
        forall|j: int| 0 <= j < t.len() ==> #[trigger] blank_at(t2, j) == blank_at(t, j),
        blank_at(t, i),
        sp_at(t2, i) == sp_at(t, i),
    ensures
        blanks_upto(t2, n) == blanks_upto(t, n),
        overflow_upto(t2, n) == overflow_upto(t, n) + cs.len() - t[i].content.len(),
    decreases n,
{
    if n - 1 == i {
        assert(forall|j: int| 0 <= j < n - 1 ==> t2[j].content == t[j].content);
        assert(sp_at(t2, i) == sp_at(t, i));
        lemma_counts_local(t2, t, n - 1);
        assert(t2[i].content == cs);
    } else {
        lemma_counts_shift(t, t2, i, cs, n - 1);
        assert(t2[n - 1].content == t[n - 1].content);
    }
}

fn is_space_span(s: &Span) -> (r: bool)
    ensures
        r == (s@.content == seq![' ']),
{
    let r = s.content.len() == 1 && s.content[0] == ' ';
    proof {
        if r {
            assert(s@.content =~= seq![' ']);
        } else {
            if s@.content == seq![' '] {
                assert(s@.content.len() == 1 && s@.content[0] == ' ');
            }
        }
    }
    r
}

impl TestState {
    /// An ordinary keystroke.
    pub fn char_key(&mut self, c: char) -> (a: Action)
        requires
            st_wf(old(self)@),
        ensures
            final(self)@ == step_char(old(self)@, c).0,
            a == step_char(old(self)@, c).1,
    {
        let ghost m = old(self)@;
        if self.done >= self.test_length {
            proof {
                assert(self@ =~~= step_char(m, c).0);
            }
            return Action::Idle;
        }
        proof {
            lemma_count_bounds(m.text, m.done);
        }
        self.cursor_x = self.cursor_x + 1;
        if c == self.current_char {
            self.correct = bump(self.correct);
            self.set_style(self.done, SpanStyle::Correct);
            self.done = self.done + 1;
            let ghost m1 = TestM {
                correct: inc_sat(m.correct),
                text: with_style(m.text, m.done, SpanStyle::Correct),
                done: m.done + 1,
                cursor_x: m.cursor_x + 1,
                ..m
            };
            proof {
                lemma_style_keeps_shape(m.text, m.done, SpanStyle::Correct);
                assert(self@ =~~= m1);
                assert(self@.blanks == blanks_upto(m.text, m.done) < m.test_length);
            }
            let a = self.set_next_char_or_end();
            proof {
                assert((final(self)@, a) == settle(m1));
            }
            a
        } else {
            self.mistakes = bump(self.mistakes);
            if self.current_char == ' ' {
                proof {
                    assert(m.text[m.done].content =~= seq![' ']);
                    assert(sp_at(m.text, m.done));
                    assert(blank_at(m.text, m.done - 1));
                    assert(blank_ok(m.text[m.done - 1]));
                }
                let blen = self.text[self.done - 1].content.len();
                if blen < BLANK_CAP {
                    self.push_overflow(self.done - 1, c);
                    proof {
                        assert(self@ =~~= step_char(m, c).0);
                    }
                    Action::Idle
                } else {
                    self.cursor_x = self.cursor_x - 1;
                    proof {
                        assert(self@ =~~= step_char(m, c).0);
                    }
                    Action::Idle
                }
            } else {
                self.set_style(self.done, SpanStyle::Incorrect);
                self.done = self.done + 1;
                let ghost m1 = TestM {
                    mistakes: inc_sat(m.mistakes),
                    text: with_style(m.text, m.done, SpanStyle::Incorrect),
                    done: m.done + 1,
                    cursor_x: m.cursor_x + 1,
                    ..m
                };
                proof {
                    lemma_style_keeps_shape(m.text, m.done, SpanStyle::Incorrect);
                    assert(self@ =~~= m1);
                    assert(self@.blanks == blanks_upto(m.text, m.done) < m.test_length);
                }
                let a = self.set_next_char_or_end();
                proof {
                    assert((final(self)@, a) == settle(m1));
                }
                a
            }
        }
    }

    /// Backspace.
    pub fn backspace_key(&mut self) -> (a: Action)
        requires
            st_wf(old(self)@),
        ensures
            final(self)@ == step_back(old(self)@).0,
            a == step_back(old(self)@).1,
    {
        let ghost m = old(self)@;
        if self.done == 0 || self.done >= self.test_length {
            proof {
                assert(self@ =~~= step_back(m).0);
            }
            return Action::Idle;
        }
        proof {
            lemma_count_bounds(m.text, m.done);
        }
        self.cursor_x = self.cursor_x - 1;
        if self.current_char == ' ' {
            proof {
                assert(m.text[m.done].content =~= seq![' ']);
                assert(sp_at(m.text, m.done));
                assert(blank_at(m.text, m.done - 1));
            }
            if self.text[self.done - 1].content.len() == 0 {
                proof {
                    lemma_counts_include(m.text, m.done - 1, m.done);
                    assert(!sp_at(m.text, m.done - 2));
                    assert(!blank_at(m.text, m.done - 2)) by {
                        assert(!sp_at(m.text, m.done - 1));
                    }
                    assert(glyph_at(m.text, m.done - 2));
                    assert(glyph_ok(m.text[m.done - 2]));
                }
                self.done = self.done - 2;
                self.blanks = self.blanks - 1;
                self.set_next_char();
                self.set_style(self.done, SpanStyle::Pending);
                proof {
                    assert(self@ =~~= step_back(m).0);
                }
            } else {
                self.pop_overflow(self.done - 1);
                proof {
                    assert(self@ =~~= step_back(m).0);
                }
            }
        } else {
            proof {
                assert(!sp_at(m.text, m.done)) by {
                    assert(m.text[m.done].content.len() == 1);
                }
                assert(!blank_at(m.text, m.done - 1));
                assert(m.text[m.done - 1].content.len() == 1) by {
                    if sp_at(m.text, m.done - 1) {
                    } else {
                        assert(glyph_at(m.text, m.done - 1));
                        assert(glyph_ok(m.text[m.done - 1]));
                    }
                }
            }
            self.done = self.done - 1;
            self.set_next_char();
            self.set_style(self.done, SpanStyle::Pending);
            proof {
                assert(self@ =~~= step_back(m).0);
            }
        }
        Action::Idle
    }
}


/// The state after the overflow-slot unwinding that precedes word undo.
pub open spec fn ctrl_phase_a(m: TestM) -> TestM {
    if m.current_char == ' ' {
        let blen = m.text[m.done - 1].content.len() as int;
        TestM {
            text: with_style(
                with_content(m.text, m.done - 1, Seq::empty()),
                m.done - 2,
                SpanStyle::Pending,
            ),
            cursor_x: m.cursor_x - blen - 1,
            done: m.done - 2,
            blanks: m.blanks - 1,
            ..m
        }
    } else if sp_at(m.text, m.done - 1) {
        let blen = m.text[m.done - 2].content.len() as int;
        TestM {
            text: with_style(
                with_content(
                    with_style(m.text, m.done - 1, SpanStyle::Pending),
                    m.done - 2,
                    Seq::empty(),
                ),
                m.done - 3,
                SpanStyle::Pending,
            ),
            cursor_x: m.cursor_x - blen - 2,
            done: m.done - 3,
            blanks: m.blanks - 1,
            ..m
        }
    } else {
        m
    }
}

impl TestState {
    /// Word-level undo: any control chord unwinds to the previous word
    /// boundary, restoring the passed spans to pending.
    #[verifier::rlimit(100)]
    pub fn ctrl_key(&mut self) -> (a: Action)
        requires
            st_wf(old(self)@),
        ensures
            final(self)@ == step_ctrl(old(self)@).0,
            a == step_ctrl(old(self)@).1,
    {
        let ghost m = old(self)@;
        if self.done == 0 || self.done >= self.test_length {
            proof {
                assert(self@ =~~= step_ctrl(m).0);
            }
            return Action::Idle;
        }
        let ghost ma = ctrl_phase_a(m);
        proof {
            lemma_count_bounds(m.text, m.done);
        }
        if self.current_char == ' ' {
            proof {
                assert(m.text[m.done].content =~= seq![' ']);
                assert(sp_at(m.text, m.done));
                assert(blank_at(m.text, m.done - 1));
                assert(blank_ok(m.text[m.done - 1]));
                lemma_counts_include(m.text, m.done - 1, m.done);
                assert(!sp_at(m.text, m.done - 2));
                assert(!blank_at(m.text, m.done - 2)) by {
                    assert(!sp_at(m.text, m.done - 1));
                }
            }
            let blen = self.text[self.done - 1].content.len();
            self.cursor_x = self.cursor_x - blen - 1;
            self.clear_overflow(self.done - 1);
            self.done = self.done - 2;
            self.blanks = self.blanks - 1;
            self.set_style(self.done, SpanStyle::Pending);
            proof {
                let t = m.text;
                let p = m.done;
                assert(blanks_upto(t, p) == blanks_upto(t, p - 1) + 1);
                assert(blanks_upto(t, p - 1) == blanks_upto(t, p - 2));
                assert(overflow_upto(t, p) == overflow_upto(t, p - 1) + t[p - 1].content.len());
                assert(overflow_upto(t, p - 1) == overflow_upto(t, p - 2));
                assert(self@ =~~= ma);
                assert(forall|j: int| 0 <= j < p - 2 ==> ma.text[j].content == t[j].content);
                assert(sp_at(ma.text, p - 2) == sp_at(t, p - 2));
                lemma_counts_local(ma.text, t, p - 2);
                assert(ma.blanks == blanks_upto(ma.text, ma.done));
                assert(ma.cursor_x == ma.done - ma.blanks + overflow_upto(ma.text, ma.done));
                lemma_content_keeps_shape(t, p - 1, Seq::empty());
                lemma_style_keeps_shape(with_content(t, p - 1, Seq::empty()), p - 2, SpanStyle::Pending);
                assert(buffer_wf(ma.text));
            }
        } else {
            proof {
                assert(!sp_at(m.text, m.done)) by {
                    assert(m.text[m.done].content.len() == 1);
                }
            }
            let prev_is_space = is_space_span(&self.text[self.done - 1]);
            if prev_is_space {
                proof {
                    assert(sp_at(m.text, m.done - 1));
                    assert(blank_at(m.text, m.done - 2));
                    assert(blank_ok(m.text[m.done - 2]));
                    lemma_counts_include(m.text, m.done - 2, m.done);
                    assert(!sp_at(m.text, m.done - 3));
                    assert(!blank_at(m.text, m.done - 3)) by {
                        assert(!sp_at(m.text, m.done - 2)) by {
                            assert(sp_at(m.text, m.done - 1));
                        }
                    }
                }
                self.set_style(self.done - 1, SpanStyle::Pending);
                let blen = self.text[self.done - 2].content.len();
                self.cursor_x = self.cursor_x - blen - 2;
                self.clear_overflow(self.done - 2);
                self.done = self.done - 3;
                self.set_style(self.done, SpanStyle::Pending);
                self.blanks = self.blanks - 1;
                proof {
                    let t = m.text;
                    let p = m.done - 1;
                    assert(!blank_at(t, p)) by {
                        assert(!sp_at(t, m.done));
                    }
                    assert(blanks_upto(t, p + 1) == blanks_upto(t, p));
                    assert(blanks_upto(t, p) == blanks_upto(t, p - 1) + 1);
                    assert(blanks_upto(t, p - 1) == blanks_upto(t, p - 2));
                    assert(overflow_upto(t, p + 1) == overflow_upto(t, p));
                    assert(overflow_upto(t, p) == overflow_upto(t, p - 1) + t[p - 1].content.len());
                    assert(overflow_upto(t, p - 1) == overflow_upto(t, p - 2));
                    assert(self@ =~~= ma);
                    assert(forall|j: int| 0 <= j < p - 2 ==> ma.text[j].content == t[j].content);
                    assert(sp_at(ma.text, p - 2) == sp_at(t, p - 2));
                    lemma_counts_local(ma.text, t, p - 2);
                    assert(ma.blanks == blanks_upto(ma.text, ma.done));
                    assert(ma.cursor_x == ma.done - ma.blanks + overflow_upto(ma.text, ma.done));
                    lemma_style_keeps_shape(t, p, SpanStyle::Pending);
                    let t1 = with_style(t, p, SpanStyle::Pending);
                    assert(blank_at(t1, p - 1));
                    lemma_content_keeps_shape(t1, p - 1, Seq::empty());
                    lemma_style_keeps_shape(
                        with_content(t1, p - 1, Seq::empty()),
                        p - 2,
                        SpanStyle::Pending,
                    );
                    assert(ma.text =~~= with_style(
                        with_content(t1, p - 1, Seq::empty()),
                        p - 2,
                        SpanStyle::Pending,
                    ));
                    assert(buffer_wf(ma.text));
                }
            } else {
                proof {
                    assert(self@ =~~= ma);
                }
            }
        }
        proof {
            assert(self@ == ma);
        }
        // unwind to the previous word boundary
        while self.done != 0 && !is_space_span(&self.text[self.done - 1])
            invariant
                self@.text.len() == ma.text.len(),
                self@.test_length == ma.test_length,
                self@.correct == ma.correct,
                self@.mistakes == ma.mistakes,
                self@.blanks == ma.blanks,
                self@.current_char == ma.current_char,
                0 <= self@.done <= ma.done,
                forall|j: int|
                    0 <= j < ma.text.len() ==> (#[trigger] self@.text[j]).content
                        == ma.text[j].content,
                self@.done < self@.text.len(),
                !sp_at(self@.text, self@.done),
                !blank_at(self@.text, self@.done),
                self@.blanks == blanks_upto(self@.text, self@.done),
                self@.cursor_x == self@.done - self@.blanks + overflow_upto(
                    self@.text,
                    self@.done,
                ),
                buffer_wf(self@.text),
                unwind(self@.text, self@.done, self@.cursor_x) == unwind(
                    ma.text,
                    ma.done,
                    ma.cursor_x,
                ),
            decreases self@.done,
        {
            let ghost cur = self@;
            proof {
                assert(!sp_at(cur.text, cur.done - 1));
                assert(!blank_at(cur.text, cur.done - 1)) by {
                    assert(!sp_at(cur.text, cur.done));
                }
                lemma_count_bounds(cur.text, cur.done);
                assert(unwind(cur.text, cur.done, cur.cursor_x) == unwind(
                    with_style(cur.text, cur.done - 1, SpanStyle::Pending),
                    cur.done - 1,
                    cur.cursor_x - 1,
                ));
                lemma_style_keeps_shape(cur.text, cur.done - 1, SpanStyle::Pending);
            }
            self.cursor_x = self.cursor_x - 1;
            self.done = self.done - 1;
            self.set_style(self.done, SpanStyle::Pending);
            proof {
                assert(self@.text =~~= with_style(cur.text, cur.done - 1, SpanStyle::Pending));
                assert(blanks_upto(cur.text, cur.done) == blanks_upto(cur.text, cur.done - 1));
                assert(overflow_upto(cur.text, cur.done) == overflow_upto(cur.text, cur.done - 1));
                assert(blanks_upto(self@.text, self@.done) == blanks_upto(cur.text, cur.done - 1));
                assert(overflow_upto(self@.text, self@.done) == overflow_upto(
                    cur.text,
                    cur.done - 1,
                ));
            }
        }
        proof {
            assert(unwind(self@.text, self@.done, self@.cursor_x) == (
                self@.text,
                self@.done,
                self@.cursor_x,
            ));
            assert(glyph_at(self@.text, self@.done));
            assert(glyph_ok(self@.text[self@.done]));
        }
        self.set_next_char();
        proof {
            assert(self@ =~~= step_ctrl(m).0);
        }
        Action::Idle
    }
}

/// Handles one keystroke of a running test: ordinary characters resolve
/// spans, backspace undoes one unit, a control chord undoes a word, tab
/// abandons the buffer for a fresh one, and escape ends the session.
pub fn test_key_handle(key: Key, test: &mut TestState) -> (a: Action)
    requires
        st_wf(old(test)@),
    ensures
        final(test)@ == step(old(test)@, key).0,
        a == step(old(test)@, key).1,
        st_wf(final(test)@),
{
    proof {
        lemma_step_wf(old(test)@, key);
    }
    match key {
        Key::Ctrl => test.ctrl_key(),
        Key::Char(c) => test.char_key(c),
        Key::Backspace => test.backspace_key(),
        Key::Tab => Action::Restart,
        Key::Esc => Action::Quit,
        Key::Other => Action::Idle,
    }
}


impl TestState {
    /// Builds a fresh session over a generated buffer, consuming its lines
    /// front to back into one flat span sequence. Yields nothing only when
    /// the buffer is too large for the machine's cursor arithmetic.
    pub fn from_buffer(buffer: Vec<Vec<Span>>) -> (r: Option<TestState>)
        requires
            fresh_buffer(crate::layout::lines_view(buffer@).flatten()),
        ensures
            r is Some <==> crate::layout::lines_view(buffer@).flatten().len() <= MAX_TEST_LEN,
            match r {
                Option::Some(ts) => ts@ == initial_state(crate::layout::lines_view(buffer@).flatten())
                    && st_wf(ts@),
                Option::None => true,
            },
    {
        let ghost all = crate::layout::lines_view(buffer@).flatten();
        let mut lines = buffer;
        let mut text: Vec<Span> = Vec::new();
        proof {
            assert(spans_view(text@) + crate::layout::lines_view(lines@).flatten() =~= all);
        }
        while lines.len() > 0
            invariant
                spans_view(text@) + crate::layout::lines_view(lines@).flatten() == all,
            decreases lines@.len(),
        {
            let ghost lv = crate::layout::lines_view(lines@);
            let ghost t0 = spans_view(text@);
            let mut line = lines.remove(0);
            proof {
                assert(lv.first() == spans_view(line@));
                assert(crate::layout::lines_view(lines@) =~= lv.drop_first());
                assert(lv.flatten() == spans_view(line@) + lv.drop_first().flatten());
                assert(t0 + spans_view(line@) + crate::layout::lines_view(lines@).flatten() =~= all);
            }
            while line.len() > 0
                invariant
                    spans_view(text@) + spans_view(line@) + crate::layout::lines_view(
                        lines@,
                    ).flatten() == all,
                decreases line@.len(),
            {
                let ghost a0 = spans_view(text@);
                let ghost l0 = spans_view(line@);
                let sp = line.remove(0);
                text.push(sp);
                proof {
                    assert(spans_view(text@) =~= a0.push(sp@));
                    assert(spans_view(line@) =~= l0.drop_first());
                    assert(l0[0] == sp@);
                    assert(spans_view(text@) + spans_view(line@) + crate::layout::lines_view(
                        lines@,
                    ).flatten() =~= all);
                }
            }
            proof {
                assert(spans_view(line@) =~= Seq::<SpanM>::empty());
                assert(spans_view(text@) + crate::layout::lines_view(lines@).flatten() =~= all);
            }
        }
        proof {
            assert(crate::layout::lines_view(lines@) =~= Seq::<Seq<SpanM>>::empty());
            assert(crate::layout::lines_view(lines@).flatten() =~= Seq::<SpanM>::empty());
            assert(spans_view(text@) =~= all);
        }
        if text.len() > MAX_TEST_LEN {
            return Option::None;
        }
        proof {
            assert(!sp_at(all, 0));
            assert(!blank_at(all, 0)) by {
                if 1 < all.len() && sp_at(all, 1) {
                    assert(2 <= 1);
                }
            }
            assert(glyph_at(all, 0));
            assert(glyph_ok(all[0]));
        }
        let n = text.len();
        let c = text[0].content[0];
        let ts = TestState {
            text,
            done: 0,
            correct: 0,
            mistakes: 0,
            blanks: 0,
            cursor_x: 0,
            test_length: n,
            current_char: c,
        };
        proof {
            assert(ts@ =~~= initial_state(all));
            assert(st_wf(ts@));
        }
        Option::Some(ts)
    }
}


/// The machine state after a span was resolved, before the cursor settles:
/// everything of the invariant except the expected-character clause.
pub open spec fn pre_settle_wf(m: TestM) -> bool {
    &&& buffer_wf(m.text)
    &&& m.test_length == m.text.len()
    &&& m.test_length <= MAX_TEST_LEN
    &&& 1 <= m.done <= m.test_length
    &&& !blank_at(m.text, m.done - 1)
    &&& forall|i: int|
        0 <= i < m.done && !blank_at(m.text, i) ==> (#[trigger] m.text[i]).style
            != SpanStyle::Pending
    &&& forall|i: int|
        m.done <= i < m.text.len() && !blank_at(m.text, i) ==> (#[trigger] m.text[i]).style
            == SpanStyle::Pending
    &&& forall|i: int|
        0 <= i < m.text.len() && #[trigger] blank_at(m.text, i) ==> m.text[i].style
            == SpanStyle::Pending
    &&& forall|i: int|
        m.done <= i < m.text.len() && #[trigger] blank_at(m.text, i) ==> m.text[i].content.len()
            == 0
    &&& m.blanks == blanks_upto(m.text, m.done)
    &&& 0 <= m.correct <= u64::MAX
    &&& 0 <= m.mistakes <= u64::MAX
    &&& m.cursor_x == m.done - m.blanks + overflow_upto(m.text, m.done)
}

/// Settling preserves the invariant and completes exactly at the end.
pub proof fn lemma_settle_wf(m: TestM)
    requires
        pre_settle_wf(m),
    ensures
        st_wf(settle(m).0),
        settle(m).0.test_length == m.test_length,
        settle(m).0.mistakes == m.mistakes,
        settle(m).0.correct == m.correct,
        settle(m).0.done >= m.done,
        (settle(m).1 == Action::Restart) <==> (m.done == m.test_length),
        m.done < m.test_length ==> settle(m).0.done < m.test_length,
{
    let t = m.text;
    let d = m.done;
    if d == m.test_length {
    } else if t[d].content.len() == 0 {
        assert(!sp_at(t, d));
        if glyph_at(t, d) {
            assert(glyph_ok(t[d]));
        }
        assert(blank_at(t, d));
        assert(sp_at(t, d + 1));
        let m2 = settle_advance(m);
        assert(m2.done == d + 1);
        assert(!blank_at(t, d + 1)) by {
            if d + 2 < t.len() && sp_at(t, d + 2) {
                assert(!sp_at(t, d + 1));
            }
        }
        assert(t[d + 1].content.len() == 1);
        assert(blanks_upto(t, d + 1) == blanks_upto(t, d) + 1);
        assert(overflow_upto(t, d + 1) == overflow_upto(t, d));
        assert(st_wf(m2));
    } else {
        assert(!blank_at(t, d));
        assert(t[d].content.len() == 1) by {
            if sp_at(t, d) {
            } else {
                assert(glyph_at(t, d));
                assert(glyph_ok(t[d]));
            }
        }
        assert(st_wf(settle_advance(m)));
    }
}

/// One ordinary keystroke preserves the machine invariant; a correct one
/// resolves at least one span without touching the mistake counter, and
/// completion is reported exactly when the last span resolves.
pub proof fn lemma_step_char_wf(m: TestM, c: char)
    requires
        st_wf(m),
    ensures
        st_wf(step_char(m, c).0),
        step_char(m, c).0.test_length == m.test_length,
        m.done < m.test_length && c == m.current_char ==> {
            &&& step_char(m, c).0.done > m.done
            &&& step_char(m, c).0.mistakes == m.mistakes
            &&& step_char(m, c).0.correct == inc_sat(m.correct)
            &&& ((step_char(m, c).1 == Action::Restart) <==> (step_char(m, c).0.done
                == m.test_length))
        },
        m.done >= m.test_length ==> step_char(m, c).0 == m,
{
    let t = m.text;
    let d = m.done;
    if d >= m.test_length {
    } else if c == m.current_char {
        let m1 = TestM {
            correct: inc_sat(m.correct),
            text: with_style(t, d, SpanStyle::Correct),
            done: d + 1,
            cursor_x: m.cursor_x + 1,
            ..m
        };
        lemma_style_keeps_shape(t, d, SpanStyle::Correct);
        assert(!blank_at(t, d));
        assert(blanks_upto(t, d + 1) == blanks_upto(t, d));
        assert(overflow_upto(t, d + 1) == overflow_upto(t, d));
        assert(blanks_upto(m1.text, d + 1) == blanks_upto(t, d + 1));
        assert(overflow_upto(m1.text, d + 1) == overflow_upto(t, d + 1));
        assert(pre_settle_wf(m1));
        lemma_settle_wf(m1);
        assert((settle(m1).1 == Action::Restart) <==> (m1.done == m.test_length));
        if m1.done < m.test_length {
            assert(settle(m1).0.done < m.test_length);
        }
    } else if m.current_char == ' ' {
        assert(t[d].content =~= seq![' ']);
        assert(sp_at(t, d));
        assert(blank_at(t, d - 1));
        assert(blank_ok(t[d - 1]));
        if t[d - 1].content.len() < BLANK_CAP {
            let cs = t[d - 1].content.push(c);
            assert(forall|k: int| 0 <= k < cs.len() ==> cs[k] != ' ');
            lemma_content_keeps_shape(t, d - 1, cs);
            let m2 = step_char(m, c).0;
            assert(m2.text == with_content(t, d - 1, cs));
            assert(blanks_upto(m2.text, d) == blanks_upto(t, d));
            assert(overflow_upto(m2.text, d) == overflow_upto(t, d) + 1);
            assert(m2.text[d].content == t[d].content);
            assert(!blank_at(m2.text, d)) by {
                assert(blank_at(m2.text, d) == blank_at(t, d));
            }
            assert forall|i: int|
                m2.done <= i < m2.text.len() && #[trigger] blank_at(m2.text, i) implies m2.text[
                i].content.len() == 0 by {
                assert(blank_at(t, i));
                assert(i != d - 1);
            }
            assert(st_wf(m2));
        }
    } else {
        let m1 = TestM {
            mistakes: inc_sat(m.mistakes),
            text: with_style(t, d, SpanStyle::Incorrect),
            done: d + 1,
            cursor_x: m.cursor_x + 1,
            ..m
        };
        lemma_style_keeps_shape(t, d, SpanStyle::Incorrect);
        assert(!blank_at(t, d));
        assert(blanks_upto(t, d + 1) == blanks_upto(t, d));
        assert(overflow_upto(t, d + 1) == overflow_upto(t, d));
        assert(blanks_upto(m1.text, d + 1) == blanks_upto(t, d + 1));
        assert(overflow_upto(m1.text, d + 1) == overflow_upto(t, d + 1));
        assert(pre_settle_wf(m1));
        lemma_settle_wf(m1);
    }
}

/// Backspace preserves the machine invariant and never moves the mistake
/// or correct counters.
pub proof fn lemma_step_back_wf(m: TestM)
    requires
        st_wf(m),
    ensures
        st_wf(step_back(m).0),
        step_back(m).0.mistakes == m.mistakes,
        step_back(m).0.correct == m.correct,
        step_back(m).0.test_length == m.test_length,
{
    let t = m.text;
    let d = m.done;
    if d == 0 || d >= m.test_length {
    } else if m.current_char == ' ' {
        assert(t[d].content =~= seq![' ']);
        assert(sp_at(t, d));
        assert(blank_at(t, d - 1));
        if t[d - 1].content.len() == 0 {
            assert(!sp_at(t, d - 1) && !sp_at(t, d - 2));
            assert(!blank_at(t, d - 2)) by {
                assert(!sp_at(t, d - 1));
            }
            assert(glyph_at(t, d - 2));
            assert(glyph_ok(t[d - 2]));
            let m2 = step_back(m).0;
            lemma_style_keeps_shape(t, d - 2, SpanStyle::Pending);
            assert(blanks_upto(t, d) == blanks_upto(t, d - 1) + 1);
            assert(blanks_upto(t, d - 1) == blanks_upto(t, d - 2));
            assert(overflow_upto(t, d) == overflow_upto(t, d - 1));
            assert(overflow_upto(t, d - 1) == overflow_upto(t, d - 2));
            assert(blanks_upto(m2.text, d - 2) == blanks_upto(t, d - 2));
            assert(overflow_upto(m2.text, d - 2) == overflow_upto(t, d - 2));
            assert(st_wf(m2));
        } else {
            assert(blank_ok(t[d - 1]));
            let cs = t[d - 1].content.drop_last();
            assert(forall|k: int| 0 <= k < cs.len() ==> cs[k] != ' ');
            lemma_content_keeps_shape(t, d - 1, cs);
            let m2 = step_back(m).0;
            assert(m2.text == with_content(t, d - 1, cs));
            assert(blanks_upto(m2.text, d) == blanks_upto(t, d));
            assert(overflow_upto(m2.text, d) == overflow_upto(t, d) - 1);
            assert(m2.text[d].content == t[d].content);
            assert(!blank_at(m2.text, d)) by {
                assert(blank_at(m2.text, d) == blank_at(t, d));
            }
            assert forall|i: int|
                m2.done <= i < m2.text.len() && #[trigger] blank_at(m2.text, i) implies m2.text[
                i].content.len() == 0 by {
                assert(blank_at(t, i));
                assert(i != d - 1);
            }
            assert(st_wf(m2));
        }
    } else {
        assert(!sp_at(t, d)) by {
            assert(t[d].content.len() == 1);
        }
        assert(!blank_at(t, d - 1));
        assert(t[d - 1].content.len() == 1) by {
            if !sp_at(t, d - 1) {
                assert(glyph_at(t, d - 1));
                assert(glyph_ok(t[d - 1]));
            }
        }
        lemma_style_keeps_shape(t, d - 1, SpanStyle::Pending);
        assert(blanks_upto(t, d) == blanks_upto(t, d - 1));
        assert(overflow_upto(t, d) == overflow_upto(t, d - 1));
        assert(blanks_upto(with_style(t, d - 1, SpanStyle::Pending), d - 1) == blanks_upto(
            t,
            d - 1,
        ));
        assert(overflow_upto(with_style(t, d - 1, SpanStyle::Pending), d - 1) == overflow_upto(
            t,
            d - 1,
        ));
        assert(st_wf(step_back(m).0));
    }
}


/// What unwinding does: it walks back over glyphs to the previous
/// separator (or the start), reverting exactly the passed spans to
/// pending, moving the cursor back in step and touching no content.
pub proof fn lemma_unwind_props(t: Seq<SpanM>, done: int, cx: int)
    requires
        buffer_wf(t),
        0 <= done < t.len(),
        !sp_at(t, done),
        !blank_at(t, done),
    ensures
        ({
            let (t2, d2, cx2) = unwind(t, done, cx);
            &&& t2.len() == t.len()
            &&& forall|j: int| 0 <= j < t.len() ==> (#[trigger] t2[j]).content == t[j].content
            &&& buffer_wf(t2)
            &&& 0 <= d2 <= done
            &&& cx2 == cx - (done - d2)
            &&& !sp_at(t2, d2) && !blank_at(t2, d2)
            &&& (d2 == 0 || sp_at(t2, d2 - 1))
            &&& forall|j: int|
                d2 <= j < done ==> (#[trigger] t2[j]) == (SpanM {
                    content: t[j].content,
                    style: SpanStyle::Pending,
                })
            &&& forall|j: int| 0 <= j < d2 ==> (#[trigger] t2[j]) == t[j]
            &&& forall|j: int| done <= j < t.len() ==> (#[trigger] t2[j]) == t[j]
            &&& forall|n: int|
                0 <= n <= t.len() ==> #[trigger] blanks_upto(t2, n) == blanks_upto(t, n)
                    && overflow_upto(t2, n) == overflow_upto(t, n)
            &&& blanks_upto(t, d2) == blanks_upto(t, done)
            &&& overflow_upto(t, d2) == overflow_upto(t, done)
        }),
    decreases done,
{
    if done == 0 || sp_at(t, done - 1) {
        assert forall|n: int| 0 <= n <= t.len() implies #[trigger] blanks_upto(t, n)
            == blanks_upto(t, n) && overflow_upto(t, n) == overflow_upto(t, n) by {}
    } else {
        assert(!blank_at(t, done - 1)) by {
            assert(!sp_at(t, done));
        }
        let t1 = with_style(t, done - 1, SpanStyle::Pending);
        lemma_style_keeps_shape(t, done - 1, SpanStyle::Pending);
        lemma_unwind_props(t1, done - 1, cx - 1);
        assert(unwind(t, done, cx) == unwind(t1, done - 1, cx - 1));
        let (t2, d2, cx2) = unwind(t1, done - 1, cx - 1);
        assert(blanks_upto(t, done) == blanks_upto(t, done - 1));
        assert(overflow_upto(t, done) == overflow_upto(t, done - 1));
        assert forall|n: int| 0 <= n <= t.len() implies #[trigger] blanks_upto(t2, n)
            == blanks_upto(t, n) && overflow_upto(t2, n) == overflow_upto(t, n) by {
            assert(blanks_upto(t2, n) == blanks_upto(t1, n));
            assert(blanks_upto(t1, n) == blanks_upto(t, n));
            assert(overflow_upto(t2, n) == overflow_upto(t1, n));
            assert(overflow_upto(t1, n) == overflow_upto(t, n));
        }
        assert forall|n: int| 0 <= n <= t.len() implies blanks_upto(t1, n) == blanks_upto(t, n)
            && overflow_upto(t1, n) == overflow_upto(t, n) by {}
        assert(blanks_upto(t, d2) == blanks_upto(t1, d2) == blanks_upto(t1, done - 1));
        assert(overflow_upto(t, d2) == overflow_upto(t1, d2) == overflow_upto(t1, done - 1));
    }
}

/// Word undo preserves the machine invariant and the keystroke counters.
#[verifier::rlimit(60)]
pub proof fn lemma_step_ctrl_wf(m: TestM)
    requires
        st_wf(m),
    ensures
        st_wf(step_ctrl(m).0),
        step_ctrl(m).0.mistakes == m.mistakes,
        step_ctrl(m).0.correct == m.correct,
        step_ctrl(m).0.test_length == m.test_length,
{
    let t = m.text;
    let d = m.done;
    if d == 0 || d >= m.test_length {
    } else {
        let ma = ctrl_phase_a(m);
        lemma_count_bounds(t, d);
        if m.current_char == ' ' {
            assert(t[d].content =~= seq![' ']);
            assert(sp_at(t, d));
            assert(blank_at(t, d - 1));
            assert(blank_ok(t[d - 1]));
            lemma_counts_include(t, d - 1, d);
            assert(!sp_at(t, d - 2));
            assert(!blank_at(t, d - 2)) by {
                assert(!sp_at(t, d - 1));
            }
            assert(glyph_at(t, d - 2));
            assert(glyph_ok(t[d - 2]));
            lemma_content_keeps_shape(t, d - 1, Seq::empty());
            let tc = with_content(t, d - 1, Seq::empty());
            lemma_style_keeps_shape(tc, d - 2, SpanStyle::Pending);
            assert(blanks_upto(t, d) == blanks_upto(t, d - 1) + 1);
            assert(blanks_upto(t, d - 1) == blanks_upto(t, d - 2));
            assert(overflow_upto(t, d) == overflow_upto(t, d - 1) + t[d - 1].content.len());
            assert(overflow_upto(t, d - 1) == overflow_upto(t, d - 2));
            assert(blanks_upto(tc, d - 2) == blanks_upto(t, d - 2));
            assert(overflow_upto(tc, d - 2) == overflow_upto(t, d - 2));
            assert(blanks_upto(ma.text, d - 2) == blanks_upto(tc, d - 2));
            assert(overflow_upto(ma.text, d - 2) == overflow_upto(tc, d - 2));
            assert(buffer_wf(ma.text));
            assert(ma.done == d - 2);
            assert(!sp_at(ma.text, ma.done) && !blank_at(ma.text, ma.done));
        } else if sp_at(t, d - 1) {
            assert(blank_at(t, d - 2));
            assert(blank_ok(t[d - 2]));
            lemma_counts_include(t, d - 2, d);
            assert(!sp_at(t, d - 2)) by {
                assert(sp_at(t, d - 1));
            }
            assert(!sp_at(t, d - 3));
            assert(!blank_at(t, d - 3)) by {
                assert(!sp_at(t, d - 2));
            }
            assert(glyph_at(t, d - 3));
            assert(glyph_ok(t[d - 3]));
            lemma_style_keeps_shape(t, d - 1, SpanStyle::Pending);
            let t1 = with_style(t, d - 1, SpanStyle::Pending);
            assert(blank_at(t1, d - 2));
            lemma_content_keeps_shape(t1, d - 2, Seq::empty());
            let tc = with_content(t1, d - 2, Seq::empty());
            lemma_style_keeps_shape(tc, d - 3, SpanStyle::Pending);
            assert(ma.text =~~= with_style(tc, d - 3, SpanStyle::Pending));
            assert(!blank_at(t, d)) by {
                assert(!sp_at(t, d + 1) || !(d + 1 < t.len())) by {
                    if d + 1 < t.len() && sp_at(t, d + 1) {
                        assert(!sp_at(t, d - 1));
                    }
                }
            }
            assert(blanks_upto(t, d) == blanks_upto(t, d - 1));
            assert(blanks_upto(t, d - 1) == blanks_upto(t, d - 2) + 1);
            assert(blanks_upto(t, d - 2) == blanks_upto(t, d - 3));
            assert(overflow_upto(t, d) == overflow_upto(t, d - 1));
            assert(overflow_upto(t, d - 1) == overflow_upto(t, d - 2) + t[d - 2].content.len());
            assert(overflow_upto(t, d - 2) == overflow_upto(t, d - 3));
            assert(blanks_upto(t1, d - 3) == blanks_upto(t, d - 3));
            assert(overflow_upto(t1, d - 3) == overflow_upto(t, d - 3));
            assert(blanks_upto(tc, d - 3) == blanks_upto(t1, d - 3));
            assert(overflow_upto(tc, d - 3) == overflow_upto(t1, d - 3));
            assert(blanks_upto(ma.text, d - 3) == blanks_upto(tc, d - 3));
            assert(overflow_upto(ma.text, d - 3) == overflow_upto(tc, d - 3));
            assert(buffer_wf(ma.text));
            assert(ma.done == d - 3);
            assert(!sp_at(ma.text, ma.done) && !blank_at(ma.text, ma.done));
        } else {
            assert(ma == m);
            assert(!sp_at(t, d)) by {
                assert(t[d].content.len() == 1);
            }
            assert(!blank_at(ma.text, ma.done));
        }
        // the counting and style facts that carry into the unwind
        assert(buffer_wf(ma.text));
        assert(0 <= ma.done < ma.text.len());
        assert(!sp_at(ma.text, ma.done) && !blank_at(ma.text, ma.done));
        assert(ma.blanks == blanks_upto(ma.text, ma.done));
        assert(ma.cursor_x == ma.done - ma.blanks + overflow_upto(ma.text, ma.done));
        lemma_unwind_props(ma.text, ma.done, ma.cursor_x);
        let (t2, d2, cx2) = unwind(ma.text, ma.done, ma.cursor_x);
        let m2 = step_ctrl(m).0;
        assert(m2.text == t2 && m2.done == d2 && m2.cursor_x == cx2);
        assert(glyph_at(t2, d2));
        assert(glyph_ok(t2[d2])) by {
            assert(t2[d2].content == ma.text[d2].content);
            assert(glyph_at(ma.text, d2)) by {
                assert(sp_at(ma.text, d2) == sp_at(t2, d2));
                assert(blank_at(ma.text, d2) == blank_at(t2, d2));
            }
            assert(glyph_ok(ma.text[d2]));
        }
        assert(blanks_upto(t2, d2) == blanks_upto(ma.text, d2) == blanks_upto(ma.text, ma.done));
        assert(overflow_upto(t2, d2) == overflow_upto(ma.text, d2) == overflow_upto(
            ma.text,
            ma.done,
        ));
        // styles across the unwound region
        assert forall|i: int|
            0 <= i < m2.done && !blank_at(m2.text, i) implies (#[trigger] m2.text[i]).style
            != SpanStyle::Pending by {
            assert(t2[i] == ma.text[i]);
            assert(blank_at(ma.text, i) == blank_at(t2, i));
        }
        assert forall|i: int|
            m2.done <= i < m2.text.len() && !blank_at(m2.text, i) implies (#[trigger] m2.text[
            i]).style == SpanStyle::Pending by {
            assert(blank_at(ma.text, i) == blank_at(t2, i));
            if i < ma.done {
            } else {
                assert(t2[i] == ma.text[i]);
            }
        }
        assert forall|i: int|
            0 <= i < m2.text.len() && #[trigger] blank_at(m2.text, i) implies m2.text[i].style
            == SpanStyle::Pending by {
            assert(blank_at(ma.text, i) == blank_at(t2, i));
            if d2 <= i < ma.done {
                assert(t2[i].style == SpanStyle::Pending);
            } else {
                assert(t2[i] == ma.text[i]);
            }
        }
        assert forall|i: int|
            m2.done <= i < m2.text.len() && #[trigger] blank_at(m2.text, i) implies m2.text[
        i].content.len() == 0 by {
            assert(blank_at(ma.text, i) == blank_at(t2, i));
            assert(t2[i].content == ma.text[i].content);
            if i >= ma.done {
            } else {
                assert(d2 <= i < ma.done);
                assert(!blank_at(ma.text, i) || i >= ma.done) by {
                    lemma_unwind_no_blanks(ma.text, ma.done, ma.cursor_x, i);
                }
            }
        }
        assert(st_wf(m2));
    }
}

/// No overflow slot lies strictly between the unwound position and where
/// the unwinding started.
proof fn lemma_unwind_no_blanks(t: Seq<SpanM>, done: int, cx: int, i: int)
    requires
        buffer_wf(t),
        0 <= done < t.len(),
        !sp_at(t, done),
        !blank_at(t, done),
        0 <= i,
        unwind(t, done, cx).1 <= i < done,
    ensures
        !blank_at(t, i),
    decreases done,
{
    if done == 0 || sp_at(t, done - 1) {
    } else {
        assert(!blank_at(t, done - 1)) by {
            assert(!sp_at(t, done));
        }
        let t1 = with_style(t, done - 1, SpanStyle::Pending);
        lemma_style_keeps_shape(t, done - 1, SpanStyle::Pending);
        if i == done - 1 {
        } else {
            lemma_unwind_no_blanks(t1, done - 1, cx - 1, i);
            assert(blank_at(t, i) == blank_at(t1, i));
        }
    }
}

/// Every keystroke preserves the machine invariant.
pub proof fn lemma_step_wf(m: TestM, k: Key)
    requires
        st_wf(m),
    ensures
        st_wf(step(m, k).0),
        step(m, k).0.test_length == m.test_length,
{
    match k {
        Key::Ctrl => lemma_step_ctrl_wf(m),
        Key::Char(c) => lemma_step_char_wf(m, c),
        Key::Backspace => lemma_step_back_wf(m),
        Key::Tab => {},
        Key::Esc => {},
        Key::Other => {},
    }
}


/// How many spans before `n` are resolved with the given style, overflow
/// slots not counted.
pub open spec fn resolved_upto(t: Seq<SpanM>, n: int, st: SpanStyle) -> int
    decreases n,
{
    if n <= 0 {
        0
    } else {
        resolved_upto(t, n - 1, st) + if !blank_at(t, n - 1) && t[n - 1].style == st {
            1int
        } else {
            0int
        }
    }
}

/// The done count is exactly the resolved correct spans plus the resolved
/// incorrect spans plus the hopped blanks, and it never leaves the buffer.
pub proof fn lemma_done_partition(m: TestM)
    requires
        st_wf(m),
    ensures
        m.done == resolved_upto(m.text, m.done, SpanStyle::Correct) + resolved_upto(
            m.text,
            m.done,
            SpanStyle::Incorrect,
        ) + m.blanks,
        0 <= m.done <= m.test_length,
{
    lemma_partition_prefix(m, m.done);
}

proof fn lemma_partition_prefix(m: TestM, n: int)
    requires
        st_wf(m),
        0 <= n <= m.done,
    ensures
        n == resolved_upto(m.text, n, SpanStyle::Correct) + resolved_upto(
            m.text,
            n,
            SpanStyle::Incorrect,
        ) + blanks_upto(m.text, n),
    decreases n,
{
    if n > 0 {
        lemma_partition_prefix(m, n - 1);
        if !blank_at(m.text, n - 1) {
            assert(m.text[n - 1].style != SpanStyle::Pending);
            assert(m.text[n - 1].style == SpanStyle::Correct || m.text[n - 1].style
                == SpanStyle::Incorrect);
        }
    }
}

/// The state after feeding the expected character over and over, with
/// enough fuel to reach the end of the buffer.
pub open spec fn type_all_correct(m: TestM, fuel: nat) -> (TestM, Action)
    decreases fuel,
{
    if fuel == 0 {
        (m, Action::Idle)
    } else {
        let s0 = step(m, Key::Char(m.current_char));
        if s0.0.done >= s0.0.test_length || fuel == 1 {
            s0
        } else {
            type_all_correct(s0.0, (fuel - 1) as nat)
        }
    }
}

/// Typing every expected character of a running test drives the done
/// count to the full test length without a single mistake being charged,
/// and the keystroke that resolves the last span reports completion, which
/// restarts the test.
pub proof fn lemma_round_trip(m: TestM, fuel: nat)
    requires
        st_wf(m),
        m.done < m.test_length,
        fuel >= m.test_length - m.done,
    ensures
        ({
            let (f, a) = type_all_correct(m, fuel);
            &&& st_wf(f)
            &&& f.test_length == m.test_length
            &&& f.done == f.test_length
            &&& f.mistakes == m.mistakes
            &&& a == Action::Restart
        }),
    decreases fuel,
{
    let s0 = step(m, Key::Char(m.current_char));
    lemma_step_char_wf(m, m.current_char);
    assert(s0.0.done > m.done);
    assert(s0.0.mistakes == m.mistakes);
    if s0.0.done >= s0.0.test_length {
        assert(s0.1 == Action::Restart);
    } else {
        assert(fuel > 1);
        lemma_round_trip(s0.0, (fuel - 1) as nat);
    }
}

/// A mistyped character followed immediately by backspace leaves the test
/// exactly where it was, except that the mistake stays on the counter: the
/// span is pending again and the done count is restored, but mistakes are
/// never given back. (A full overflow slot is excepted: there the mistake
/// is dropped on the way in but backspace still removes a stored
/// character. So is a mistake on the very last span, which ends the test
/// before backspace can arrive.)
pub proof fn lemma_wrong_then_backspace(m: TestM, c: char)
    requires
        st_wf(m),
        m.done < m.test_length,
        c != m.current_char,
        m.current_char == ' ' ==> m.text[m.done - 1].content.len() < BLANK_CAP,
        m.current_char != ' ' ==> m.done + 1 < m.test_length,
    ensures
        step_back(step_char(m, c).0).0 == (TestM { mistakes: inc_sat(m.mistakes), ..m }),
{
    let t = m.text;
    let d = m.done;
    lemma_step_char_wf(m, c);
    let m1 = step_char(m, c).0;
    if m.current_char == ' ' {
        assert(t[d].content =~= seq![' ']);
        assert(sp_at(t, d));
        assert(blank_at(t, d - 1));
        let cs = t[d - 1].content.push(c);
        assert(m1.text == with_content(t, d - 1, cs));
        assert(m1.current_char == ' ');
        assert(m1.text[d].content == t[d].content);
        assert(m1.text[d - 1].content.len() > 0);
        let m2 = step_back(m1).0;
        assert(m2.text == with_content(m1.text, d - 1, cs.drop_last()));
        assert(cs.drop_last() =~= t[d - 1].content);
        assert(m2.text =~~= t) by {
            assert forall|j: int| 0 <= j < t.len() implies m2.text[j] =~~= t[j] by {
                if j != d - 1 {
                } else {
                    assert(m2.text[j].content == t[j].content);
                    assert(m2.text[j].style == t[j].style);
                }
            }
        }
        assert(m2 =~~= (TestM { mistakes: inc_sat(m.mistakes), ..m }));
    } else {
        let mi = TestM {
            mistakes: inc_sat(m.mistakes),
            text: with_style(t, d, SpanStyle::Incorrect),
            done: d + 1,
            cursor_x: m.cursor_x + 1,
            ..m
        };
        lemma_style_keeps_shape(t, d, SpanStyle::Incorrect);
        assert(m1 == settle(mi).0);
        assert(mi.done < mi.test_length);
        assert(!sp_at(t, d)) by {
            assert(t[d].content.len() == 1);
        }
        if mi.text[d + 1].content.len() == 0 {
            // the mistake fell on a word's last glyph: the blank was hopped
            assert(mi.text[d + 1].content == t[d + 1].content);
            assert(!sp_at(t, d + 1));
            if glyph_at(t, d + 1) {
                assert(glyph_ok(t[d + 1]));
            }
            assert(blank_at(t, d + 1));
            assert(sp_at(t, d + 2));
            assert(m1.done == d + 2);
            assert(m1.current_char == ' ');
            assert(m1.text[d + 2].content == t[d + 2].content);
            assert(m1.text[d + 1].content.len() == 0);
            let m2 = step_back(m1).0;
            assert(m2.text == with_style(m1.text, d, SpanStyle::Pending));
            assert(m2.text =~~= t) by {
                assert(t[d].style == SpanStyle::Pending) by {
                    assert(!blank_at(t, d));
                }
                assert forall|j: int| 0 <= j < t.len() implies m2.text[j] =~~= t[j] by {}
            }
            assert(m2.current_char == t[d].content[0]);
            assert(m2 =~~= (TestM { mistakes: inc_sat(m.mistakes), ..m }));
        } else {
            assert(m1.done == d + 1);
            assert(m1.current_char == mi.text[d + 1].content[0]);
            assert(m1.text == mi.text);
            // the next span is a glyph, so backspace takes the plain branch
            assert(!blank_at(t, d + 1)) by {
                if blank_at(t, d + 1) {
                    assert(m1.text[d + 1].content.len() == 0) by {
                        assert(blank_at(m1.text, d + 1) == blank_at(t, d + 1));
                    }
                }
            }
            assert(!sp_at(t, d + 1)) by {
                if sp_at(t, d + 1) {
                    assert(blank_at(t, d));
                    assert(!blank_at(t, d));
                }
            }
            assert(glyph_at(t, d + 1));
            assert(glyph_ok(t[d + 1]));
            assert(m1.current_char != ' ') by {
                assert(m1.text[d + 1].content == t[d + 1].content);
            }
            let m2 = step_back(m1).0;
            assert(m2.done == d);
            assert(m2.text == with_style(m1.text, d, SpanStyle::Pending));
            assert(m2.text =~~= t) by {
                assert(t[d].style == SpanStyle::Pending) by {
                    assert(!blank_at(t, d));
                }
                assert forall|j: int| 0 <= j < t.len() implies m2.text[j] =~~= t[j] by {}
            }
            assert(m2.current_char == t[d].content[0]);
            assert(m2 =~~= (TestM { mistakes: inc_sat(m.mistakes), ..m }));
        }
    }
}

} // verus!
