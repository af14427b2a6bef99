//! Layout engine: renders the shuffled words into width-bounded lines of
//! styled spans. Each word becomes its decorated glyphs followed by an empty
//! mistake-overflow slot and a separator space; the final line loses that
//! trailing pair and is moved to the front of the buffer.

use vstd::prelude::*;
use crate::punct::{choose_punctuation, drawn_punct, Punctuation, PUNCT_WEIGHT_TOTAL};

verus! {

/// Resolution state of one span.
#[derive(Clone, Copy, PartialEq, Eq, Structural, Debug)]
pub enum SpanStyle {
    Pending,
    Correct,
    Incorrect,
}

/// The atomic renderable and editable unit: one glyph, one separator space,
/// or the (initially empty) overflow slot before a separator.
#[derive(Debug)]
pub struct Span {
    pub content: Vec<char>,
    pub style: SpanStyle,
}

/// The mathematical image of a span.
#[verifier::ext_equal]
pub ghost struct SpanM {
    pub content: Seq<char>,
    pub style: SpanStyle,
}

impl View for Span {
    type V = SpanM;

    open spec fn view(&self) -> SpanM {
        SpanM { content: self.content@, style: self.style }
    }
}

/// A pending glyph span holding the single character `c`.
pub open spec fn glyph_m(c: char) -> SpanM {
    SpanM { content: seq![c], style: SpanStyle::Pending }
}

/// The empty overflow slot appended after each word.
pub open spec fn blank_m() -> SpanM {
    SpanM { content: Seq::empty(), style: SpanStyle::Pending }
}

/// The separator space between words.
pub open spec fn space_m() -> SpanM {
    SpanM { content: seq![' '], style: SpanStyle::Pending }
}

/// ASCII uppercase of a character; anything but a lowercase ASCII letter
/// is left alone. Capitalization is deliberately ASCII-only: words are
/// single-scalar tokens and locale-aware case mapping is a non-goal, so a
/// non-ASCII first letter simply stays as it is.
pub open spec fn upper_char(c: char) -> char {
    if 'a' <= c && c <= 'z' {
        ((c as int) - 32) as char
    } else {
        c
    }
}

/// Uppercases a lowercase ASCII letter; any other character, including
/// non-ASCII letters, is returned unchanged.
pub fn to_upper(c: char) -> (r: char)
    ensures
        r == upper_char(c),
{
    match c {
        'a' => 'A',
        'b' => 'B',
        'c' => 'C',
        'd' => 'D',
        'e' => 'E',
        'f' => 'F',
        'g' => 'G',
        'h' => 'H',
        'i' => 'I',
        'j' => 'J',
        'k' => 'K',
        'l' => 'L',
        'm' => 'M',
        'n' => 'N',
        'o' => 'O',
        'p' => 'P',
        'q' => 'Q',
        'r' => 'R',
        's' => 'S',
        't' => 'T',
        'u' => 'U',
        'v' => 'V',
        'w' => 'W',
        'x' => 'X',
        'y' => 'Y',
        'z' => 'Z',
        _ => c,
    }
}

/// `w` with its first character uppercased (ASCII-only, like
/// `upper_char`; the word keeps its length either way).
pub open spec fn cap_first(w: Seq<char>) -> Seq<char>
    recommends
        w.len() >= 1,
{
    seq![upper_char(w[0])] + w.drop_first()
}

/// The opening glyph a decoration puts before the word.
pub open spec fn begin_seq(p: Punctuation) -> Seq<char> {
    match p {
        Punctuation::Paired(a, _) => seq![a],
        _ => Seq::empty(),
    }
}

/// The closing glyph a decoration puts after the word.
pub open spec fn end_seq(p: Punctuation) -> Seq<char> {
    match p {
        Punctuation::Normal(c) => seq![c],
        Punctuation::End(c) => seq![c],
        Punctuation::Paired(_, z) => seq![z],
        _ => Seq::empty(),
    }
}

/// The characters a word renders as: optional opening glyph, the word
/// (capitalized when a sentence just ended), optional closing glyph.
pub open spec fn decorated(w: Seq<char>, p: Punctuation, cap: bool) -> Seq<char> {
    begin_seq(p) + (if cap {
        cap_first(w)
    } else {
        w
    }) + end_seq(p)
}

/// Whether word `i` is capitalized: exactly when the draw for the word
/// immediately before it ended a sentence.
pub open spec fn cap_at(ps: Seq<Punctuation>, i: int) -> bool {
    i >= 1 && ps[i - 1] is End
}

/// Pending glyph spans for a character sequence.
pub open spec fn glyphs_of(cs: Seq<char>) -> Seq<SpanM> {
    Seq::new(cs.len(), |k: int| glyph_m(cs[k]))
}

/// The spans one word contributes: its decorated glyphs, the overflow
/// slot, and the separator space.
pub open spec fn word_unit(w: Seq<char>, p: Punctuation, cap: bool) -> Seq<SpanM> {
    glyphs_of(decorated(w, p, cap)) + seq![blank_m(), space_m()]
}

/// The running state of the line fold: the closed lines, the line being
/// accumulated, and its running character count.
pub ghost struct LayoutAcc {
    pub closed: Seq<Seq<SpanM>>,
    pub cur: Seq<SpanM>,
    pub count: int,
}

/// Folds one word into the accumulator: the word (plus separator) is added
/// to the running count; on overflow the accumulated line is closed first
/// and the count restarts at the word's own width.
pub open spec fn layout_step(
    acc: LayoutAcc,
    w: Seq<char>,
    p: Punctuation,
    cap: bool,
    limit: int,
) -> LayoutAcc {
    let dl = decorated(w, p, cap).len() as int;
    if acc.count + dl + 1 > limit {
        LayoutAcc {
            closed: acc.closed.push(acc.cur),
            cur: word_unit(w, p, cap),
            count: dl,
        }
    } else {
        LayoutAcc {
            closed: acc.closed,
            cur: acc.cur + word_unit(w, p, cap),
            count: acc.count + dl + 1,
        }
    }
}

/// The accumulator after folding the first `n` words.
pub open spec fn layout_after(
    ws: Seq<Seq<char>>,
    ps: Seq<Punctuation>,
    limit: int,
    n: int,
) -> LayoutAcc
    decreases n,
{
    if n <= 0 {
        LayoutAcc { closed: Seq::empty(), cur: Seq::empty(), count: 0 }
    } else {
        layout_step(
            layout_after(ws, ps, limit, n - 1),
            ws[n - 1],
            ps[n - 1],
            cap_at(ps, n - 1),
            limit,
        )
    }
}

/// The finished buffer: all lines closed, the trailing overflow slot and
/// space removed from the final line, and the final line swapped to the
/// front so the first line carries no trailing separator.
pub open spec fn render_spec(ws: Seq<Seq<char>>, ps: Seq<Punctuation>, limit: int) -> Seq<
    Seq<SpanM>,
> {
    let acc = layout_after(ws, ps, limit, ws.len() as int);
    let trimmed = acc.cur.take(acc.cur.len() - 2);
    let lines = acc.closed.push(trimmed);
    lines.update(0, lines.last()).update(lines.len() - 1, lines.first())
}

/// The views of a vector of spans.
pub open spec fn spans_view(l: Seq<Span>) -> Seq<SpanM> {
    l.map_values(|s: Span| s@)
}

/// The views of a buffer of lines of spans.
pub open spec fn lines_view(ls: Seq<Vec<Span>>) -> Seq<Seq<SpanM>> {
    ls.map_values(|l: Vec<Span>| spans_view(l@))
}

/// The views of a vector of words.
pub open spec fn words_view(ws: Seq<String>) -> Seq<Seq<char>> {
    ws.map_values(|s: String| s@)
}

/// A word the layout accepts: non-empty, free of separator characters,
/// and short enough for the width arithmetic.
pub open spec fn word_ok(w: Seq<char>) -> bool {
    &&& 1 <= w.len() <= 100_000
    &&& forall|k: int| 0 <= k < w.len() ==> w[k] != ' '
}

/// Glyph spans distribute over concatenation of character sequences.
pub proof fn lemma_glyphs_concat(a: Seq<char>, b: Seq<char>)
    ensures
        glyphs_of(a + b) == glyphs_of(a) + glyphs_of(b),
{
    assert(glyphs_of(a + b) =~= glyphs_of(a) + glyphs_of(b)) by {
        assert forall|k: int| 0 <= k < a.len() + b.len() implies glyphs_of(a + b)[k] == (glyphs_of(
            a,
        ) + glyphs_of(b))[k] by {
            if k < a.len() {
                assert((a + b)[k] == a[k]);
            } else {
                assert((a + b)[k] == b[k - a.len()]);
            }
        }
    }
}

fn char_span(c: char) -> (s: Span)
    ensures
        s@ == glyph_m(c),
{
    let mut v: Vec<char> = Vec::new();
    v.push(c);
    proof {
        assert(v@ =~= seq![c]);
    }
    Span { content: v, style: SpanStyle::Pending }
}

fn blank_span() -> (s: Span)
    ensures
        s@ == blank_m(),
{
    Span { content: Vec::new(), style: SpanStyle::Pending }
}

/// Lays the words out into width-bounded lines, decorating word `i` with
/// the drawn variant `puncts[i]` and capitalizing the word after each
/// sentence-ending draw.
#[verifier::rlimit(80)]
pub fn render_test(words: &Vec<String>, puncts: &Vec<Punctuation>, limit: usize) -> (r: Vec<
    Vec<Span>,
>)
    requires
        1 <= words@.len(),
        puncts@.len() == words@.len(),
        forall|i: int| 0 <= i < words@.len() ==> word_ok(#[trigger] words@[i]@),
        limit <= 100_000_000,
    ensures
        lines_view(r@) == render_spec(words_view(words@), puncts@, limit as int),
{
    let ghost ws = words_view(words@);
    let ghost ps = puncts@;
    let n = words.len();
    let mut closed: Vec<Vec<Span>> = Vec::new();
    let mut cur: Vec<Span> = Vec::new();
    let mut count: usize = 0;
    let mut capitalize: bool = false;
    let mut i: usize = 0;
    while i < n
        invariant
            n == ws.len(),
            ps.len() == ws.len(),
            forall|k: int| 0 <= k < words@.len() ==> word_ok(#[trigger] words@[k]@),
            ws == words_view(words@),
            ps == puncts@,
            limit <= 100_000_000,
            i <= n,
            lines_view(closed@) == layout_after(ws, ps, limit as int, i as int).closed,
            spans_view(cur@) == layout_after(ws, ps, limit as int, i as int).cur,
            count == layout_after(ws, ps, limit as int, i as int).count,
            count <= 100_100_004,
            capitalize == cap_at(ps, i as int),
        decreases n - i,
    {
        let ghost acc = layout_after(ws, ps, limit as int, i as int);
        let ghost cap = cap_at(ps, i as int);
        let w: &String = &words[i];
        let p = puncts[i];
        proof {
            assert(ws[i as int] == w@);
            assert(word_ok(w@));
        }
        let wlen = w.as_str().unicode_len();
        let extra: usize = match p {
            Punctuation::Null => 0,
            Punctuation::DashLike(_) => 0,
            Punctuation::End(_) => 1,
            Punctuation::Normal(_) => 1,
            Punctuation::Paired(_, _) => 2,
        };
        proof {
            if cap {
                assert(cap_first(w@).len() == w@.len());
            }
            assert(decorated(w@, p, cap).len() == wlen + extra);
        }
        count = count + wlen + extra + 1;
        if count > limit {
            closed.push(cur);
            cur = Vec::new();
            count = wlen + extra;
        }
        let ghost base = spans_view(cur@);
        let ghost capped = if cap {
            cap_first(w@)
        } else {
            w@
        };
        // opening glyph
        match p {
            Punctuation::Paired(a, _) => {
                cur.push(char_span(a));
            },
            _ => {},
        }
        let ghost base1 = spans_view(cur@);
        proof {
            assert(base1 =~~= base + glyphs_of(begin_seq(p)));
        }
        // the word itself, first character uppercased after a sentence end
        proof {
            assert(spans_view(cur@) =~= base1 + glyphs_of(capped.take(0)));
        }
        let mut j: usize = 0;
        while j < wlen
            invariant
                j <= wlen,
                wlen == w@.len(),
                word_ok(w@),
                capitalize == cap,
                capped == (if cap {
                    cap_first(w@)
                } else {
                    w@
                }),
                capped.len() == wlen,
                spans_view(cur@) == base1 + glyphs_of(capped.take(j as int)),
            decreases wlen - j,
        {
            let c = w.as_str().get_char(j);
            let ch = if j == 0 && capitalize {
                to_upper(c)
            } else {
                c
            };
            proof {
                if cap {
                    if j == 0 {
                        assert(capped[0] == upper_char(w@[0]));
                    } else {
                        assert(capped[j as int] == w@[j as int]);
                    }
                }
                assert(ch == capped[j as int]);
            }
            cur.push(char_span(ch));
            proof {
                let a = glyphs_of(capped.take(j as int));
                let b = glyphs_of(capped.take(j + 1));
                assert(b.len() == j + 1);
                assert forall|k: int| 0 <= k < j implies b[k] == a[k] by {
                    assert(b[k] == glyph_m(capped.take(j + 1)[k]));
                    assert(capped.take(j + 1)[k] == capped[k]);
                    assert(a[k] == glyph_m(capped.take(j as int)[k]));
                    assert(capped.take(j as int)[k] == capped[k]);
                }
                assert(b[j as int] == glyph_m(capped[j as int]));
                assert(b =~= a.push(glyph_m(ch)));
                assert(spans_view(cur@) =~= (base1 + a).push(glyph_m(ch)));
                assert(base1 + b =~= (base1 + a).push(glyph_m(ch)));
                assert(spans_view(cur@) =~= base1 + b);
            }
            j = j + 1;
        }
        proof {
            assert(capped.take(wlen as int) =~= capped);
            assert(spans_view(cur@) == base1 + glyphs_of(capped));
        }
        let ghost base2 = base1 + glyphs_of(capped);
        // closing glyph
        match p {
            Punctuation::Normal(c) => {
                cur.push(char_span(c));
            },
            Punctuation::End(c) => {
                cur.push(char_span(c));
            },
            Punctuation::Paired(_, z) => {
                cur.push(char_span(z));
            },
            _ => {},
        }
        let ghost base3 = base2 + glyphs_of(end_seq(p));
        proof {
            if end_seq(p).len() == 0 {
                assert(base3 =~= base2);
                assert(spans_view(cur@) == base3);
            } else {
                assert(base3 =~= base2.push(glyph_m(end_seq(p)[0])));
                assert(spans_view(cur@) =~= base2.push(glyph_m(end_seq(p)[0])));
                assert(spans_view(cur@) == base3);
            }
        }
        // overflow slot and separator
        cur.push(blank_span());
        cur.push(char_span(' '));
        capitalize = match p {
            Punctuation::End(_) => true,
            _ => false,
        };
        proof {
            assert(spans_view(cur@) =~= base3.push(blank_m()).push(space_m()));
            lemma_glyphs_concat(begin_seq(p) + capped, end_seq(p));
            lemma_glyphs_concat(begin_seq(p), capped);
            assert(decorated(w@, p, cap) == begin_seq(p) + capped + end_seq(p));
            assert(glyphs_of(decorated(w@, p, cap)) == glyphs_of(begin_seq(p)) + glyphs_of(capped)
                + glyphs_of(end_seq(p)));
            assert(base + word_unit(w@, p, cap) =~= base3.push(blank_m()).push(space_m()));
            assert(spans_view(cur@) == base + word_unit(w@, p, cap));
            let stepped = layout_step(acc, ws[i as int], ps[i as int], cap, limit as int);
            assert(layout_after(ws, ps, limit as int, i + 1) == stepped);
            if acc.count + decorated(w@, p, cap).len() + 1 > limit {
                assert(lines_view(closed@) =~~= stepped.closed);
                assert(spans_view(cur@) =~~= stepped.cur);
            } else {
                assert(spans_view(cur@) =~~= stepped.cur);
            }
            assert(cap_at(ps, i + 1) == (ps[i as int] is End));
        }
        i = i + 1;
    }
    let ghost accn = layout_after(ws, ps, limit as int, n as int);
    proof {
        assert(accn.cur == spans_view(cur@));
        assert(accn.cur.len() >= 3) by {
            let prev = layout_after(ws, ps, limit as int, n as int - 1);
            assert(accn == layout_step(
                prev,
                ws[n - 1],
                ps[n - 1],
                cap_at(ps, n as int - 1),
                limit as int,
            ));
            assert(word_unit(ws[n - 1], ps[n - 1], cap_at(ps, n as int - 1)).len() >= 2);
        }
    }
    cur.pop();
    cur.pop();
    proof {
        assert(spans_view(cur@) =~~= accn.cur.take(accn.cur.len() - 2));
    }
    closed.push(cur);
    let ghost lines = accn.closed.push(accn.cur.take(accn.cur.len() - 2));
    proof {
        assert(lines_view(closed@) =~~= lines);
    }
    let m = closed.len();
    if m >= 2 {
        let first = closed.remove(0);
        let last = closed.remove(m - 2);
        closed.insert(0, last);
        closed.push(first);
    }
    proof {
        let swapped = lines.update(0, lines.last()).update(lines.len() - 1, lines.first());
        assert(lines_view(closed@) =~~= swapped);
        assert(lines_view(closed@) == render_spec(ws, ps, limit as int));
    }
    closed
}

/// Whether a punctuation variant can come out of the weighted draw.
pub open spec fn is_drawn(p: Punctuation) -> bool {
    exists|u: int| 0 <= u < PUNCT_WEIGHT_TOTAL && p == #[trigger] drawn_punct(u)
}

/// Prepares a full test buffer: draws one punctuation variant per word and
/// lays the decorated words out. The buffer is the rendering of the words
/// under some sequence of table draws.
pub fn prep_test(words: &Vec<String>, limit: usize) -> (r: Vec<Vec<Span>>)
    requires
        1 <= words@.len(),
        forall|i: int| 0 <= i < words@.len() ==> word_ok(#[trigger] words@[i]@),
        limit <= 100_000_000,
    ensures
        exists|ps: Seq<Punctuation>|
            {
                &&& ps.len() == words@.len()
                &&& forall|i: int| 0 <= i < ps.len() ==> is_drawn(#[trigger] ps[i])
                &&& lines_view(r@) == render_spec(words_view(words@), ps, limit as int)
            },
{
    let n = words.len();
    let mut puncts: Vec<Punctuation> = Vec::new();
    let mut i: usize = 0;
    while i < n
        invariant
            i <= n,
            puncts@.len() == i,
            forall|k: int| 0 <= k < puncts@.len() ==> is_drawn(#[trigger] puncts@[k]),
        decreases n - i,
    {
        let p = choose_punctuation();
        proof {
            assert(is_drawn(p));
        }
        puncts.push(p);
        i = i + 1;
    }
    let r = render_test(words, &puncts, limit);
    proof {
        let ps = puncts@;
        assert({
            &&& ps.len() == words@.len()
            &&& forall|k: int| 0 <= k < ps.len() ==> is_drawn(#[trigger] ps[k])
            &&& lines_view(r@) == render_spec(words_view(words@), ps, limit as int)
        });
    }
    r
}

} // verus!
