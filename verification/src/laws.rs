//! Properties of the generated buffers: line widths stay within the
//! configured limit, capitalization lands exactly on the word after a
//! sentence end, and every rendered buffer is fit for the input machine.

use vstd::prelude::*;
use crate::layout::{
    begin_seq, blank_m, cap_at, cap_first, decorated, end_seq, glyphs_of, is_drawn, layout_after,
    lines_view, prep_test, render_spec, space_m, upper_char, word_ok, word_unit, words_view,
    SpanM, SpanStyle,
};
use crate::punct::{drawn_punct, lemma_drawn_space_free, punct_space_free, Punctuation};
use crate::typing::{
    blank_at, buffer_wf, fresh_buffer, glyph_ok, sp_at, st_wf, TestState, MAX_TEST_LEN,
};

verus! {

/// A word as the generator expects it: at least one character, none of
/// them a separator space.
pub open spec fn word_chars_ok(w: Seq<char>) -> bool {
    &&& w.len() >= 1
    &&& forall|k: int| 0 <= k < w.len() ==> w[k] != ' '
}

/// The total number of characters held by a line's spans.
pub open spec fn span_chars(l: Seq<SpanM>) -> int
    decreases l.len(),
{
    if l.len() == 0 {
        0
    } else {
        span_chars(l.drop_last()) + l.last().content.len()
    }
}

/// The visible width of a line: its characters, not counting a separator
/// space at the very end of the line.
pub open spec fn line_width(l: Seq<SpanM>) -> int {
    span_chars(l) - if l.len() > 0 && sp_at(l, l.len() - 1) {
        1int
    } else {
        0int
    }
}

proof fn lemma_span_chars_add(a: Seq<SpanM>, b: Seq<SpanM>)
    ensures
        span_chars(a + b) == span_chars(a) + span_chars(b),
    decreases b.len(),
{
    if b.len() == 0 {
        assert(a + b =~= a);
    } else {
        assert((a + b).drop_last() =~= a + b.drop_last());
        lemma_span_chars_add(a, b.drop_last());
    }
}

proof fn lemma_span_chars_glyphs(cs: Seq<char>)
    ensures
        span_chars(glyphs_of(cs)) == cs.len(),
    decreases cs.len(),
{
    if cs.len() == 0 {
    } else {
        assert(glyphs_of(cs).drop_last() =~= glyphs_of(cs.drop_last()));
        lemma_span_chars_glyphs(cs.drop_last());
    }
}

proof fn lemma_span_chars_unit(w: Seq<char>, p: Punctuation, cap: bool)
    ensures
        span_chars(word_unit(w, p, cap)) == decorated(w, p, cap).len() + 1,
{
    let tailpair = seq![blank_m(), space_m()];
    lemma_span_chars_add(glyphs_of(decorated(w, p, cap)), tailpair);
    lemma_span_chars_glyphs(decorated(w, p, cap));
    assert(tailpair.drop_last() =~= seq![blank_m()]);
    assert(seq![blank_m()].drop_last() =~= Seq::<SpanM>::empty());
    assert(span_chars(Seq::<SpanM>::empty()) == 0);
    assert(span_chars(seq![blank_m()]) == 0);
    assert(tailpair.last() == space_m());
    assert(span_chars(tailpair) == 1);
}

/// The shape every generated line has, and any concatenation of such
/// lines keeps: separators close words of at least one glyph, overflow
/// slots are empty, glyphs are single non-space characters, everything is
/// pending, and the line ends on a separator or a glyph.
pub open spec fn run_shape(l: Seq<SpanM>) -> bool {
    &&& forall|j: int|
        0 <= j < l.len() && #[trigger] sp_at(l, j) ==> 2 <= j && !sp_at(l, j - 1) && !sp_at(
            l,
            j - 2,
        )
    &&& forall|j: int| 0 <= j < l.len() && #[trigger] blank_at(l, j) ==> l[j].content.len() == 0
    &&& forall|j: int|
        0 <= j < l.len() - 1 && !sp_at(l, j) && !(#[trigger] sp_at(l, j + 1)) ==> glyph_ok(l[j])
    &&& l.len() >= 1 ==> (sp_at(l, l.len() - 1) || glyph_ok(l[l.len() - 1]))
    &&& forall|j: int| 0 <= j < l.len() ==> (#[trigger] l[j]).style == SpanStyle::Pending
}

/// Concatenating two well-shaped runs gives a well-shaped run.
proof fn lemma_run_shape_concat(a: Seq<SpanM>, b: Seq<SpanM>)
    requires
        run_shape(a),
        run_shape(b),
    ensures
        run_shape(a + b),
{
    let c = a + b;
    let n = a.len() as int;
    assert forall|j: int| 0 <= j < c.len() && #[trigger] sp_at(c, j) implies 2 <= j && !sp_at(
        c,
        j - 1,
    ) && !sp_at(c, j - 2) by {
        if j < n {
            assert(sp_at(a, j));
            assert(c[j - 1] == a[j - 1] && c[j - 2] == a[j - 2]);
        } else {
            assert(sp_at(b, j - n));
            assert(2 <= j - n);
            assert(c[j - 1] == b[j - n - 1] && c[j - 2] == b[j - n - 2]);
        }
    }
    assert forall|j: int| 0 <= j < c.len() && #[trigger] blank_at(c, j) implies c[j].content.len()
        == 0 by {
        if j + 1 < n {
            assert(sp_at(a, j + 1));
            assert(blank_at(a, j));
        } else if j + 1 == n {
            if b.len() > 0 {
                assert(c[n] == b[0]);
                assert(sp_at(b, 0));
                assert(false);
            }
        } else {
            assert(sp_at(b, j + 1 - n));
            assert(2 <= j + 1 - n);
            assert(blank_at(b, j - n));
        }
    }
    assert forall|j: int|
        0 <= j < c.len() - 1 && !sp_at(c, j) && !(#[trigger] sp_at(c, j + 1)) implies glyph_ok(
        c[j],
    ) by {
        if j < n - 1 {
            assert(c[j] == a[j] && c[j + 1] == a[j + 1]);
            assert(!sp_at(a, j) && !sp_at(a, j + 1));
        } else if j == n - 1 {
            assert(c[j] == a[j]);
            assert(!sp_at(a, n - 1));
            assert(sp_at(a, a.len() - 1) || glyph_ok(a[a.len() - 1]));
        } else {
            assert(c[j] == b[j - n] && c[j + 1] == b[j - n + 1]);
            assert(!sp_at(b, j - n) && !sp_at(b, j - n + 1));
        }
    }
    if c.len() >= 1 {
        if b.len() >= 1 {
            assert(c[c.len() - 1] == b[b.len() - 1]);
            if sp_at(b, b.len() - 1) {
                assert(sp_at(c, c.len() - 1));
            }
        } else {
            assert(c =~= a);
        }
    }
}

/// A prefix of a well-shaped run that is cut at a separator or a glyph is
/// itself well-shaped.
proof fn lemma_run_shape_prefix(l: Seq<SpanM>, k: int)
    requires
        run_shape(l),
        0 <= k <= l.len(),
        k >= 1 ==> sp_at(l, k - 1) || glyph_ok(l[k - 1]),
    ensures
        run_shape(l.take(k)),
{
    let p = l.take(k);
    assert forall|j: int| 0 <= j < p.len() && #[trigger] sp_at(p, j) implies 2 <= j && !sp_at(
        p,
        j - 1,
    ) && !sp_at(p, j - 2) by {
        assert(p[j] == l[j]);
        assert(sp_at(l, j));
        assert(p[j - 1] == l[j - 1] && p[j - 2] == l[j - 2]);
    }
    assert forall|j: int| 0 <= j < p.len() && #[trigger] blank_at(p, j) implies p[j].content.len()
        == 0 by {
        assert(sp_at(p, j + 1));
        assert(p[j + 1] == l[j + 1]);
        assert(sp_at(l, j + 1));
        assert(blank_at(l, j));
        assert(p[j] == l[j]);
    }
    assert forall|j: int|
        0 <= j < p.len() - 1 && !sp_at(p, j) && !(#[trigger] sp_at(p, j + 1)) implies glyph_ok(
        p[j],
    ) by {
        assert(p[j] == l[j] && p[j + 1] == l[j + 1]);
        assert(!sp_at(l, j) && !sp_at(l, j + 1));
    }
    if p.len() >= 1 {
        assert(p[p.len() - 1] == l[k - 1]);
    }
}

/// The uppercase form of a non-space character is not a space.
proof fn lemma_upper_not_space(c: char)
    requires
        c != ' ',
    ensures
        upper_char(c) != ' ',
{
    if 'a' <= c && c <= 'z' {
        assert(97 <= c as int <= 122);
        assert(upper_char(c) as int == c as int - 32);
    }
}

/// Every character a word renders as is a non-space character.
proof fn lemma_decorated_space_free(w: Seq<char>, p: Punctuation, cap: bool)
    requires
        word_chars_ok(w),
        punct_space_free(p),
    ensures
        decorated(w, p, cap).len() >= 1,
        forall|k: int|
            0 <= k < decorated(w, p, cap).len() ==> #[trigger] decorated(w, p, cap)[k] != ' ',
{
    let d = decorated(w, p, cap);
    let base = if cap {
        cap_first(w)
    } else {
        w
    };
    assert(base.len() == w.len());
    assert forall|k: int| 0 <= k < d.len() implies #[trigger] d[k] != ' ' by {
        let bn = begin_seq(p).len() as int;
        if k < bn {
            assert(d[k] == begin_seq(p)[k]);
        } else if k < bn + base.len() {
            assert(d[k] == base[k - bn]);
            if cap {
                if k - bn == 0 {
                    assert(base[0] == upper_char(w[0]));
                    lemma_upper_not_space(w[0]);
                } else {
                    assert(base[k - bn] == w[k - bn]);
                }
            }
        } else {
            assert(d[k] == end_seq(p)[k - bn - base.len()]);
        }
    }
}

/// A span holding exactly the single character `c` is not a separator
/// when `c` is not a space.
proof fn lemma_single_not_space(cs: Seq<char>, c: char)
    requires
        cs == seq![c],
        c != ' ',
    ensures
        cs != seq![' '],
{
    assert(cs[0] == c);
    if cs == seq![' '] {
        assert(cs[0] == ' ');
    }
}

/// A single word unit is a well-shaped run.
proof fn lemma_unit_shape(w: Seq<char>, p: Punctuation, cap: bool)
    requires
        word_chars_ok(w),
        punct_space_free(p),
    ensures
        run_shape(word_unit(w, p, cap)),
        word_unit(w, p, cap).len() == decorated(w, p, cap).len() + 2,
        sp_at(word_unit(w, p, cap), word_unit(w, p, cap).len() - 1),
        word_unit(w, p, cap)[word_unit(w, p, cap).len() - 2].content.len() == 0,
        glyph_ok(word_unit(w, p, cap)[word_unit(w, p, cap).len() - 3]),
{
    let u = word_unit(w, p, cap);
    let d = decorated(w, p, cap);
    let dn = d.len() as int;
    lemma_decorated_space_free(w, p, cap);
    assert(u.len() == dn + 2);
    assert(forall|k: int| 0 <= k < dn ==> u[k] == crate::layout::glyph_m(d[k]));
    assert(u[dn] == blank_m());
    assert(u[dn + 1] == space_m());
    assert(sp_at(u, dn + 1)) by {
        assert(u[dn + 1].content =~= seq![' ']);
    }
    assert forall|j: int| 0 <= j < u.len() && j != dn + 1 implies !sp_at(u, j) by {
        if j < dn {
            assert(u[j].content == seq![d[j]]);
            assert(d[j] != ' ');
            lemma_single_not_space(u[j].content, d[j]);
        } else {
            assert(u[j].content.len() == 0);
        }
    }
    assert forall|j: int| 0 <= j < u.len() && #[trigger] sp_at(u, j) implies 2 <= j && !sp_at(
        u,
        j - 1,
    ) && !sp_at(u, j - 2) by {
        assert(j == dn + 1);
        assert(dn >= 1);
        assert(!sp_at(u, dn));
        assert(!sp_at(u, dn - 1));
    }
    assert forall|j: int| 0 <= j < u.len() && #[trigger] blank_at(u, j) implies u[j].content.len()
        == 0 by {
        assert(sp_at(u, j + 1));
        assert(j + 1 == dn + 1);
    }
    assert forall|j: int|
        0 <= j < u.len() - 1 && !sp_at(u, j) && !(#[trigger] sp_at(u, j + 1)) implies glyph_ok(
        u[j],
    ) by {
        assert(j != dn);
        assert(j < dn);
        assert(u[j].content == seq![d[j]]);
    }
    assert(glyph_ok(u[dn - 1])) by {
        assert(u[dn - 1].content == seq![d[dn - 1]]);
    }
}


/// The line fold only ever produces well-shaped lines: every closed line,
/// and the line being accumulated, which always ends with an empty
/// overflow slot and a separator after at least one glyph.
proof fn lemma_layout_shape(ws: Seq<Seq<char>>, ps: Seq<Punctuation>, limit: int, n: int)
    requires
        0 <= n <= ws.len(),
        ps.len() == ws.len(),
        forall|i: int| 0 <= i < ws.len() ==> word_chars_ok(#[trigger] ws[i]),
        forall|i: int| 0 <= i < ps.len() ==> punct_space_free(#[trigger] ps[i]),
    ensures
        ({
            let acc = layout_after(ws, ps, limit, n);
            &&& forall|k: int|
                0 <= k < acc.closed.len() ==> run_shape(#[trigger] acc.closed[k]) && (
                acc.closed[k].len() >= 1 ==> sp_at(acc.closed[k], acc.closed[k].len() - 1))
            &&& n == 0 ==> acc.closed.len() == 0 && acc.cur.len() == 0
            &&& n >= 1 ==> run_shape(acc.cur) && acc.cur.len() >= 3 && sp_at(
                acc.cur,
                acc.cur.len() - 1,
            ) && acc.cur[acc.cur.len() - 2].content.len() == 0 && glyph_ok(
                acc.cur[acc.cur.len() - 3],
            )
        }),
    decreases n,
{
    if n > 0 {
        lemma_layout_shape(ws, ps, limit, n - 1);
        let prev = layout_after(ws, ps, limit, n - 1);
        let w = ws[n - 1];
        let p = ps[n - 1];
        let cap = cap_at(ps, n - 1);
        let u = word_unit(w, p, cap);
        lemma_unit_shape(w, p, cap);
        let acc = layout_after(ws, ps, limit, n);
        let dl = decorated(w, p, cap).len() as int;
        if prev.count + dl + 1 > limit {
            assert(run_shape(prev.cur));
            assert(acc.cur == u);
        } else {
            assert(run_shape(prev.cur)) by {
                if n - 1 == 0 {
                    assert(prev.cur.len() == 0);
                }
            }
            lemma_run_shape_concat(prev.cur, u);
            assert(acc.cur == prev.cur + u);
            let cn = acc.cur.len() as int;
            assert(acc.cur[cn - 1] == u[u.len() - 1]);
            assert(acc.cur[cn - 2] == u[u.len() - 2]);
            assert(acc.cur[cn - 3] == u[u.len() - 3]);
            assert(sp_at(acc.cur, cn - 1)) by {
                assert(sp_at(u, u.len() - 1));
            }
        }
    }
}

/// The running count never exceeds the limit when every decorated word
/// (plus its separator) fits in a line, and a closed line never holds
/// more characters than the limit plus its own trailing separator.
#[verifier::spinoff_prover]
#[verifier::rlimit(60)]
proof fn lemma_layout_widths(ws: Seq<Seq<char>>, ps: Seq<Punctuation>, limit: int, n: int)
    requires
        0 <= n <= ws.len(),
        ps.len() == ws.len(),
        forall|i: int| 0 <= i < ws.len() ==> word_chars_ok(#[trigger] ws[i]),
        forall|i: int| 0 <= i < ps.len() ==> punct_space_free(#[trigger] ps[i]),
        0 <= limit,
        forall|i: int|
            0 <= i < ws.len() ==> #[trigger] decorated(ws[i], ps[i], cap_at(ps, i)).len() + 1
                <= limit,
    ensures
        ({
            let acc = layout_after(ws, ps, limit, n);
            &&& 0 <= acc.count <= limit
            &&& forall|k: int|
                0 <= k < acc.closed.len() ==> #[trigger] span_chars(acc.closed[k]) <= limit + 1
                    && acc.closed[k].len() >= 1 && sp_at(acc.closed[k], acc.closed[k].len() - 1)
            &&& n == 0 ==> acc.count == 0 && acc.closed.len() == 0 && acc.cur.len() == 0
            &&& n >= 1 ==> span_chars(acc.cur) <= acc.count + 1
        }),
    decreases n,
{
    if n > 0 {
        lemma_layout_widths(ws, ps, limit, n - 1);
        lemma_layout_shape(ws, ps, limit, n - 1);
        let prev = layout_after(ws, ps, limit, n - 1);
        let w = ws[n - 1];
        let p = ps[n - 1];
        let cap = cap_at(ps, n - 1);
        let u = word_unit(w, p, cap);
        let dl = decorated(w, p, cap).len() as int;
        lemma_span_chars_unit(w, p, cap);
        let acc = layout_after(ws, ps, limit, n);
        if prev.count + dl + 1 > limit {
            assert(n - 1 >= 1) by {
                if n - 1 == 0 {
                    assert(prev.count == 0);
                    assert(dl + 1 <= limit);
                }
            }
            assert(span_chars(prev.cur) <= prev.count + 1 <= limit + 1);
            assert(prev.cur.len() >= 3 && sp_at(prev.cur, prev.cur.len() - 1));
            assert(acc.count == dl <= limit);
            assert(acc.cur == u);
            assert(span_chars(acc.cur) == dl + 1);
            assert forall|k: int| 0 <= k < acc.closed.len() implies #[trigger] span_chars(
                acc.closed[k],
            ) <= limit + 1 && acc.closed[k].len() >= 1 && sp_at(
                acc.closed[k],
                acc.closed[k].len() - 1,
            ) by {
                if k < prev.closed.len() {
                    assert(acc.closed[k] == prev.closed[k]);
                } else {
                    assert(acc.closed[k] == prev.cur);
                }
            }
        } else {
            if n - 1 == 0 {
                assert(prev.cur =~= Seq::<SpanM>::empty());
                assert(span_chars(prev.cur) == 0);
            }
            lemma_span_chars_add(prev.cur, u);
            assert(span_chars(acc.cur) == span_chars(prev.cur) + dl + 1);
        }
        assert(0 <= acc.count <= limit);
        assert(n >= 1 ==> span_chars(acc.cur) <= acc.count + 1);
        assert(forall|k: int|
            0 <= k < acc.closed.len() ==> #[trigger] span_chars(acc.closed[k]) <= limit + 1
                && acc.closed[k].len() >= 1 && sp_at(acc.closed[k], acc.closed[k].len() - 1));
    } else {
        let acc = layout_after(ws, ps, limit, n);
        assert(acc.count == 0 && acc.closed.len() == 0 && acc.cur.len() == 0);
    }
}

/// Layout keeps every line within the width limit: when each decorated
/// word together with its separator fits the limit, no line of the
/// finished buffer is wider than the limit, and the first line in final
/// order ends in a plain glyph, with no trailing separator pair.
pub proof fn lemma_line_widths(ws: Seq<Seq<char>>, ps: Seq<Punctuation>, limit: int)
    requires
        1 <= ws.len(),
        ps.len() == ws.len(),
        forall|i: int| 0 <= i < ws.len() ==> word_chars_ok(#[trigger] ws[i]),
        forall|i: int| 0 <= i < ps.len() ==> punct_space_free(#[trigger] ps[i]),
        forall|i: int|
            0 <= i < ws.len() ==> #[trigger] decorated(ws[i], ps[i], cap_at(ps, i)).len() + 1
                <= limit,
    ensures
        ({
            let r = render_spec(ws, ps, limit);
            &&& forall|k: int| 0 <= k < r.len() ==> #[trigger] line_width(r[k]) <= limit
            &&& r.len() >= 1
            &&& r[0].len() >= 1
            &&& glyph_ok(r[0][r[0].len() - 1])
            &&& !sp_at(r[0], r[0].len() - 1)
        }),
{
    let nn = ws.len() as int;
    assert(decorated(ws[0], ps[0], cap_at(ps, 0)).len() + 1 <= limit);
    lemma_layout_widths(ws, ps, limit, nn);
    lemma_layout_shape(ws, ps, limit, nn);
    let acc = layout_after(ws, ps, limit, nn);
    let cur = acc.cur;
    let cn = cur.len() as int;
    let trimmed = cur.take(cn - 2);
    assert(cur.drop_last().drop_last() =~= trimmed);
    assert(span_chars(cur) == span_chars(cur.drop_last()) + 1) by {
        assert(cur.last().content =~= seq![' ']);
    }
    assert(span_chars(cur.drop_last()) == span_chars(trimmed)) by {
        assert(cur.drop_last().last() == cur[cn - 2]);
        assert(cur.drop_last().drop_last() == trimmed);
    }
    assert(span_chars(trimmed) <= acc.count <= limit);
    assert(trimmed.len() == cn - 2 >= 1);
    assert(trimmed[trimmed.len() - 1] == cur[cn - 3]);
    assert(glyph_ok(trimmed[trimmed.len() - 1]));
    assert(!sp_at(trimmed, trimmed.len() - 1)) by {
        lemma_single_not_space(
            cur[cn - 3].content,
            cur[cn - 3].content[0],
        );
        assert(cur[cn - 3].content =~= seq![cur[cn - 3].content[0]]);
    }
    assert(line_width(trimmed) <= limit);
    let lines = acc.closed.push(trimmed);
    let r = render_spec(ws, ps, limit);
    assert(r[0] == lines.last());
    assert(r[0] == trimmed);
    assert forall|k: int| 0 <= k < r.len() implies #[trigger] line_width(r[k]) <= limit by {
        assert(r.len() == lines.len());
        if k == 0 {
            assert(r[k] == trimmed);
        } else if k == r.len() - 1 {
            assert(r[k] == lines.first());
            if lines.len() == 1 {
                assert(r[k] == trimmed);
            } else {
                assert(lines.first() == acc.closed[0]);
                assert(span_chars(acc.closed[0]) <= limit + 1);
                assert(sp_at(acc.closed[0], acc.closed[0].len() - 1));
            }
        } else {
            assert(r[k] == lines[k]);
            assert(lines[k] == acc.closed[k]);
            assert(span_chars(acc.closed[k]) <= limit + 1);
            assert(sp_at(acc.closed[k], acc.closed[k].len() - 1));
        }
    }
}

/// Capitalization lands exactly once per sentence-ending draw: word `j`
/// opens with an uppercase first letter exactly when the draw before it
/// ended a sentence, and no other character of the word is changed.
pub proof fn lemma_capitalization(ws: Seq<Seq<char>>, ps: Seq<Punctuation>, j: int)
    requires
        ps.len() == ws.len(),
        0 <= j < ws.len(),
        ws[j].len() >= 1,
    ensures
        cap_at(ps, j) <==> (j >= 1 && ps[j - 1] is End),
        ({
            let d = decorated(ws[j], ps[j], cap_at(ps, j));
            let b = begin_seq(ps[j]).len() as int;
            &&& d.len() == b + ws[j].len() + end_seq(ps[j]).len()
            &&& d[b] == (if cap_at(ps, j) {
                upper_char(ws[j][0])
            } else {
                ws[j][0]
            })
            &&& forall|k: int| 1 <= k < ws[j].len() ==> d[b + k] == ws[j][k]
        }),
{
    let w = ws[j];
    let cap = cap_at(ps, j);
    let d = decorated(w, ps[j], cap);
    let base = if cap {
        cap_first(w)
    } else {
        w
    };
    let b = begin_seq(ps[j]).len() as int;
    assert(base.len() == w.len());
    assert(d[b] == base[0]);
    if cap {
        assert(base[0] == upper_char(w[0]));
    }
    assert forall|k: int| 1 <= k < w.len() implies d[b + k] == w[k] by {
        assert(d[b + k] == base[k]);
        if cap {
            assert(base[k] == w.drop_first()[k - 1]);
        }
    }
}

/// A list of well-shaped lines flattens to a well-shaped run.
proof fn lemma_flatten_shape(ls: Seq<Seq<SpanM>>)
    requires
        forall|k: int| 0 <= k < ls.len() ==> run_shape(#[trigger] ls[k]),
    ensures
        run_shape(ls.flatten()),
    decreases ls.len(),
{
    if ls.len() == 0 {
        assert(ls.flatten() =~= Seq::<SpanM>::empty());
    } else {
        assert(forall|k: int|
            0 <= k < ls.drop_first().len() ==> run_shape(#[trigger] ls.drop_first()[k]));
        lemma_flatten_shape(ls.drop_first());
        assert(run_shape(ls.first())) by {
            assert(ls[0] == ls.first());
        }
        lemma_run_shape_concat(ls.first(), ls.drop_first().flatten());
    }
}

/// Every buffer the generator renders is a fresh, well-formed buffer for
/// the input machine: one flat run of words, overflow slots and
/// separators, everything pending.
pub proof fn lemma_render_fresh(ws: Seq<Seq<char>>, ps: Seq<Punctuation>, limit: int)
    requires
        1 <= ws.len(),
        ps.len() == ws.len(),
        forall|i: int| 0 <= i < ws.len() ==> word_chars_ok(#[trigger] ws[i]),
        forall|i: int| 0 <= i < ps.len() ==> punct_space_free(#[trigger] ps[i]),
    ensures
        fresh_buffer(render_spec(ws, ps, limit).flatten()),
        render_spec(ws, ps, limit).flatten().len() >= 1,
{
    let nn = ws.len() as int;
    lemma_layout_shape(ws, ps, limit, nn);
    let acc = layout_after(ws, ps, limit, nn);
    let cur = acc.cur;
    let cn = cur.len() as int;
    let trimmed = cur.take(cn - 2);
    lemma_run_shape_prefix(cur, cn - 2);
    let lines = acc.closed.push(trimmed);
    let r = render_spec(ws, ps, limit);
    assert forall|k: int| 0 <= k < r.len() implies run_shape(#[trigger] r[k]) by {
        assert(r.len() == lines.len());
        if k == 0 {
            assert(r[k] == lines.last());
            assert(lines.last() == trimmed);
        } else if k == r.len() - 1 {
            assert(r[k] == lines.first());
            if lines.len() == 1 {
            } else {
                assert(lines.first() == acc.closed[0]);
            }
        } else {
            assert(r[k] == lines[k]);
            assert(lines[k] == acc.closed[k]);
        }
    }
    lemma_flatten_shape(r);
    let flat = r.flatten();
    assert(r[0] == lines.last());
    assert(r[0] == trimmed);
    assert(trimmed.len() >= 1);
    r.lemma_flatten_length_ge_single_element_length(0);
    assert(flat.len() >= 1);
    // a well-shaped non-empty run is a fresh buffer
    assert forall|i: int| 0 <= i < flat.len() && #[trigger] crate::typing::glyph_at(
        flat,
        i,
    ) implies glyph_ok(flat[i]) by {
        if i < flat.len() - 1 {
            assert(!sp_at(flat, i + 1));
        }
    }
    assert forall|i: int| 0 <= i < flat.len() && #[trigger] blank_at(flat, i) implies
        crate::typing::blank_ok(flat[i]) by {
        assert(flat[i].content.len() == 0);
    }
    assert(buffer_wf(flat));
}


/// The combined length of a list of lines.
pub open spec fn total_len(ls: Seq<Seq<SpanM>>) -> int
    decreases ls.len(),
{
    if ls.len() == 0 {
        0
    } else {
        ls.first().len() + total_len(ls.drop_first())
    }
}

/// The combined length of the first `n` words.
pub open spec fn words_total_upto(ws: Seq<Seq<char>>, n: int) -> int
    decreases n,
{
    if n <= 0 {
        0
    } else {
        words_total_upto(ws, n - 1) + ws[n - 1].len()
    }
}

/// The combined length of all the words.
pub open spec fn words_total(ws: Seq<Seq<char>>) -> int {
    words_total_upto(ws, ws.len() as int)
}

/// The spans the first `n` words contribute before trimming: each word's
/// decorated glyphs plus its overflow slot and separator.
spec fn units_len(ws: Seq<Seq<char>>, ps: Seq<Punctuation>, n: int) -> int
    decreases n,
{
    if n <= 0 {
        0
    } else {
        units_len(ws, ps, n - 1) + decorated(ws[n - 1], ps[n - 1], cap_at(ps, n - 1)).len() + 2
    }
}

proof fn lemma_flatten_total(ls: Seq<Seq<SpanM>>)
    ensures
        ls.flatten().len() == total_len(ls),
    decreases ls.len(),
{
    if ls.len() == 0 {
        assert(ls.flatten() =~= Seq::<SpanM>::empty());
    } else {
        lemma_flatten_total(ls.drop_first());
    }
}

proof fn lemma_total_push(ls: Seq<Seq<SpanM>>, x: Seq<SpanM>)
    ensures
        total_len(ls.push(x)) == total_len(ls) + x.len(),
    decreases ls.len(),
{
    if ls.len() == 0 {
        assert(ls.push(x).first() == x);
        assert(ls.push(x).drop_first() =~= Seq::<Seq<SpanM>>::empty());
        assert(total_len(Seq::<Seq<SpanM>>::empty()) == 0);
        assert(total_len(ls.push(x)) == x.len() + total_len(ls.push(x).drop_first()));
    } else {
        assert(ls.push(x).first() == ls.first());
        assert(ls.push(x).drop_first() =~= ls.drop_first().push(x));
        lemma_total_push(ls.drop_first(), x);
    }
}

proof fn lemma_total_update(ls: Seq<Seq<SpanM>>, a: int, x: Seq<SpanM>)
    requires
        0 <= a < ls.len(),
    ensures
        total_len(ls.update(a, x)) == total_len(ls) - ls[a].len() + x.len(),
    decreases ls.len(),
{
    if a == 0 {
        assert(ls.update(0, x).first() == x);
        assert(ls.update(0, x).drop_first() =~= ls.drop_first());
    } else {
        assert(ls.update(a, x).first() == ls.first());
        assert(ls.update(a, x).drop_first() =~= ls.drop_first().update(a - 1, x));
        lemma_total_update(ls.drop_first(), a - 1, x);
    }
}

/// The fold neither drops nor invents spans: closed lines and the open
/// line together hold exactly one unit per word folded so far.
proof fn lemma_layout_total(ws: Seq<Seq<char>>, ps: Seq<Punctuation>, limit: int, n: int)
    requires
        0 <= n <= ws.len(),
        ps.len() == ws.len(),
    ensures
        ({
            let acc = layout_after(ws, ps, limit, n);
            &&& total_len(acc.closed) + acc.cur.len() == units_len(ws, ps, n)
            &&& n >= 1 ==> acc.cur.len() >= 2
        }),
    decreases n,
{
    if n > 0 {
        lemma_layout_total(ws, ps, limit, n - 1);
        let prev = layout_after(ws, ps, limit, n - 1);
        let u = word_unit(ws[n - 1], ps[n - 1], cap_at(ps, n - 1));
        assert(u.len() == decorated(ws[n - 1], ps[n - 1], cap_at(ps, n - 1)).len() + 2);
        let dl = decorated(ws[n - 1], ps[n - 1], cap_at(ps, n - 1)).len() as int;
        if prev.count + dl + 1 > limit {
            lemma_total_push(prev.closed, prev.cur);
        }
    }
}

/// The finished buffer flattens to exactly the words' units minus the one
/// trimmed separator pair: trimming, closing and the final swap are the
/// only edits, and the swap only reorders whole lines.
proof fn lemma_render_total(ws: Seq<Seq<char>>, ps: Seq<Punctuation>, limit: int)
    requires
        1 <= ws.len(),
        ps.len() == ws.len(),
    ensures
        render_spec(ws, ps, limit).flatten().len() == units_len(ws, ps, ws.len() as int) - 2,
{
    let nn = ws.len() as int;
    lemma_layout_total(ws, ps, limit, nn);
    let acc = layout_after(ws, ps, limit, nn);
    let cur = acc.cur;
    let cn = cur.len() as int;
    let trimmed = cur.take(cn - 2);
    assert(trimmed.len() == cn - 2);
    let lines = acc.closed.push(trimmed);
    lemma_total_push(acc.closed, trimmed);
    assert(total_len(lines) == units_len(ws, ps, nn) - 2);
    let m = lines.len() as int;
    let l1 = lines.update(0, lines.last());
    lemma_total_update(lines, 0, lines.last());
    let l2 = l1.update(m - 1, lines.first());
    lemma_total_update(l1, m - 1, lines.first());
    assert(l1[m - 1] == lines.last());
    assert(total_len(l2) == total_len(lines));
    assert(render_spec(ws, ps, limit) == l2);
    lemma_flatten_total(l2);
}

/// A decorated word adds at most two characters, so the whole buffer
/// holds at most each word's characters plus four spans per word.
proof fn lemma_units_bound(ws: Seq<Seq<char>>, ps: Seq<Punctuation>, n: int)
    requires
        0 <= n <= ws.len(),
        ps.len() == ws.len(),
        forall|i: int| 0 <= i < ws.len() ==> (#[trigger] ws[i]).len() >= 1,
    ensures
        units_len(ws, ps, n) <= words_total_upto(ws, n) + 4 * n,
    decreases n,
{
    if n > 0 {
        lemma_units_bound(ws, ps, n - 1);
        let w = ws[n - 1];
        let p = ps[n - 1];
        let cap = cap_at(ps, n - 1);
        assert(begin_seq(p).len() <= 1);
        assert(end_seq(p).len() <= 1);
        if cap {
            assert(cap_first(w).len() == w.len());
        }
        assert(decorated(w, p, cap).len() <= w.len() + 2);
    }
}

/// Generates a complete fresh test: samples punctuation for the given
/// shuffled words, lays them out, and starts the input machine over the
/// flattened buffer. It yields a state whenever the words are small
/// enough that no draw can overrun the machine's size cap, and yields
/// nothing only when the drawn buffer did overrun it.
pub fn new_test(words: &Vec<String>, limit: usize) -> (r: Option<TestState>)
    requires
        1 <= words@.len(),
        forall|i: int| 0 <= i < words@.len() ==> word_ok(#[trigger] words@[i]@),
        limit <= 100_000_000,
    ensures
        words_total(words_view(words@)) + 4 * words@.len() <= MAX_TEST_LEN + 2 ==> r is Some,
        r is None ==> exists|ps: Seq<Punctuation>|
            {
                &&& ps.len() == words@.len()
                &&& forall|i: int| 0 <= i < ps.len() ==> is_drawn(#[trigger] ps[i])
                &&& render_spec(words_view(words@), ps, limit as int).flatten().len()
                    > MAX_TEST_LEN
            },
        match r {
            Option::Some(ts) => {
                &&& st_wf(ts@)
                &&& fresh_buffer(ts@.text)
                &&& ts@.done == 0
                &&& ts@.correct == 0
                &&& ts@.mistakes == 0
                &&& ts@.blanks == 0
                &&& ts@.cursor_x == 0
                &&& ts@.test_length == ts@.text.len()
                &&& exists|ps: Seq<Punctuation>|
                    {
                        &&& ps.len() == words@.len()
                        &&& forall|i: int| 0 <= i < ps.len() ==> is_drawn(#[trigger] ps[i])
                        &&& ts@.text == render_spec(words_view(words@), ps, limit as int).flatten()
                    }
            },
            Option::None => true,
        },
{
    let buffer = prep_test(words, limit);
    proof {
        let ps = choose|ps: Seq<Punctuation>|
            {
                &&& ps.len() == words@.len()
                &&& forall|i: int| 0 <= i < ps.len() ==> is_drawn(#[trigger] ps[i])
                &&& lines_view(buffer@) == render_spec(words_view(words@), ps, limit as int)
            };
        assert forall|i: int| 0 <= i < ps.len() implies punct_space_free(#[trigger] ps[i]) by {
            let u = choose|u: int|
                0 <= u < crate::punct::PUNCT_WEIGHT_TOTAL && ps[i] == #[trigger] drawn_punct(u);
            lemma_drawn_space_free(u);
        }
        assert forall|i: int| 0 <= i < words@.len() implies word_chars_ok(
            #[trigger] words_view(words@)[i],
        ) by {
            assert(words_view(words@)[i] == words@[i]@);
            assert(word_ok(words@[i]@));
        }
        lemma_render_fresh(words_view(words@), ps, limit as int);
        assert(fresh_buffer(lines_view(buffer@).flatten()));
        lemma_render_total(words_view(words@), ps, limit as int);
        lemma_units_bound(words_view(words@), ps, words@.len() as int);
        assert(lines_view(buffer@).flatten().len() <= words_total(words_view(words@)) + 4
            * words@.len() - 2);
    }
    let r = TestState::from_buffer(buffer);
    proof {
        let ps = choose|ps: Seq<Punctuation>|
            {
                &&& ps.len() == words@.len()
                &&& forall|i: int| 0 <= i < ps.len() ==> is_drawn(#[trigger] ps[i])
                &&& lines_view(buffer@) == render_spec(words_view(words@), ps, limit as int)
            };
        if words_total(words_view(words@)) + 4 * words@.len() <= MAX_TEST_LEN + 2 {
            assert(lines_view(buffer@).flatten().len() <= MAX_TEST_LEN);
            assert(r is Some);
        }
        if r is None {
            assert(lines_view(buffer@).flatten().len() > MAX_TEST_LEN);
            assert(render_spec(words_view(words@), ps, limit as int).flatten().len()
                > MAX_TEST_LEN);
        }
    }
    r
}

} // verus!
