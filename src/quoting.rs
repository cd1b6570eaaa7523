//! How a list of tokens can be written as a command line, and the laws that
//! say the tokenizer reads such a line back as the same tokens.
use vstd::prelude::*;

use crate::text::white_space;
use crate::tokenizer::{finish, initial_state, is_quote, scan_from, step, tokens_of, Mode, ScanState};

verus! {

/// How one fragment of a token is written.
pub enum Quoting {
    /// Unquoted, with a backslash before each character that would
    /// otherwise act as a separator, quote or escape.
    Bare,
    /// Between single quotes.
    Single,
    /// Between double quotes.
    Double,
}

/// A piece of a token's text together with the way it is written.
pub struct Fragment {
    pub quoting: Quoting,
    pub text: Seq<char>,
}

/// A character with a meaning of its own outside quotes.
pub open spec fn special(c: char) -> bool {
    white_space(c) || is_quote(c) || c == '\\'
}

/// `t` with a backslash before each special character.
pub open spec fn escaped(t: Seq<char>) -> Seq<char>
    decreases t.len(),
{
    if t.len() == 0 {
        t
    } else {
        escaped(t.drop_last()) + if special(t.last()) {
            seq!['\\', t.last()]
        } else {
            seq![t.last()]
        }
    }
}

pub open spec fn quote_of(q: Quoting) -> char {
    match q {
        Quoting::Single => '\'',
        _ => '"',
    }
}

/// A fragment can be written as it asks: quoted text holds neither its own
/// quote nor a backslash.
pub open spec fn fits(f: Fragment) -> bool {
    f.quoting is Bare || forall|i: int|
        0 <= i < f.text.len() ==> f.text[i] != quote_of(f.quoting) && f.text[i] != '\\'
}

pub open spec fn render_fragment(f: Fragment) -> Seq<char> {
    if f.quoting is Bare {
        escaped(f.text)
    } else {
        seq![quote_of(f.quoting)] + f.text + seq![quote_of(f.quoting)]
    }
}

/// The text of a token written as the fragments `w`.
pub open spec fn word_text(w: Seq<Fragment>) -> Seq<char>
    decreases w.len(),
{
    if w.len() == 0 {
        Seq::empty()
    } else {
        word_text(w.drop_last()) + w.last().text
    }
}

/// The fragments `w` written one after the other, with nothing between.
pub open spec fn render_word(w: Seq<Fragment>) -> Seq<char>
    decreases w.len(),
{
    if w.len() == 0 {
        Seq::empty()
    } else {
        render_word(w.drop_last()) + render_fragment(w.last())
    }
}

/// A token that can be written as `w`: every fragment fits, and the
/// written form is not empty.
pub open spec fn word_ok(w: Seq<Fragment>) -> bool {
    &&& forall|i: int| 0 <= i < w.len() ==> fits(#[trigger] w[i])
    &&& render_word(w).len() > 0
}

/// The words `ws` written with one space between each two.
pub open spec fn render_line(ws: Seq<Seq<Fragment>>) -> Seq<char>
    decreases ws.len(),
{
    if ws.len() == 0 {
        Seq::empty()
    } else if ws.len() == 1 {
        render_word(ws[0])
    } else {
        render_line(ws.drop_last()) + seq![' '] + render_word(ws.last())
    }
}

/// The tokens `ts` joined with one space between each two.
pub open spec fn join_spaced(ts: Seq<Seq<char>>) -> Seq<char>
    decreases ts.len(),
{
    if ts.len() == 0 {
        Seq::empty()
    } else if ts.len() == 1 {
        ts[0]
    } else {
        join_spaced(ts.drop_last()) + seq![' '] + ts.last()
    }
}

/// Between fragments: no escape pending, no quote open, no stray buffer.
pub open spec fn resting(st: ScanState) -> bool {
    &&& !st.escaping
    &&& !(st.mode is Quoted)
    &&& st.mode is Idle ==> st.buffer.len() == 0
}

proof fn lemma_scan_concat(st: ScanState, a: Seq<char>, b: Seq<char>)
    ensures
        scan_from(st, a + b) == scan_from(scan_from(st, a), b),
    decreases b.len(),
{
    if b.len() == 0 {
        assert(a + b =~= a);
    } else {
        assert((a + b).drop_last() =~= a + b.drop_last());
        lemma_scan_concat(st, a, b.drop_last());
    }
}

proof fn lemma_scan_one(st: ScanState, c: char)
    ensures
        scan_from(st, seq![c]) == step(st, c),
{
    assert(seq![c].drop_last() =~= Seq::<char>::empty());
    assert(scan_from(st, Seq::<char>::empty()) == st);
}

proof fn lemma_escaped_len(t: Seq<char>)
    ensures
        escaped(t).len() >= t.len(),
    decreases t.len(),
{
    if t.len() > 0 {
        lemma_escaped_len(t.drop_last());
    }
}

proof fn lemma_escaped_plain(t: Seq<char>)
    requires
        forall|i: int| 0 <= i < t.len() ==> !special(#[trigger] t[i]),
    ensures
        escaped(t) == t,
    decreases t.len(),
{
    if t.len() > 0 {
        lemma_escaped_plain(t.drop_last());
        assert(t.drop_last() + seq![t.last()] =~= t);
    }
}

proof fn lemma_scan_escaped(st: ScanState, t: Seq<char>)
    requires
        resting(st),
    ensures
        ({
            let r = scan_from(st, escaped(t));
            &&& resting(r)
            &&& r.buffer == st.buffer + t
            &&& r.tokens == st.tokens
            &&& r.mode == if t.len() == 0 { st.mode } else { Mode::Unquoted }
        }),
    decreases t.len(),
{
    if t.len() == 0 {
        assert(st.buffer + t =~= st.buffer);
    } else {
        let c = t.last();
        let front = t.drop_last();
        lemma_scan_escaped(st, front);
        let m = scan_from(st, escaped(front));
        assert(!white_space('\\'));
        if special(c) {
            lemma_scan_concat(st, escaped(front), seq!['\\', c]);
            assert(seq!['\\', c].drop_last() =~= seq!['\\']);
            assert(seq!['\\'].drop_last() =~= Seq::<char>::empty());
            lemma_scan_one(m, '\\');
            lemma_scan_one(step(m, '\\'), c);
            lemma_scan_concat(m, seq!['\\'], seq![c]);
            assert(seq!['\\'] + seq![c] =~= seq!['\\', c]);
            assert(scan_from(m, seq!['\\', c]) == step(step(m, '\\'), c));
        } else {
            lemma_scan_concat(st, escaped(front), seq![c]);
            assert(seq![c].drop_last() =~= Seq::<char>::empty());
            lemma_scan_one(m, c);
        }
        assert(st.buffer + front + seq![c] =~= st.buffer + t);
    }
}

proof fn lemma_scan_quoted_body(st: ScanState, q: char, t: Seq<char>)
    requires
        !st.escaping,
        st.mode == Mode::Quoted(q),
        forall|i: int| 0 <= i < t.len() ==> t[i] != q && t[i] != '\\',
    ensures
        ({
            let r = scan_from(st, t);
            &&& !r.escaping
            &&& r.mode == Mode::Quoted(q)
            &&& r.buffer == st.buffer + t
            &&& r.tokens == st.tokens
        }),
    decreases t.len(),
{
    if t.len() == 0 {
        assert(st.buffer + t =~= st.buffer);
    } else {
        lemma_scan_quoted_body(st, q, t.drop_last());
        assert(t.last() == t[t.len() - 1]);
        assert(st.buffer + t.drop_last() + seq![t.last()] =~= st.buffer + t);
    }
}

proof fn lemma_scan_fragment(st: ScanState, f: Fragment)
    requires
        resting(st),
        fits(f),
    ensures
        ({
            let r = scan_from(st, render_fragment(f));
            &&& resting(r)
            &&& r.buffer == st.buffer + f.text
            &&& r.tokens == st.tokens
            &&& render_fragment(f).len() == 0 ==> r.mode == st.mode
            &&& render_fragment(f).len() > 0 ==> !(r.mode is Idle)
        }),
{
    if f.quoting is Bare {
        lemma_scan_escaped(st, f.text);
        lemma_escaped_len(f.text);
    } else {
        let q = quote_of(f.quoting);
        let open = seq![q];
        assert(!white_space(q));
        lemma_scan_one(st, q);
        let s1 = step(st, q);
        assert(s1.mode == Mode::Quoted(q));
        lemma_scan_quoted_body(s1, q, f.text);
        lemma_scan_concat(st, open, f.text);
        let s2 = scan_from(s1, f.text);
        lemma_scan_one(s2, q);
        lemma_scan_concat(st, open + f.text, seq![q]);
    }
}

proof fn lemma_scan_word(st: ScanState, w: Seq<Fragment>)
    requires
        resting(st),
        forall|i: int| 0 <= i < w.len() ==> fits(#[trigger] w[i]),
    ensures
        ({
            let r = scan_from(st, render_word(w));
            &&& resting(r)
            &&& r.buffer == st.buffer + word_text(w)
            &&& r.tokens == st.tokens
            &&& render_word(w).len() == 0 ==> r.mode == st.mode
            &&& render_word(w).len() > 0 ==> !(r.mode is Idle)
        }),
    decreases w.len(),
{
    if w.len() == 0 {
        assert(st.buffer + word_text(w) =~= st.buffer);
    } else {
        let front = w.drop_last();
        lemma_scan_word(st, front);
        let m = scan_from(st, render_word(front));
        assert(fits(w[w.len() - 1]));
        lemma_scan_fragment(m, w.last());
        lemma_scan_concat(st, render_word(front), render_fragment(w.last()));
        assert(st.buffer + word_text(front) + w.last().text =~= st.buffer + word_text(w));
    }
}

/// The texts of the words `ws`, one token each.
pub open spec fn texts(ws: Seq<Seq<Fragment>>) -> Seq<Seq<char>> {
    ws.map_values(|w: Seq<Fragment>| word_text(w))
}

proof fn lemma_scan_line(ws: Seq<Seq<Fragment>>)
    requires
        ws.len() > 0,
        forall|i: int| 0 <= i < ws.len() ==> word_ok(#[trigger] ws[i]),
    ensures
        ({
            let r = scan_from(initial_state(), render_line(ws));
            &&& resting(r)
            &&& !(r.mode is Idle)
            &&& r.buffer == word_text(ws.last())
            &&& r.tokens == texts(ws.drop_last())
        }),
    decreases ws.len(),
{
    let st0 = initial_state();
    let last = ws.last();
    assert(word_ok(ws[ws.len() - 1]));
    if ws.len() == 1 {
        lemma_scan_word(st0, last);
        assert(st0.buffer + word_text(last) =~= word_text(last));
        assert(texts(ws.drop_last()) =~= Seq::<Seq<char>>::empty());
    } else {
        let front = ws.drop_last();
        assert forall|i: int| 0 <= i < front.len() implies word_ok(#[trigger] front[i]) by {
            assert(word_ok(ws[i]));
        }
        lemma_scan_line(front);
        let m = scan_from(st0, render_line(front));
        lemma_scan_one(m, ' ');
        let m1 = step(m, ' ');
        assert(white_space(' '));
        lemma_scan_word(m1, last);
        lemma_scan_concat(st0, render_line(front), seq![' ']);
        lemma_scan_concat(st0, render_line(front) + seq![' '], render_word(last));
        assert(m1.buffer + word_text(last) =~= word_text(last));
        assert(texts(front.drop_last()).push(word_text(front.last())) =~= texts(front));
    }
}

/// Any list of tokens, each written as unquoted (escaped), single-quoted or
/// double-quoted fragments placed side by side, and the tokens separated by
/// single spaces, reads back as exactly those tokens.
pub proof fn lemma_round_trip(ws: Seq<Seq<Fragment>>)
    requires
        forall|i: int| 0 <= i < ws.len() ==> word_ok(#[trigger] ws[i]),
    ensures
        tokens_of(render_line(ws)) == texts(ws),
{
    if ws.len() == 0 {
        assert(texts(ws) =~= Seq::<Seq<char>>::empty());
    } else {
        lemma_scan_line(ws);
        assert(texts(ws.drop_last()).push(word_text(ws.last())) =~= texts(ws));
    }
}

/// Each token written as one unquoted fragment.
pub open spec fn bare_words(ts: Seq<Seq<char>>) -> Seq<Seq<Fragment>> {
    ts.map_values(|t: Seq<char>| seq![Fragment { quoting: Quoting::Bare, text: t }])
}

proof fn lemma_bare_line(ts: Seq<Seq<char>>)
    requires
        forall|i: int, j: int|
            0 <= i < ts.len() && 0 <= j < ts[i].len() ==> !special(#[trigger] ts[i][j]),
    ensures
        render_line(bare_words(ts)) == join_spaced(ts),
    decreases ts.len(),
{
    let ws = bare_words(ts);
    if ts.len() > 0 {
        let t = ts.last();
        let w = ws.last();
        assert(w.drop_last() =~= Seq::<Fragment>::empty());
        assert forall|j: int| 0 <= j < t.len() implies !special(#[trigger] t[j]) by {
            assert(!special(ts[ts.len() - 1][j]));
        }
        lemma_escaped_plain(t);
        assert(w[0] == Fragment { quoting: Quoting::Bare, text: t });
        assert(render_word(w) == render_word(w.drop_last()) + render_fragment(w.last()));
        assert(render_word(w) =~= t);
        if ts.len() > 1 {
            let front = ts.drop_last();
            assert forall|i: int, j: int|
                0 <= i < front.len() && 0 <= j < front[i].len() implies !special(
                #[trigger] front[i][j],
            ) by {
                assert(!special(ts[i][j]));
            }
            lemma_bare_line(front);
            assert(bare_words(front) =~= ws.drop_last());
        }
    }
}

/// Tokens that are not empty and hold no white space, quote or backslash,
/// joined with single spaces, read back as the same tokens.
pub proof fn lemma_join_round_trip(ts: Seq<Seq<char>>)
    requires
        forall|i: int| 0 <= i < ts.len() ==> #[trigger] ts[i].len() > 0,
        forall|i: int, j: int|
            0 <= i < ts.len() && 0 <= j < ts[i].len() ==> !special(#[trigger] ts[i][j]),
    ensures
        tokens_of(join_spaced(ts)) == ts,
{
    let ws = bare_words(ts);
    assert forall|i: int| 0 <= i < ws.len() implies word_ok(#[trigger] ws[i]) by {
        let w = ws[i];
        let f = w[0];
        assert(w.drop_last() =~= Seq::<Fragment>::empty());
        assert(forall|k: int| 0 <= k < w.len() ==> w[k] == f);
        lemma_escaped_len(ts[i]);
        assert(render_word(w) == render_word(w.drop_last()) + render_fragment(f));
    }
    lemma_round_trip(ws);
    lemma_bare_line(ts);
    assert forall|i: int| 0 <= i < ts.len() implies texts(ws)[i] == ts[i] by {
        let w = ws[i];
        assert(w.drop_last() =~= Seq::<Fragment>::empty());
        assert(word_text(w) == word_text(w.drop_last()) + w.last().text);
        assert(Seq::<char>::empty() + ts[i] =~= ts[i]);
    }
    assert(texts(ws) =~= ts);
}

/// A line that ends inside a quote that never closes still yields the
/// quoted text as its last token.
pub proof fn lemma_unterminated_quote(ws: Seq<Seq<Fragment>>, q: char, t: Seq<char>)
    requires
        forall|i: int| 0 <= i < ws.len() ==> word_ok(#[trigger] ws[i]),
        is_quote(q),
        forall|i: int| 0 <= i < t.len() ==> t[i] != q && t[i] != '\\',
    ensures
        ({
            let prefix = if ws.len() == 0 { Seq::empty() } else { render_line(ws) + seq![' '] };
            tokens_of(prefix + seq![q] + t) == texts(ws).push(t)
        }),
{
    let st0 = initial_state();
    let prefix = if ws.len() == 0 { Seq::empty() } else { render_line(ws) + seq![' '] };
    assert(white_space(' '));
    assert(!white_space(q));
    if ws.len() > 0 {
        lemma_scan_line(ws);
        let m = scan_from(st0, render_line(ws));
        lemma_scan_one(m, ' ');
        lemma_scan_concat(st0, render_line(ws), seq![' ']);
        assert(texts(ws.drop_last()).push(word_text(ws.last())) =~= texts(ws));
    } else {
        assert(texts(ws) =~= Seq::<Seq<char>>::empty());
    }
    let p = scan_from(st0, prefix);
    assert(p.mode == Mode::Idle && p.buffer.len() == 0 && !p.escaping && p.tokens == texts(ws));
    lemma_scan_one(p, q);
    lemma_scan_concat(st0, prefix, seq![q]);
    let s1 = step(p, q);
    lemma_scan_quoted_body(s1, q, t);
    lemma_scan_concat(st0, prefix + seq![q], t);
    assert(p.buffer + t =~= t);
}

/// Every character of `s` is white space.
pub open spec fn blank(s: Seq<char>) -> bool {
    forall|i: int| 0 <= i < s.len() ==> white_space(#[trigger] s[i])
}

/// The words `ws` with `gaps[i]` written before `ws[i]`, and the last gap
/// after the last word.
pub open spec fn render_gapped(ws: Seq<Seq<Fragment>>, gaps: Seq<Seq<char>>) -> Seq<char>
    decreases ws.len(),
{
    if ws.len() == 0 || gaps.len() == 0 {
        if gaps.len() == 0 {
            Seq::empty()
        } else {
            gaps[0]
        }
    } else {
        render_gapped(ws.drop_last(), gaps.drop_last()) + render_word(ws.last()) + gaps.last()
    }
}

proof fn lemma_scan_blank(st: ScanState, g: Seq<char>)
    requires
        resting(st),
        blank(g),
    ensures
        ({
            let r = scan_from(st, g);
            &&& resting(r)
            &&& finish(r) == finish(st)
            &&& g.len() == 0 ==> r == st
            &&& g.len() > 0 ==> r.mode is Idle
        }),
    decreases g.len(),
{
    if g.len() > 0 {
        let front = g.drop_last();
        assert(blank(front)) by {
            assert forall|i: int| 0 <= i < front.len() implies white_space(#[trigger] front[i]) by {
                assert(white_space(g[i]));
            }
        }
        lemma_scan_blank(st, front);
        assert(white_space(g[g.len() - 1]));
    }
}

/// White space only separates: before the first token, between tokens
/// (where at least one white space character is needed) and after the last
/// one, any run of it gives the same tokens, and never an empty one.
pub proof fn lemma_gaps_only_separate(ws: Seq<Seq<Fragment>>, gaps: Seq<Seq<char>>)
    requires
        gaps.len() == ws.len() + 1,
        forall|i: int| 0 <= i < gaps.len() ==> blank(#[trigger] gaps[i]),
        forall|i: int| 0 < i < ws.len() ==> #[trigger] gaps[i].len() > 0,
        forall|i: int| 0 <= i < ws.len() ==> word_ok(#[trigger] ws[i]),
    ensures
        tokens_of(render_gapped(ws, gaps)) == texts(ws),
{
    lemma_scan_gapped(ws, gaps);
}

proof fn lemma_scan_gapped(ws: Seq<Seq<Fragment>>, gaps: Seq<Seq<char>>)
    requires
        gaps.len() == ws.len() + 1,
        forall|i: int| 0 <= i < gaps.len() ==> blank(#[trigger] gaps[i]),
        forall|i: int| 0 < i < ws.len() ==> #[trigger] gaps[i].len() > 0,
        forall|i: int| 0 <= i < ws.len() ==> word_ok(#[trigger] ws[i]),
    ensures
        ({
            let r = scan_from(initial_state(), render_gapped(ws, gaps));
            &&& resting(r)
            &&& finish(r) == texts(ws)
            &&& (ws.len() == 0 || gaps.last().len() > 0) ==> r.mode is Idle
        }),
    decreases ws.len(),
{
    let st0 = initial_state();
    assert(blank(gaps[gaps.len() - 1]));
    if ws.len() == 0 {
        lemma_scan_blank(st0, gaps[0]);
        assert(texts(ws) =~= Seq::<Seq<char>>::empty());
    } else {
        let front = ws.drop_last();
        let fgaps = gaps.drop_last();
        assert forall|i: int| 0 <= i < fgaps.len() implies blank(#[trigger] fgaps[i]) by {
            assert(blank(gaps[i]));
        }
        assert forall|i: int| 0 < i < front.len() implies #[trigger] fgaps[i].len() > 0 by {
            assert(gaps[i].len() > 0);
        }
        assert forall|i: int| 0 <= i < front.len() implies word_ok(#[trigger] front[i]) by {
            assert(word_ok(ws[i]));
        }
        lemma_scan_gapped(front, fgaps);
        if front.len() > 0 {
            assert(gaps[front.len() as int].len() > 0);
        }
        let m = scan_from(st0, render_gapped(front, fgaps));
        let last = ws.last();
        assert(word_ok(ws[ws.len() - 1]));
        lemma_scan_word(m, last);
        lemma_scan_concat(st0, render_gapped(front, fgaps), render_word(last));
        let m1 = scan_from(m, render_word(last));
        lemma_scan_blank(m1, gaps.last());
        lemma_scan_concat(st0, render_gapped(front, fgaps) + render_word(last), gaps.last());
        assert(m.buffer + word_text(last) =~= word_text(last));
        assert(texts(front).push(word_text(last)) =~= texts(ws));
    }
}

} // verus!
