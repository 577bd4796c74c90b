//! The pane's logic: what an update does to it, what a key does to it, and how
//! the briefing is laid out in lines.
use vstd::prelude::*;
use crate::text::{
    chars_of, has_prefix, has_suffix, owned, pieces, push_char, push_str, removed, remove_all, split_on, string_of, strip_prefix,
    strip_suffix, trim, trim_end, trimmed, trimmed_end, views, word_runs, words, words_of, no_trailing_space,
    all_space, lemma_trimmed_end_drops_space, lemma_trimmed_end_has_no_trailing_space, trimmed_start, white_space,
};
use crate::llm::{NEW_MARK, UPDATED_MARK};

verus! {

// ---------------------------------------------------------------- display width

/// The display width that `unicode-width` gives a string.
pub uninterp spec fn str_width(s: Seq<char>) -> usize;

/// The display width that `unicode-width` gives the one-character string `c`.
pub open spec fn char_width(c: char) -> usize {
    str_width(seq![c])
}

/// `UnicodeWidthStr::width` from `unicode-width`: the columns a terminal
/// gives `s`. Its value is named, not stated.
#[verifier::external_body]
fn display_width(s: &str) -> (w: usize)
    ensures
        w == str_width(s@),
{
    unicode_width::UnicodeWidthStr::width(s)
}

/// The display width of the string made of `c` alone.
fn char_display_width(c: char) -> (w: usize)
    ensures
        w == char_width(c),
{
    let mut one = String::new();
    push_char(&mut one, c);
    assert(one@ == seq![c]);
    display_width(one.as_str())
}

// ---------------------------------------------------------------- wrapping

/// Where a greedy wrap stands: the lines already closed with the width that
/// each was counted at, and the open line with its count.
pub struct WrapState {
    pub done: Seq<Seq<char>>,
    pub widths: Seq<int>,
    pub cur: Seq<char>,
    pub cw: int,
}

pub open spec fn wrap_start() -> WrapState {
    WrapState { done: Seq::empty(), widths: Seq::empty(), cur: Seq::empty(), cw: 0 }
}

/// Closes the open line.
pub open spec fn break_line(st: WrapState) -> WrapState {
    WrapState { done: st.done.push(st.cur), widths: st.widths.push(st.cw), cur: Seq::empty(), cw: 0 }
}

/// One character of a word too wide for the pane.
pub open spec fn cut_char(st: WrapState, c: char, width: int) -> WrapState {
    let w = char_width(c) as int;
    let st1 = if st.cw + w > width { break_line(st) } else { st };
    WrapState { cur: st1.cur.push(c), cw: st1.cw + w, ..st1 }
}

pub open spec fn cut_word(st: WrapState, cs: Seq<char>, width: int) -> WrapState
    decreases cs.len(),
{
    if cs.len() == 0 {
        st
    } else {
        cut_char(cut_word(st, cs.drop_last(), width), cs.last(), width)
    }
}

/// One word: on the open line if it fits after a space, else on a new line;
/// cut character by character if it is wider than the pane.
pub open spec fn place_word(st: WrapState, word: Seq<char>, width: int) -> WrapState {
    let w = str_width(word) as int;
    let st1 = if st.cw > 0 && st.cw + 1 + w > width { break_line(st) } else { st };
    if w > width {
        cut_word(st1, word, width)
    } else if st1.cw > 0 {
        WrapState { cur: st1.cur.push(' ') + word, cw: st1.cw + 1 + w, ..st1 }
    } else {
        WrapState { cur: st1.cur + word, cw: st1.cw + w, ..st1 }
    }
}

pub open spec fn place_words(ws: Seq<Seq<char>>, width: int) -> WrapState
    decreases ws.len(),
{
    if ws.len() == 0 {
        wrap_start()
    } else {
        place_word(place_words(ws.drop_last(), width), ws.last(), width)
    }
}

/// The greedy wrap of `s` at `width` columns: always at least one line.
pub open spec fn wrapped(s: Seq<char>, width: int) -> Seq<Seq<char>> {
    let st = place_words(words(s), width);
    if st.cur.len() > 0 || st.done.len() == 0 {
        st.done.push(st.cur)
    } else {
        st.done
    }
}

pub open spec fn string_views(v: Seq<String>) -> Seq<Seq<char>> {
    v.map_values(|x: String| x@)
}

/// Greedy word wrap on display width. A word wider than the pane is cut.
pub fn wrap(s: &str, width: usize) -> (lines: Vec<String>)
    ensures
        string_views(lines@) == wrapped(s@, width as int),
{
    let ws = words_of(s);
    let ghost wv = views(ws@);
    let mut lines: Vec<String> = Vec::new();
    let mut current = String::new();
    let mut current_width: usize = 0;
    let ghost mut widths: Seq<int> = Seq::empty();
    let mut i: usize = 0;
    while i < ws.len()
        invariant
            i <= ws.len(),
            wv == views(ws@),
            wv == words(s@),
            ({
                let st = place_words(wv.take(i as int), width as int);
                &&& string_views(lines@) == st.done
                &&& widths == st.widths
                &&& current@ == st.cur
                &&& current_width as int == st.cw
            }),
        decreases ws.len() - i,
    {
        let ghost st0 = place_words(wv.take(i as int), width as int);
        assert(wv.take(i + 1).drop_last() == wv.take(i as int));
        assert(wv.take(i + 1).last() == ws@[i as int]@);
        let word = &ws[i];
        let word_str = string_of(word.as_slice());
        let w = display_width(word_str.as_str());
        if current_width > 0 && (w > width || current_width >= width - w) {
            let done_line = current;
            current = String::new();
            lines.push(done_line);
            proof {
                widths = widths.push(current_width as int);
            }
            current_width = 0;
        }
        let ghost st1 = if st0.cw > 0 && st0.cw + 1 + w > width { break_line(st0) } else { st0 };
        assert(string_views(lines@) == st1.done);
        if w > width {
            let mut k: usize = 0;
            while k < word.len()
                invariant
                    k <= word.len(),
                    ({
                        let st = cut_word(st1, word@.take(k as int), width as int);
                        &&& string_views(lines@) == st.done
                        &&& widths == st.widths
                        &&& current@ == st.cur
                        &&& current_width as int == st.cw
                    }),
                decreases word.len() - k,
            {
                let ghost sk = cut_word(st1, word@.take(k as int), width as int);
                assert(word@.take(k + 1).drop_last() == word@.take(k as int));
                let ch = word[k];
                let cw = char_display_width(ch);
                if cw > width || current_width > width - cw {
                    let done_line = current;
                    current = String::new();
                    lines.push(done_line);
                    proof {
                        widths = widths.push(current_width as int);
                    }
                    current_width = 0;
                }
                assert(string_views(lines@) == (if sk.cw + cw > width { break_line(sk) } else { sk }).done);
                push_char(&mut current, ch);
                current_width = current_width + cw;
                k = k + 1;
            }
            assert(word@.take(word.len() as int) == word@);
        } else {
            if current_width > 0 {
                push_char(&mut current, ' ');
                current_width = current_width + 1;
            }
            push_str(&mut current, word_str.as_str());
            current_width = current_width + w;
        }
        i = i + 1;
    }
    assert(wv.take(ws.len() as int) == wv);
    if !current.as_str().is_empty() || lines.len() == 0 {
        let ghost before = lines@;
        lines.push(current);
        assert(string_views(lines@) == string_views(before).push(current@));
    }
    lines
}


// ---------------------------------------------------------------- laws of the wrap

/// The widths the wrap counted for the lines of `wrapped(s, width)`, line by line.
pub open spec fn wrapped_widths(s: Seq<char>, width: int) -> Seq<int> {
    let st = place_words(words(s), width);
    if st.cur.len() > 0 || st.done.len() == 0 {
        st.widths.push(st.cw)
    } else {
        st.widths
    }
}

/// `s` without its spaces.
pub open spec fn unspaced(s: Seq<char>) -> Seq<char>
    decreases s.len(),
{
    if s.len() == 0 {
        s
    } else if s.last() == ' ' {
        unspaced(s.drop_last())
    } else {
        unspaced(s.drop_last()).push(s.last())
    }
}

pub proof fn lemma_unspaced_concat(a: Seq<char>, b: Seq<char>)
    ensures
        unspaced(a + b) == unspaced(a) + unspaced(b),
    decreases b.len(),
{
    if b.len() == 0 {
        assert(a + b == a);
    } else {
        assert((a + b).drop_last() == a + b.drop_last());
        lemma_unspaced_concat(a, b.drop_last());
    }
}

/// The text a wrap state holds, closed lines and open line in order.
pub open spec fn held(st: WrapState) -> Seq<char> {
    st.done.flatten_alt() + st.cur
}

proof fn lemma_break_keeps(st: WrapState)
    ensures
        held(break_line(st)) == held(st),
{
    assert(st.done.push(st.cur).drop_last() == st.done);
    assert(held(break_line(st)) == st.done.flatten_alt() + st.cur + Seq::<char>::empty());
}

proof fn lemma_cut_keeps(st: WrapState, cs: Seq<char>, width: int)
    ensures
        unspaced(held(cut_word(st, cs, width))) == unspaced(held(st) + cs),
    decreases cs.len(),
{
    if cs.len() == 0 {
        assert(held(st) + cs == held(st));
    } else {
        let prev = cut_word(st, cs.drop_last(), width);
        lemma_cut_keeps(st, cs.drop_last(), width);
        let st1 = if prev.cw + char_width(cs.last()) as int > width { break_line(prev) } else { prev };
        lemma_break_keeps(prev);
        assert(held(cut_word(st, cs, width)) == held(st1).push(cs.last()));
        assert(held(st) + cs == (held(st) + cs.drop_last()).push(cs.last()));
        lemma_unspaced_concat(held(st1), seq![cs.last()]);
        lemma_unspaced_concat(held(st) + cs.drop_last(), seq![cs.last()]);
        assert(held(st1).push(cs.last()) == held(st1) + seq![cs.last()]);
        assert((held(st) + cs.drop_last()).push(cs.last()) == held(st) + cs.drop_last() + seq![cs.last()]);
    }
}

proof fn lemma_place_keeps(st: WrapState, word: Seq<char>, width: int)
    ensures
        unspaced(held(place_word(st, word, width))) == unspaced(held(st)) + unspaced(word),
{
    let w = str_width(word) as int;
    let st1 = if st.cw > 0 && st.cw + 1 + w > width { break_line(st) } else { st };
    lemma_break_keeps(st);
    lemma_unspaced_concat(held(st), word);
    if w > width {
        lemma_cut_keeps(st1, word, width);
    } else if st1.cw > 0 {
        let st2 = place_word(st, word, width);
        assert(held(st2) == held(st1).push(' ') + word);
        lemma_unspaced_concat(held(st1).push(' '), word);
        assert(unspaced(held(st1).push(' ')) == unspaced(held(st1))) by {
            assert(held(st1).push(' ').drop_last() == held(st1));
        }
    } else {
        assert(held(place_word(st, word, width)) == held(st1) + word);
    }
}

proof fn lemma_place_words_keeps(ws: Seq<Seq<char>>, width: int)
    ensures
        unspaced(held(place_words(ws, width))) == unspaced(ws.flatten_alt()),
    decreases ws.len(),
{
    if ws.len() == 0 {
        assert(held(wrap_start()) == Seq::<char>::empty());
    } else {
        lemma_place_words_keeps(ws.drop_last(), width);
        lemma_place_keeps(place_words(ws.drop_last(), width), ws.last(), width);
        lemma_unspaced_concat(ws.drop_last().flatten_alt(), ws.last());
    }
}

/// Wrapping loses, adds and reorders nothing but spaces: read without its
/// spaces, the wrapped text is the words of `s` end to end.
pub proof fn law_wrap_keeps_the_words(s: Seq<char>, width: int)
    ensures
        unspaced(wrapped(s, width).flatten_alt()) == unspaced(words(s).flatten_alt()),
{
    let st = place_words(words(s), width);
    lemma_place_words_keeps(words(s), width);
    if st.cur.len() > 0 || st.done.len() == 0 {
        assert(st.done.push(st.cur).drop_last() == st.done);
    } else {
        assert(held(st) == st.done.flatten_alt());
    }
}

/// Every character of a word of `s` is a character of `s`.
pub proof fn lemma_word_chars(s: Seq<char>)
    ensures
        forall|i: int, k: int|
            0 <= i < word_runs(s).0.len() && 0 <= k < word_runs(s).0[i].len()
                ==> s.contains(#[trigger] word_runs(s).0[i][k]),
        forall|k: int| 0 <= k < word_runs(s).1.len() ==> s.contains(#[trigger] word_runs(s).1[k]),
    decreases s.len(),
{
    if s.len() > 0 {
        let p = s.drop_last();
        lemma_word_chars(p);
        let (done0, cur0) = word_runs(p);
        let c = s.last();
        assert forall|x: char| p.contains(x) implies s.contains(x) by {
            let j = choose|j: int| 0 <= j < p.len() && p[j] == x;
            assert(s[j] == x);
        }
        assert(s[s.len() - 1] == c);
        assert(s.contains(c));
        let (done, cur) = word_runs(s);
        assert forall|i: int, k: int| 0 <= i < done.len() && 0 <= k < done[i].len() implies s.contains(#[trigger] done[i][k]) by {
            if i < done0.len() {
                assert(done[i] == done0[i]);
                assert(p.contains(done0[i][k]));
            } else {
                assert(done[i] == cur0);
                assert(p.contains(cur0[k]));
            }
        }
        assert forall|k: int| 0 <= k < cur.len() implies s.contains(#[trigger] cur[k]) by {
            if k < cur0.len() {
                assert(cur[k] == cur0[k]);
                assert(p.contains(cur0[k]));
            } else {
                assert(cur[k] == c);
            }
        }
    }
}

proof fn lemma_words_chars(s: Seq<char>)
    ensures
        forall|i: int, k: int|
            0 <= i < words(s).len() && 0 <= k < words(s)[i].len() ==> s.contains(#[trigger] words(s)[i][k]),
{
    lemma_word_chars(s);
    let (done, cur) = word_runs(s);
    if cur.len() > 0 {
        assert forall|i: int, k: int|
            0 <= i < words(s).len() && 0 <= k < words(s)[i].len() implies s.contains(#[trigger] words(s)[i][k]) by {
            if i == done.len() {
                assert(words(s)[i] == cur);
            } else {
                assert(words(s)[i] == done[i]);
            }
        }
    }
}

/// A wrap state whose lines all fit `width`.
pub open spec fn fits(st: WrapState, width: int) -> bool {
    &&& st.widths.len() == st.done.len()
    &&& 0 <= st.cw <= width
    &&& forall|i: int| 0 <= i < st.widths.len() ==> 0 <= #[trigger] st.widths[i] <= width
}

proof fn lemma_cut_fits(st: WrapState, cs: Seq<char>, width: int)
    requires
        fits(st, width),
        forall|k: int| 0 <= k < cs.len() ==> char_width(#[trigger] cs[k]) as int <= width,
    ensures
        fits(cut_word(st, cs, width), width),
    decreases cs.len(),
{
    if cs.len() > 0 {
        lemma_cut_fits(st, cs.drop_last(), width);
        assert(char_width(cs[cs.len() - 1]) as int <= width);
    }
}

proof fn lemma_place_words_fit(ws: Seq<Seq<char>>, width: int)
    requires
        width >= 0,
        forall|i: int, k: int| 0 <= i < ws.len() && 0 <= k < ws[i].len() ==> char_width(#[trigger] ws[i][k]) as int <= width,
    ensures
        fits(place_words(ws, width), width),
    decreases ws.len(),
{
    if ws.len() > 0 {
        let prev = ws.drop_last();
        assert forall|i: int, k: int| 0 <= i < prev.len() && 0 <= k < prev[i].len() implies char_width(#[trigger] prev[i][k]) as int <= width by {
            assert(prev[i] == ws[i]);
        }
        lemma_place_words_fit(prev, width);
        let st = place_words(prev, width);
        let word = ws.last();
        let w = str_width(word) as int;
        let st1 = if st.cw > 0 && st.cw + 1 + w > width { break_line(st) } else { st };
        assert(fits(st1, width));
        if w > width {
            assert forall|k: int| 0 <= k < word.len() implies char_width(#[trigger] word[k]) as int <= width by {
                assert(word == ws[ws.len() - 1]);
            }
            lemma_cut_fits(st1, word, width);
        }
    }
}

/// No line is wider than the pane, counted as the wrap counts it, as long as
/// no single character of `s` is.
pub proof fn law_wrap_fits_the_pane(s: Seq<char>, width: int)
    requires
        width >= 0,
        forall|k: int| 0 <= k < s.len() ==> char_width(#[trigger] s[k]) as int <= width,
    ensures
        wrapped_widths(s, width).len() == wrapped(s, width).len(),
        forall|i: int| 0 <= i < wrapped_widths(s, width).len() ==> #[trigger] wrapped_widths(s, width)[i] <= width,
{
    let ws = words(s);
    lemma_words_chars(s);
    assert forall|i: int, k: int| 0 <= i < ws.len() && 0 <= k < ws[i].len() implies char_width(#[trigger] ws[i][k]) as int <= width by {
        let j = choose|j: int| 0 <= j < s.len() && s[j] == ws[i][k];
        assert(char_width(s[j]) as int <= width);
    }
    lemma_place_words_fit(ws, width);
}

/// Words set one after another, a single space between each two.
pub open spec fn spaced(g: Seq<Seq<char>>) -> Seq<char>
    decreases g.len(),
{
    if g.len() == 0 {
        Seq::empty()
    } else if g.len() == 1 {
        g[0]
    } else {
        spaced(g.drop_last()) + seq![' '] + g.last()
    }
}

/// The columns words take set one after another: their display widths and a
/// column for each space between them.
pub open spec fn run_width(g: Seq<Seq<char>>) -> int
    decreases g.len(),
{
    if g.len() == 0 {
        0
    } else if g.len() == 1 {
        str_width(g[0]) as int
    } else {
        run_width(g.drop_last()) + 1 + str_width(g.last()) as int
    }
}

/// `lines` set `ws` in the groups `gs`: the words in order, each line one
/// group spaced out, each fitting `width`, and each line but the last closed
/// only because the first word of the next would not have fitted on it.
pub open spec fn packs(gs: Seq<Seq<Seq<char>>>, lines: Seq<Seq<char>>, ws: Seq<Seq<char>>, width: int) -> bool {
    &&& gs.flatten_alt() == ws
    &&& lines == gs.map_values(|g: Seq<Seq<char>>| spaced(g))
    &&& forall|i: int| 0 <= i < gs.len() ==> (#[trigger] gs[i]).len() > 0 && run_width(gs[i]) <= width
    &&& forall|i: int| 0 <= i < gs.len() - 1 ==> run_width(#[trigger] gs[i]) + 1 + str_width(gs[i + 1][0]) as int > width
}

/// The groups a greedy fill makes of `ws`: those closed, and the open one.
pub open spec fn groups(ws: Seq<Seq<char>>, width: int) -> (Seq<Seq<Seq<char>>>, Seq<Seq<char>>)
    decreases ws.len(),
{
    if ws.len() == 0 {
        (Seq::empty(), Seq::empty())
    } else {
        let (gs, g) = groups(ws.drop_last(), width);
        let w = ws.last();
        if g.len() > 0 && run_width(g) + 1 + str_width(w) as int > width {
            (gs.push(g), seq![w])
        } else {
            (gs, g.push(w))
        }
    }
}

proof fn lemma_words_nonempty(s: Seq<char>)
    ensures
        forall|i: int| 0 <= i < words(s).len() ==> (#[trigger] words(s)[i]).len() > 0,
{
    lemma_word_runs_nonempty(s);
}

proof fn lemma_word_runs_nonempty(s: Seq<char>)
    ensures
        forall|i: int| 0 <= i < word_runs(s).0.len() ==> (#[trigger] word_runs(s).0[i]).len() > 0,
    decreases s.len(),
{
    if s.len() > 0 {
        lemma_word_runs_nonempty(s.drop_last());
        let (done, cur) = word_runs(s.drop_last());
        if white_space(s.last()) && cur.len() > 0 {
            assert forall|i: int| 0 <= i < done.push(cur).len() implies (#[trigger] done.push(cur)[i]).len() > 0 by {
                if i < done.len() {
                    assert(done.push(cur)[i] == done[i]);
                }
            }
        }
    }
}

proof fn lemma_groups(ws: Seq<Seq<char>>, width: int)
    requires
        forall|i: int| 0 <= i < ws.len() ==> (#[trigger] ws[i]).len() > 0 && 1 <= str_width(ws[i]) <= width,
    ensures
        ({
            let st = place_words(ws, width);
            let (gs, g) = groups(ws, width);
            &&& st.done == gs.map_values(|x: Seq<Seq<char>>| spaced(x))
            &&& st.cur == spaced(g)
            &&& st.cw == run_width(g)
            &&& (ws.len() > 0 <==> g.len() > 0)
            &&& (g.len() > 0 ==> run_width(g) >= 1 && spaced(g).len() > 0)
            &&& gs.flatten_alt() + g == ws
            &&& forall|i: int| 0 <= i < gs.len() ==> (#[trigger] gs[i]).len() > 0 && run_width(gs[i]) <= width
            &&& g.len() > 0 ==> run_width(g) <= width
            &&& forall|i: int| 0 <= i < gs.len() - 1 ==> run_width(#[trigger] gs[i]) + 1 + str_width(gs[i + 1][0]) as int > width
            &&& gs.len() > 0 ==> run_width(gs.last()) + 1 + str_width(g[0]) as int > width
        }),
    decreases ws.len(),
{
    if ws.len() == 0 {
        let e = Seq::<Seq<Seq<char>>>::empty();
        assert(e.map_values(|x: Seq<Seq<char>>| spaced(x)) =~= Seq::<Seq<char>>::empty());
        assert(e.flatten_alt() + Seq::<Seq<char>>::empty() =~= ws);
    } else {
        let p = ws.drop_last();
        assert forall|i: int| 0 <= i < p.len() implies (#[trigger] p[i]).len() > 0 && 1 <= str_width(p[i]) <= width by {
            assert(p[i] == ws[i]);
        }
        lemma_groups(p, width);
        let st = place_words(p, width);
        let (gs, g) = groups(p, width);
        let w = ws.last();
        assert(w == ws[ws.len() - 1]);
        let (ngs, ng) = groups(ws, width);
        if g.len() > 0 && run_width(g) + 1 + str_width(w) as int > width {
            assert(ngs == gs.push(g));
            assert(ng == seq![w]);
            assert(ngs.map_values(|x: Seq<Seq<char>>| spaced(x)) =~= gs.map_values(|x: Seq<Seq<char>>| spaced(x)).push(spaced(g)));
            assert(spaced(ng) == w);
            assert(run_width(ng) == str_width(w) as int);
            assert(ngs.drop_last() == gs);
            assert(ngs.flatten_alt() == gs.flatten_alt() + g);
            assert(ngs.flatten_alt() + ng == ws) by {
                assert(gs.flatten_alt() + g + seq![w] == (gs.flatten_alt() + g).push(w));
            }
            assert forall|i: int| 0 <= i < ngs.len() - 1 implies run_width(#[trigger] ngs[i]) + 1 + str_width(ngs[i + 1][0]) as int > width by {
                if i < gs.len() - 1 {
                    assert(ngs[i] == gs[i] && ngs[i + 1] == gs[i + 1]);
                } else {
                    assert(ngs[i] == gs.last() && ngs[i + 1] == g);
                }
            }
            assert forall|i: int| 0 <= i < ngs.len() implies (#[trigger] ngs[i]).len() > 0 && run_width(ngs[i]) <= width by {
                if i < gs.len() {
                    assert(ngs[i] == gs[i]);
                }
            }
        } else {
            assert(ngs == gs);
            assert(ng == g.push(w));
            assert(ng.drop_last() == g);
            if g.len() > 0 {
                assert(spaced(ng) == spaced(g) + seq![' '] + w);
                assert(st.cur.push(' ') + w == spaced(g) + seq![' '] + w);
                assert(ng[0] == g[0]);
                assert(run_width(ng) == run_width(g) + 1 + str_width(w) as int);
            } else {
                assert(ng == seq![w]);
                assert(run_width(ng) == str_width(w) as int);
                assert(st.cur + w == w);
            }
            assert(gs.flatten_alt() + ng == ws) by {
                assert(gs.flatten_alt() + g.push(w) == (gs.flatten_alt() + g).push(w));
            }
        }
    }
}

/// Where every word fits the pane, the wrap is a greedy fill: the lines hold
/// the words in order, a single space between two words on a line; no line
/// is wider than the pane, counted as the words' display widths and a column
/// per space; and a line ends only where the next word would not fit on it.
/// A text without words gives one empty line.
pub proof fn law_wrap_packs_whole_words_greedily(s: Seq<char>, width: int)
    requires
        forall|i: int| 0 <= i < words(s).len() ==> 1 <= #[trigger] str_width(words(s)[i]) <= width,
    ensures
        words(s).len() == 0 ==> wrapped(s, width) == seq![Seq::<char>::empty()],
        words(s).len() > 0 ==> exists|gs: Seq<Seq<Seq<char>>>| packs(gs, wrapped(s, width), words(s), width),
{
    let ws = words(s);
    lemma_words_nonempty(s);
    lemma_groups(ws, width);
    let st = place_words(ws, width);
    let (gs, g) = groups(ws, width);
    if ws.len() > 0 {
        let all = gs.push(g);
        assert(all.drop_last() == gs);
        assert(all.flatten_alt() == ws);
        assert(wrapped(s, width) == all.map_values(|x: Seq<Seq<char>>| spaced(x)));
        assert forall|i: int| 0 <= i < all.len() implies (#[trigger] all[i]).len() > 0 && run_width(all[i]) <= width by {
            if i < gs.len() {
                assert(all[i] == gs[i]);
            }
        }
        assert forall|i: int| 0 <= i < all.len() - 1 implies run_width(#[trigger] all[i]) + 1 + str_width(all[i + 1][0]) as int > width by {
            if i < gs.len() - 1 {
                assert(all[i] == gs[i] && all[i + 1] == gs[i + 1]);
            } else {
                assert(all[i] == gs.last() && all[i + 1] == g);
            }
        }
        assert(packs(all, wrapped(s, width), ws, width));
    } else {
        assert(st == wrap_start());
    }
}

/// A wrap always gives at least one line, an empty one for a blank text.
pub proof fn law_wrap_has_a_line(s: Seq<char>, width: int)
    ensures
        wrapped(s, width).len() >= 1,
{
}


// ---------------------------------------------------------------- the pane's state

/// What the fetch-and-summarize task reports to the screen.
#[derive(Debug)]
pub enum Update {
    Status(String),
    Token(String),
    Done(Option<String>),
}

/// The pane: the status line, the briefing so far, and where it is scrolled.
pub struct App {
    pub status: String,
    pub text: String,
    pub scroll: u16,
    /// Stay pinned to the bottom while tokens arrive, until the reader scrolls up.
    pub follow: bool,
    pub done: bool,
}

impl App {
    pub fn new() -> (a: App)
        ensures
            a.status@ == "starting"@,
            a.text@.len() == 0,
            a.scroll == 0,
            a.follow,
            !a.done,
    {
        App { status: owned("starting"), text: String::new(), scroll: 0, follow: true, done: false }
    }
}

/// Takes one update: a status replaces the status line, a token extends the
/// briefing, and the end says how the run ended.
pub fn apply(app: &mut App, update: Update)
    ensures
        final(app).scroll == old(app).scroll,
        final(app).follow == old(app).follow,
        match update {
            Update::Status(s) => {
                &&& final(app).status@ == s@
                &&& final(app).text@ == old(app).text@
                &&& final(app).done == old(app).done
            },
            Update::Token(t) => {
                &&& final(app).status@ == old(app).status@
                &&& final(app).text@ == old(app).text@ + t@
                &&& final(app).done == old(app).done
            },
            Update::Done(err) => {
                &&& final(app).text@ == old(app).text@
                &&& final(app).done
                &&& final(app).status@ == match err {
                    Some(e) => "failed: "@ + e@,
                    None => "done"@,
                }
            },
        },
{
    match update {
        Update::Status(s) => {
            app.status = s;
        },
        Update::Token(t) => {
            push_str(&mut app.text, t.as_str());
        },
        Update::Done(err) => {
            app.done = true;
            app.status = match err {
                Some(e) => {
                    let mut m = owned("failed: ");
                    push_str(&mut m, e.as_str());
                    m
                },
                None => owned("done"),
            };
        },
    }
}

/// A key as the pane reads it.
#[derive(Debug, Clone, Copy, PartialEq, Eq, Structural)]
pub enum Key {
    Char(char),
    Up,
    Down,
    PageUp,
    PageDown,
    Home,
    End,
    Esc,
    Other,
}

/// A key press, with whether Control was held.
#[derive(Debug, Clone, Copy, PartialEq, Eq, Structural)]
pub struct KeyPress {
    pub code: Key,
    pub ctrl: bool,
}

/// `q`, Esc and Control-C close the pane.
pub fn quits(k: KeyPress) -> (r: bool)
    ensures
        r == (k.code == Key::Char('q') || k.code == Key::Esc || (k.code == Key::Char('c') && k.ctrl)),
{
    match k.code {
        Key::Char('q') | Key::Esc => true,
        Key::Char('c') => k.ctrl,
        _ => false,
    }
}

/// Moves the view: `j`/Down and space/PageDown go down, `k`/Up and PageUp go
/// up and let go of the bottom, `g`/Home go to the top, `G`/End follow the
/// stream again.
pub fn scroll(app: &mut App, k: KeyPress)
    ensures
        final(app).status@ == old(app).status@,
        final(app).text@ == old(app).text@,
        final(app).done == old(app).done,
        ({
            let s = old(app).scroll as int;
            let c = k.code;
            if c == Key::Char('j') || c == Key::Down {
                final(app).scroll == (if s + 1 > u16::MAX { u16::MAX as int } else { s + 1 }) && final(app).follow == old(app).follow
            } else if c == Key::Char('k') || c == Key::Up {
                final(app).scroll == (if s >= 1 { s - 1 } else { 0 }) && !final(app).follow
            } else if c == Key::Char(' ') || c == Key::PageDown {
                final(app).scroll == (if s + 10 > u16::MAX { u16::MAX as int } else { s + 10 }) && final(app).follow == old(app).follow
            } else if c == Key::PageUp {
                final(app).scroll == (if s >= 10 { s - 10 } else { 0 }) && !final(app).follow
            } else if c == Key::Char('g') || c == Key::Home {
                final(app).scroll == 0 && !final(app).follow
            } else if c == Key::Char('G') || c == Key::End {
                final(app).scroll == s && final(app).follow
            } else {
                final(app).scroll == s && final(app).follow == old(app).follow
            }
        }),
{
    match k.code {
        Key::Char('j') | Key::Down => {
            app.scroll = app.scroll.saturating_add(1);
        },
        Key::Char('k') | Key::Up => {
            app.scroll = app.scroll.saturating_sub(1);
            app.follow = false;
        },
        Key::Char(' ') | Key::PageDown => {
            app.scroll = app.scroll.saturating_add(10);
        },
        Key::PageUp => {
            app.scroll = app.scroll.saturating_sub(10);
            app.follow = false;
        },
        Key::Char('g') | Key::Home => {
            app.scroll = 0;
            app.follow = false;
        },
        Key::Char('G') | Key::End => {
            app.follow = true;
        },
        _ => {},
    }
}

/// The furthest the view can scroll: the laid-out lines past one screen.
/// The line count is taken as a `u16`, as the pane holds it.
pub open spec fn max_scroll(n_lines: usize, height: u16) -> int {
    let n = (n_lines as int) % 65536;
    if n > height { n - height } else { 0 }
}

/// Clamps the view to the text before a draw: at the bottom while following,
/// else no further than the bottom. Returns how far the view can scroll.
pub fn settle_scroll(app: &mut App, n_lines: usize, height: u16) -> (m: u16)
    ensures
        m as int == max_scroll(n_lines, height),
        final(app).scroll as int == if old(app).follow { m as int } else if old(app).scroll <= m { old(app).scroll as int } else { m as int },
        final(app).follow == old(app).follow,
        final(app).status@ == old(app).status@,
        final(app).text@ == old(app).text@,
        final(app).done == old(app).done,
{
    let n: u16 = (n_lines % 65536) as u16;
    let m = n.saturating_sub(height);
    app.scroll = if app.follow {
        m
    } else if app.scroll <= m {
        app.scroll
    } else {
        m
    };
    m
}


// ---------------------------------------------------------------- laying out the briefing

/// What a heading says about how much of its story you have already read.
#[derive(Clone, Copy, PartialEq, Eq, Debug, Structural)]
pub enum Mark {
    /// Already in the briefing you read, unchanged since.
    Carried,
    /// Not in the briefing you read.
    New,
    /// In the briefing you read, but the story has moved.
    Updated,
}

/// How a laid-out line is drawn. Three states of a heading, told apart by
/// weight and colour rather than a badge glyph, and plain text.
#[derive(Clone, Copy, PartialEq, Eq, Debug, Structural)]
pub enum LineStyle {
    Plain,
    /// A story you have never seen.
    Fresh,
    /// A story that moved since you read it.
    Moved,
    /// A story carried over unchanged.
    Carried,
}

/// One line of the pane.
pub struct StyledLine {
    pub text: String,
    pub style: LineStyle,
}

pub struct StyledLineView {
    pub text: Seq<char>,
    pub style: LineStyle,
}

pub open spec fn styled_views(v: Seq<StyledLine>) -> Seq<StyledLineView> {
    v.map_values(|l: StyledLine| StyledLineView { text: l.text@, style: l.style })
}

/// A heading without its mark, and the mark. The model writes the mark in
/// English whatever the briefing's language, so this is a plain suffix match.
pub open spec fn marked(heading: Seq<char>) -> (Seq<char>, Mark) {
    let h = trimmed_end(heading);
    let new = trimmed(NEW_MARK@);
    let updated = trimmed(UPDATED_MARK@);
    if has_suffix(h, new) {
        (trimmed_end(h.take(h.len() - new.len())), Mark::New)
    } else if has_suffix(h, updated) {
        (trimmed_end(h.take(h.len() - updated.len())), Mark::Updated)
    } else {
        (h, Mark::Carried)
    }
}

/// Splits the mark off a heading.
pub fn split_mark(heading: &str) -> (r: (String, Mark))
    ensures
        (r.0@, r.1) == marked(heading@),
{
    let heading = trim_end(heading);
    let new = trim(NEW_MARK);
    if let Some(title) = strip_suffix(heading.as_str(), new.as_str()) {
        return (trim_end(title.as_str()), Mark::New);
    }
    let updated = trim(UPDATED_MARK);
    if let Some(title) = strip_suffix(heading.as_str(), updated.as_str()) {
        return (trim_end(title.as_str()), Mark::Updated);
    }
    (heading, Mark::Carried)
}

proof fn lemma_mark_words()
    ensures
        trimmed(NEW_MARK@) == "[new]"@,
        trimmed(UPDATED_MARK@) == "[updated]"@,
{
    reveal_strlit(" [new]");
    reveal_strlit(" [updated]");
    reveal_strlit("[new]");
    reveal_strlit("[updated]");
    let n = NEW_MARK@;
    assert(trimmed_end(n) == n);
    assert(n.drop_first() =~= "[new]"@);
    assert(trimmed_start("[new]"@) == "[new]"@);
    assert(trimmed_start(n) == trimmed_start(n.drop_first()));
    let u = UPDATED_MARK@;
    assert(trimmed_end(u) == u);
    assert(u.drop_first() =~= "[updated]"@);
    assert(trimmed_start("[updated]"@) == "[updated]"@);
    assert(trimmed_start(u) == trimmed_start(u.drop_first()));
}

/// A title followed by `NEW_MARK` or `UPDATED_MARK`, and by any white space,
/// is split back into the title and its mark; an unmarked title is carried
/// over as it is.
pub proof fn law_a_mark_is_split_off(t: Seq<char>, ws: Seq<char>)
    requires
        no_trailing_space(t),
        all_space(ws),
        !has_suffix(t, "[new]"@),
        !has_suffix(t, "[updated]"@),
    ensures
        marked(t) == (t, Mark::Carried),
        marked(t + NEW_MARK@ + ws) == (t, Mark::New),
        marked(t + UPDATED_MARK@ + ws) == (t, Mark::Updated),
{
    lemma_mark_words();
    reveal_strlit(" [new]");
    reveal_strlit(" [updated]");
    reveal_strlit("[new]");
    reveal_strlit("[updated]");
    assert(trimmed_end(t) == t);
    let hn = t + NEW_MARK@;
    lemma_trimmed_end_drops_space(hn, ws);
    assert(hn.last() == ']');
    assert(trimmed_end(hn) == hn);
    assert(hn.skip(hn.len() - 5) =~= "[new]"@);
    assert(hn.take(hn.len() - 5) =~= t.push(' '));
    assert(t.push(' ').drop_last() == t);
    assert(trimmed_end(t.push(' ')) == trimmed_end(t));
    let hu = t + UPDATED_MARK@;
    lemma_trimmed_end_drops_space(hu, ws);
    assert(hu.last() == ']');
    assert(trimmed_end(hu) == hu);
    assert(hu.skip(hu.len() - 5)[2] == 'e');
    assert("[new]"@[2] == 'e');
    assert(hu.skip(hu.len() - 5)[3] == 'd');
    assert("[new]"@[3] == 'w');
    assert(!has_suffix(hu, "[new]"@));
    assert(hu.skip(hu.len() - 9) =~= "[updated]"@);
    assert(hu.take(hu.len() - 9) =~= t.push(' '));
}

/// What is left of a heading once its mark is split off ends in no white space.
pub proof fn law_a_split_title_has_no_trailing_space(h: Seq<char>)
    ensures
        no_trailing_space(marked(h).0),
{
    lemma_mark_words();
    reveal_strlit("[new]");
    reveal_strlit("[updated]");
    let t = trimmed_end(h);
    lemma_trimmed_end_has_no_trailing_space(h);
    if has_suffix(t, "[new]"@) {
        lemma_trimmed_end_has_no_trailing_space(t.take(t.len() - 5));
    } else if has_suffix(t, "[updated]"@) {
        lemma_trimmed_end_has_no_trailing_space(t.take(t.len() - 9));
    }
}

pub open spec fn style_of(mark: Mark) -> LineStyle {
    match mark {
        Mark::New => LineStyle::Fresh,
        Mark::Updated => LineStyle::Moved,
        Mark::Carried => LineStyle::Carried,
    }
}

pub fn style_for(mark: Mark) -> (s: LineStyle)
    ensures
        s == style_of(mark),
{
    match mark {
        Mark::New => LineStyle::Fresh,
        Mark::Updated => LineStyle::Moved,
        Mark::Carried => LineStyle::Carried,
    }
}

pub open spec fn spaces(n: nat) -> Seq<char> {
    Seq::new(n, |i: int| ' ')
}

/// The wrapped pieces of one source line, continuation lines indented.
pub open spec fn indented(ws: Seq<Seq<char>>, indent: nat, style: LineStyle) -> Seq<StyledLineView> {
    Seq::new(ws.len(), |i: int| StyledLineView { text: if i == 0 { ws[0] } else { spaces(indent) + ws[i] }, style })
}

pub open spec fn blank() -> StyledLineView {
    StyledLineView { text: Seq::empty(), style: LineStyle::Plain }
}

/// The pane lines of one source line, given whether lines came before it: a
/// blank line stays blank; a `## ` heading gets a blank line before it unless
/// it comes first; a `- ` bullet becomes a dot, wrapped two columns narrower
/// so that its indented continuation lines fit too; stray `**` are dropped.
pub open spec fn lay_line(raw: Seq<char>, after_text: bool, width: int) -> Seq<StyledLineView> {
    let line = trimmed_end(removed(raw, "**"@));
    if line.len() == 0 {
        seq![blank()]
    } else if has_prefix(line, "## "@) {
        let (title, mark) = marked(line.skip(3));
        (if after_text { seq![blank()] } else { Seq::empty() }) + indented(wrapped(title, width), 0, style_of(mark))
    } else if has_prefix(line, "# "@) {
        let (title, mark) = marked(line.skip(2));
        indented(wrapped(title, width), 0, style_of(mark))
    } else if has_prefix(line, "- "@) {
        indented(wrapped("\u{2022} "@ + line.skip(2), width - 2), 2, LineStyle::Plain)
    } else {
        indented(wrapped(line, width), 0, LineStyle::Plain)
    }
}

pub open spec fn lay_lines(raws: Seq<Seq<char>>, width: int) -> Seq<StyledLineView>
    decreases raws.len(),
{
    if raws.len() == 0 {
        Seq::empty()
    } else {
        let prev = lay_lines(raws.drop_last(), width);
        prev + lay_line(raws.last(), prev.len() > 0, width)
    }
}

/// The pane lines of a briefing at `width` columns, never narrower than ten.
pub open spec fn laid_out(text: Seq<char>, width: int) -> Seq<StyledLineView> {
    lay_lines(pieces(text, '\n'), if width > 10 { width } else { 10 })
}

/// Appends the wrapped pieces of `content`, continuation lines indented.
fn push_wrapped(out: &mut Vec<StyledLine>, content: &str, width: usize, indent: usize, style: LineStyle)
    requires
        indent <= 2,
    ensures
        styled_views(final(out)@) == styled_views(old(out)@) + indented(wrapped(content@, width as int), indent as nat, style),
{
    let pieces = wrap(content, width);
    let ghost before = styled_views(out@);
    let ghost want = indented(wrapped(content@, width as int), indent as nat, style);
    let mut i: usize = 0;
    while i < pieces.len()
        invariant
            i <= pieces.len(),
            indent <= 2,
            string_views(pieces@) == wrapped(content@, width as int),
            want == indented(wrapped(content@, width as int), indent as nat, style),
            styled_views(out@) == before + want.take(i as int),
        decreases pieces.len() - i,
    {
        let mut text = String::new();
        if i > 0 {
            let mut k: usize = 0;
            while k < indent
                invariant
                    k <= indent,
                    text@ == spaces(k as nat),
                decreases indent - k,
            {
                push_char(&mut text, ' ');
                assert(text@ == spaces((k + 1) as nat));
                k = k + 1;
            }
        }
        push_str(&mut text, pieces[i].as_str());
        assert(i == 0 ==> text@ == pieces@[0]@);
        let ghost bo = styled_views(out@);
        out.push(StyledLine { text, style });
        assert(want[i as int] == StyledLineView { text: text@, style });
        assert(styled_views(out@) == bo.push(want[i as int]));
        assert(want.take(i + 1) == want.take(i as int).push(want[i as int]));
        i = i + 1;
    }
    assert(want.take(pieces.len() as int) == want);
}

/// Wraps the briefing to `width` and styles headings and bullets. Wrapping here
/// rather than in the widget is what lets scrolling know the real height.
pub fn layout_text(text: &str, width: usize) -> (out: Vec<StyledLine>)
    ensures
        styled_views(out@) == laid_out(text@, width as int),
{
    let width = if width > 10 { width } else { 10 };
    let raws = split_on(text, '\n');
    let ghost rv = views(raws@);
    let mut out: Vec<StyledLine> = Vec::new();
    let mut i: usize = 0;
    while i < raws.len()
        invariant
            i <= raws.len(),
            width >= 10,
            rv == views(raws@),
            rv == pieces(text@, '\n'),
            styled_views(out@) == lay_lines(rv.take(i as int), width as int),
        decreases raws.len() - i,
    {
        proof {
            reveal_strlit("## ");
            reveal_strlit("# ");
            reveal_strlit("- ");
            reveal_strlit("**");
        }
        assert(rv.take(i + 1).drop_last() == rv.take(i as int));
        assert(rv.take(i + 1).last() == raws@[i as int]@);
        let raw = string_of(raws[i].as_slice());
        let cleaned = remove_all(raw.as_str(), "**");
        let line = trim_end(cleaned.as_str());
        let after_text = out.len() > 0;
        let ghost before = styled_views(out@);
        if line.as_str().is_empty() {
            out.push(StyledLine { text: String::new(), style: LineStyle::Plain });
            assert(styled_views(out@) == before + seq![blank()]);
        } else if let Some(h) = strip_prefix(line.as_str(), "## ") {
            if after_text {
                out.push(StyledLine { text: String::new(), style: LineStyle::Plain });
            }
            let ghost mid = styled_views(out@);
            assert(mid == before + (if after_text { seq![blank()] } else { Seq::<StyledLineView>::empty() }));
            let (title, mark) = split_mark(h.as_str());
            push_wrapped(&mut out, title.as_str(), width, 0, style_for(mark));
        } else if let Some(h) = strip_prefix(line.as_str(), "# ") {
            let (title, mark) = split_mark(h.as_str());
            push_wrapped(&mut out, title.as_str(), width, 0, style_for(mark));
        } else if let Some(b) = strip_prefix(line.as_str(), "- ") {
            let mut content = owned("\u{2022} ");
            push_str(&mut content, b.as_str());
            push_wrapped(&mut out, content.as_str(), width - 2, 2, LineStyle::Plain);
        } else {
            push_wrapped(&mut out, line.as_str(), width, 0, LineStyle::Plain);
        }
        i = i + 1;
    }
    assert(rv.take(raws.len() as int) == rv);
    out
}


// ---------------------------------------------------------------- laws of the layout

/// Column counts of wrapped pieces, continuation lines indented.
pub open spec fn indented_widths(ns: Seq<int>, indent: nat) -> Seq<int> {
    Seq::new(ns.len(), |i: int| if i == 0 { ns[0] } else { indent + ns[i] })
}

/// The columns each pane line of one source line takes, as the wrap counts
/// them, with the indent of a bullet's continuation lines.
pub open spec fn lay_widths(raw: Seq<char>, after_text: bool, width: int) -> Seq<int> {
    let line = trimmed_end(removed(raw, "**"@));
    if line.len() == 0 {
        seq![0int]
    } else if has_prefix(line, "## "@) {
        (if after_text { seq![0int] } else { Seq::empty() }) + wrapped_widths(marked(line.skip(3)).0, width)
    } else if has_prefix(line, "# "@) {
        wrapped_widths(marked(line.skip(2)).0, width)
    } else if has_prefix(line, "- "@) {
        indented_widths(wrapped_widths("\u{2022} "@ + line.skip(2), width - 2), 2)
    } else {
        wrapped_widths(line, width)
    }
}

pub open spec fn lay_lines_widths(raws: Seq<Seq<char>>, width: int) -> Seq<int>
    decreases raws.len(),
{
    if raws.len() == 0 {
        Seq::empty()
    } else {
        lay_lines_widths(raws.drop_last(), width) + lay_widths(raws.last(), lay_lines(raws.drop_last(), width).len() > 0, width)
    }
}

/// The columns each line of `laid_out(text, width)` takes.
pub open spec fn laid_widths(text: Seq<char>, width: int) -> Seq<int> {
    lay_lines_widths(pieces(text, '\n'), if width > 10 { width } else { 10 })
}

/// No character of `x` is wider than `w` columns.
pub open spec fn narrow(x: Seq<char>, w: int) -> bool {
    forall|k: int| 0 <= k < x.len() ==> char_width(#[trigger] x[k]) as int <= w
}

proof fn lemma_narrow_skip_take(x: Seq<char>, n: int, w: int)
    requires
        narrow(x, w),
        0 <= n <= x.len(),
    ensures
        narrow(x.skip(n), w),
        narrow(x.take(n), w),
{
    assert forall|k: int| 0 <= k < x.skip(n).len() implies char_width(#[trigger] x.skip(n)[k]) as int <= w by {
        assert(x.skip(n)[k] == x[k + n]);
    }
    assert forall|k: int| 0 <= k < x.take(n).len() implies char_width(#[trigger] x.take(n)[k]) as int <= w by {
        assert(x.take(n)[k] == x[k]);
    }
}

proof fn lemma_narrow_trimmed_end(x: Seq<char>, w: int)
    requires
        narrow(x, w),
    ensures
        narrow(trimmed_end(x), w),
    decreases x.len(),
{
    if x.len() > 0 && white_space(x.last()) {
        lemma_narrow_skip_take(x, x.len() - 1, w);
        assert(x.take(x.len() - 1) == x.drop_last());
        lemma_narrow_trimmed_end(x.drop_last(), w);
    }
}

proof fn lemma_narrow_removed(x: Seq<char>, pat: Seq<char>, w: int)
    requires
        narrow(x, w),
    ensures
        narrow(removed(x, pat), w),
    decreases x.len(),
{
    if x.len() > 0 {
        if pat.len() > 0 && has_prefix(x, pat) {
            lemma_narrow_skip_take(x, pat.len() as int, w);
            lemma_narrow_removed(x.skip(pat.len() as int), pat, w);
        } else {
            lemma_narrow_skip_take(x, 1, w);
            lemma_narrow_removed(x.skip(1), pat, w);
            let r = seq![x[0]] + removed(x.skip(1), pat);
            assert forall|k: int| 0 <= k < r.len() implies char_width(#[trigger] r[k]) as int <= w by {
                if k > 0 {
                    assert(r[k] == removed(x.skip(1), pat)[k - 1]);
                }
            }
        }
    }
}

proof fn lemma_narrow_pieces(x: Seq<char>, sep: char, w: int)
    requires
        narrow(x, w),
    ensures
        forall|i: int| 0 <= i < pieces(x, sep).len() ==> narrow(#[trigger] pieces(x, sep)[i], w),
    decreases x.len(),
{
    if x.len() > 0 {
        lemma_narrow_skip_take(x, x.len() - 1, w);
        assert(x.take(x.len() - 1) == x.drop_last());
        lemma_narrow_pieces(x.drop_last(), sep, w);
        let p = pieces(x.drop_last(), sep);
        assert(p.len() > 0) by {
            lemma_pieces_len(x.drop_last(), sep);
        }
        assert(char_width(x[x.len() - 1]) as int <= w);
        if x.last() != sep {
            let q = p.update(p.len() - 1, p.last().push(x.last()));
            assert forall|i: int| 0 <= i < q.len() implies narrow(#[trigger] q[i], w) by {
                if i == p.len() - 1 {
                    assert(narrow(p[p.len() - 1], w));
                    assert forall|k: int| 0 <= k < q[i].len() implies char_width(#[trigger] q[i][k]) as int <= w by {
                        if k < p.last().len() {
                            assert(q[i][k] == p.last()[k]);
                        }
                    }
                } else {
                    assert(q[i] == p[i]);
                }
            }
        } else {
            let q = p.push(Seq::<char>::empty());
            assert forall|i: int| 0 <= i < q.len() implies narrow(#[trigger] q[i], w) by {
                if i < p.len() {
                    assert(q[i] == p[i]);
                }
            }
        }
    }
}

proof fn lemma_pieces_len(x: Seq<char>, sep: char)
    ensures
        pieces(x, sep).len() > 0,
    decreases x.len(),
{
    if x.len() > 0 {
        lemma_pieces_len(x.drop_last(), sep);
    }
}

proof fn lemma_narrow_marked(h: Seq<char>, w: int)
    requires
        narrow(h, w),
    ensures
        narrow(marked(h).0, w),
{
    let t = trimmed_end(h);
    lemma_narrow_trimmed_end(h, w);
    let n = trimmed(NEW_MARK@);
    let u = trimmed(UPDATED_MARK@);
    if has_suffix(t, n) {
        lemma_narrow_skip_take(t, t.len() - n.len(), w);
        lemma_narrow_trimmed_end(t.take(t.len() - n.len()), w);
    } else if has_suffix(t, u) {
        lemma_narrow_skip_take(t, t.len() - u.len(), w);
        lemma_narrow_trimmed_end(t.take(t.len() - u.len()), w);
    }
}

proof fn lemma_wrap_fits(s: Seq<char>, width: int)
    requires
        width >= 8,
        narrow(s, 8),
    ensures
        wrapped_widths(s, width).len() == wrapped(s, width).len(),
        forall|i: int| 0 <= i < wrapped_widths(s, width).len() ==> #[trigger] wrapped_widths(s, width)[i] <= width,
{
    law_wrap_fits_the_pane(s, width);
}

proof fn lemma_lay_line_fits(raw: Seq<char>, after_text: bool, width: int)
    requires
        width >= 10,
        narrow(raw, 8),
        char_width('\u{2022}') as int <= 8,
        char_width(' ') as int <= 8,
    ensures
        lay_widths(raw, after_text, width).len() == lay_line(raw, after_text, width).len(),
        forall|i: int| 0 <= i < lay_widths(raw, after_text, width).len() ==> #[trigger] lay_widths(raw, after_text, width)[i] <= width,
{
    reveal_strlit("## ");
    reveal_strlit("# ");
    reveal_strlit("- ");
    reveal_strlit("**");
    let line = trimmed_end(removed(raw, "**"@));
    lemma_narrow_removed(raw, "**"@, 8);
    lemma_narrow_trimmed_end(removed(raw, "**"@), 8);
    if line.len() == 0 {
    } else if has_prefix(line, "## "@) {
        lemma_narrow_skip_take(line, 3, 8);
        lemma_narrow_marked(line.skip(3), 8);
        lemma_wrap_fits(marked(line.skip(3)).0, width);
        let pre = if after_text { seq![0int] } else { Seq::<int>::empty() };
        let ws = wrapped_widths(marked(line.skip(3)).0, width);
        assert forall|i: int| 0 <= i < (pre + ws).len() implies #[trigger] (pre + ws)[i] <= width by {
            if i >= pre.len() {
                assert((pre + ws)[i] == ws[i - pre.len()]);
            }
        }
    } else if has_prefix(line, "# "@) {
        lemma_narrow_skip_take(line, 2, 8);
        lemma_narrow_marked(line.skip(2), 8);
        lemma_wrap_fits(marked(line.skip(2)).0, width);
    } else if has_prefix(line, "- "@) {
        lemma_narrow_skip_take(line, 2, 8);
        let c = "\u{2022} "@ + line.skip(2);
        assert forall|k: int| 0 <= k < c.len() implies char_width(#[trigger] c[k]) as int <= 8 by {
            reveal_strlit("\u{2022} ");
            if k >= 2 {
                assert(c[k] == line.skip(2)[k - 2]);
            }
        }
        lemma_wrap_fits(c, width - 2);
    } else {
        lemma_wrap_fits(line, width);
    }
}

proof fn lemma_lay_lines_fit(raws: Seq<Seq<char>>, width: int)
    requires
        width >= 10,
        forall|i: int| 0 <= i < raws.len() ==> narrow(#[trigger] raws[i], 8),
        char_width('\u{2022}') as int <= 8,
        char_width(' ') as int <= 8,
    ensures
        lay_lines_widths(raws, width).len() == lay_lines(raws, width).len(),
        forall|i: int| 0 <= i < lay_lines_widths(raws, width).len() ==> #[trigger] lay_lines_widths(raws, width)[i] <= width,
    decreases raws.len(),
{
    if raws.len() > 0 {
        let p = raws.drop_last();
        assert forall|i: int| 0 <= i < p.len() implies narrow(#[trigger] p[i], 8) by {
            assert(p[i] == raws[i]);
        }
        lemma_lay_lines_fit(p, width);
        let after = lay_lines(p, width).len() > 0;
        assert(narrow(raws[raws.len() - 1], 8));
        lemma_lay_line_fits(raws.last(), after, width);
        let a = lay_lines_widths(p, width);
        let b = lay_widths(raws.last(), after, width);
        assert forall|i: int| 0 <= i < (a + b).len() implies #[trigger] (a + b)[i] <= width by {
            if i >= a.len() {
                assert((a + b)[i] == b[i - a.len()]);
            } else {
                assert((a + b)[i] == a[i]);
            }
        }
    }
}

/// Every line of the laid-out briefing fits the pane, counted as the wrap
/// counts it, a bullet's indent included, as long as no character of the
/// text, nor the bullet's dot or a space, is wider than eight columns (the
/// narrowest pane less a bullet's indent).
pub proof fn law_layout_fits_the_pane(text: Seq<char>, width: int)
    requires
        narrow(text, 8),
        char_width('\u{2022}') as int <= 8,
        char_width(' ') as int <= 8,
    ensures
        laid_widths(text, width).len() == laid_out(text, width).len(),
        forall|i: int| 0 <= i < laid_widths(text, width).len() ==>
            #[trigger] laid_widths(text, width)[i] <= (if width > 10 { width } else { 10 }),
{
    lemma_narrow_pieces(text, '\n', 8);
    lemma_lay_lines_fit(pieces(text, '\n'), if width > 10 { width } else { 10 });
}

} // verus!
