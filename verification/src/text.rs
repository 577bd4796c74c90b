//! Character-level work on strings, each operation stated over `Seq<char>`.
use vstd::prelude::*;

verus! {

// ---------------------------------------------------------------- specs

/// Whether `c` has Unicode's White_Space property (`char::is_whitespace`):
/// the code points that the Unicode Character Database's PropList.txt lists
/// under White_Space.
pub open spec fn white_space(c: char) -> bool {
    let u = c as u32;
    ||| 0x09 <= u <= 0x0d
    ||| u == 0x20
    ||| u == 0x85
    ||| u == 0xa0
    ||| u == 0x1680
    ||| 0x2000 <= u <= 0x200a
    ||| u == 0x2028
    ||| u == 0x2029
    ||| u == 0x202f
    ||| u == 0x205f
    ||| u == 0x3000
}

/// `s` without its trailing white space (`str::trim_end`).
pub open spec fn trimmed_end(s: Seq<char>) -> Seq<char>
    decreases s.len(),
{
    if s.len() > 0 && white_space(s.last()) {
        trimmed_end(s.drop_last())
    } else {
        s
    }
}

/// `s` without its leading white space (`str::trim_start`).
pub open spec fn trimmed_start(s: Seq<char>) -> Seq<char>
    decreases s.len(),
{
    if s.len() > 0 && white_space(s[0]) {
        trimmed_start(s.drop_first())
    } else {
        s
    }
}

/// `s` without white space at either end (`str::trim`).
pub open spec fn trimmed(s: Seq<char>) -> Seq<char> {
    trimmed_start(trimmed_end(s))
}

pub open spec fn has_prefix(s: Seq<char>, p: Seq<char>) -> bool {
    p.len() <= s.len() && s.take(p.len() as int) == p
}

pub open spec fn has_suffix(s: Seq<char>, p: Seq<char>) -> bool {
    p.len() <= s.len() && s.skip(s.len() - p.len()) == p
}

/// `s` with every `from` replaced by `to`.
pub open spec fn replaced(s: Seq<char>, from: char, to: char) -> Seq<char> {
    s.map_values(|x: char| if x == from { to } else { x })
}

/// `s` with every occurrence of `pat` removed, scanning left to right
/// (`str::replace(pat, "")`).
pub open spec fn removed(s: Seq<char>, pat: Seq<char>) -> Seq<char>
    recommends
        pat.len() > 0,
    decreases s.len(),
{
    if s.len() == 0 {
        s
    } else if pat.len() > 0 && has_prefix(s, pat) {
        removed(s.skip(pat.len() as int), pat)
    } else {
        seq![s[0]] + removed(s.skip(1), pat)
    }
}

/// The pieces of `s` between the occurrences of `sep`, empty pieces included
/// (`str::split(sep)`).
pub open spec fn pieces(s: Seq<char>, sep: char) -> Seq<Seq<char>>
    decreases s.len(),
{
    if s.len() == 0 {
        seq![Seq::empty()]
    } else {
        let p = pieces(s.drop_last(), sep);
        if s.last() == sep {
            p.push(Seq::empty())
        } else {
            p.update(p.len() - 1, p.last().push(s.last()))
        }
    }
}

/// The maximal runs of non-white-space characters of `s`, the words still
/// open at the end included (`str::split_whitespace`).
pub open spec fn word_runs(s: Seq<char>) -> (Seq<Seq<char>>, Seq<char>)
    decreases s.len(),
{
    if s.len() == 0 {
        (Seq::empty(), Seq::empty())
    } else {
        let (done, cur) = word_runs(s.drop_last());
        if white_space(s.last()) {
            if cur.len() > 0 {
                (done.push(cur), Seq::empty())
            } else {
                (done, cur)
            }
        } else {
            (done, cur.push(s.last()))
        }
    }
}

pub open spec fn words(s: Seq<char>) -> Seq<Seq<char>> {
    let (done, cur) = word_runs(s);
    if cur.len() > 0 {
        done.push(cur)
    } else {
        done
    }
}

/// ASCII letters to lower case, everything else unchanged.
pub open spec fn ascii_lower(c: char) -> char {
    if 'A' <= c <= 'Z' {
        ((c as u32) + 32) as char
    } else {
        c
    }
}

/// `str::eq_ignore_ascii_case`.
pub open spec fn same_ignoring_ascii_case(a: Seq<char>, b: Seq<char>) -> bool {
    a.len() == b.len() && forall|i: int| 0 <= i < a.len() ==> ascii_lower(#[trigger] a[i]) == ascii_lower(b[i])
}

/// The decimal digit for `d < 10`.
pub open spec fn digit(d: nat) -> char {
    ((48 + d) as u8) as char
}

/// The decimal representation of `n`, without leading zeros.
pub open spec fn decimal(n: nat) -> Seq<char>
    decreases n,
{
    if n < 10 {
        seq![digit(n)]
    } else {
        decimal(n / 10).push(digit(n % 10))
    }
}

/// The decimal representation of a signed integer, with `-` before a negative one.
pub open spec fn signed_decimal(n: int) -> Seq<char> {
    if n < 0 {
        seq!['-'] + decimal((-n) as nat)
    } else {
        decimal(n as nat)
    }
}

/// No white space at the end.
pub open spec fn no_trailing_space(s: Seq<char>) -> bool {
    s.len() == 0 || !white_space(s.last())
}

/// Nothing but white space.
pub open spec fn all_space(s: Seq<char>) -> bool {
    forall|i: int| 0 <= i < s.len() ==> white_space(#[trigger] s[i])
}

pub proof fn lemma_trimmed_end_has_no_trailing_space(s: Seq<char>)
    ensures
        no_trailing_space(trimmed_end(s)),
    decreases s.len(),
{
    if s.len() > 0 && white_space(s.last()) {
        lemma_trimmed_end_has_no_trailing_space(s.drop_last());
    }
}

/// Trailing white space makes no difference to what `trim_end` leaves.
pub proof fn lemma_trimmed_end_drops_space(s: Seq<char>, ws: Seq<char>)
    requires
        all_space(ws),
    ensures
        trimmed_end(s + ws) == trimmed_end(s),
    decreases ws.len(),
{
    if ws.len() == 0 {
        assert(s + ws == s);
    } else {
        assert((s + ws).drop_last() == s + ws.drop_last());
        assert((s + ws).last() == ws.last());
        assert(white_space(ws[ws.len() - 1]));
        lemma_trimmed_end_drops_space(s, ws.drop_last());
    }
}

// ---------------------------------------------------------------- std calls

/// Whether `c` has Unicode's White_Space property, as `char::is_whitespace`
/// answers.
pub(crate) fn is_whitespace(c: char) -> (r: bool)
    ensures
        r == white_space(c),
{
    let u = c as u32;
    (0x09 <= u && u <= 0x0d) || u == 0x20 || u == 0x85 || u == 0xa0 || u == 0x1680
        || (0x2000 <= u && u <= 0x200a) || u == 0x2028 || u == 0x2029 || u == 0x202f
        || u == 0x205f || u == 0x3000
}

/// Appends one character; `String::push`.
#[verifier::external_body]
pub(crate) fn push_char(s: &mut String, c: char)
    ensures
        final(s)@ == old(s)@.push(c),
{
    s.push(c);
}

// ---------------------------------------------------------------- exec

/// The characters of a string, in order.
pub fn chars_of(s: &str) -> (out: Vec<char>)
    ensures
        out@ == s@,
{
    let mut out: Vec<char> = Vec::new();
    for c in it: s.chars()
        invariant
            out@ == it.seq().take(it.index() as int),
            it.seq() == s@,
    {
        out.push(c);
    }
    out
}

/// The string whose characters are `cs`.
pub fn string_of(cs: &[char]) -> (out: String)
    ensures
        out@ == cs@,
{
    let mut out = String::new();
    let mut i: usize = 0;
    while i < cs.len()
        invariant
            i <= cs.len(),
            out@ == cs@.take(i as int),
        decreases cs.len() - i,
    {
        push_char(&mut out, cs[i]);
        assert(cs@.take(i + 1) == cs@.take(i as int).push(cs@[i as int]));
        i = i + 1;
    }
    assert(cs@.take(cs.len() as int) == cs@);
    out
}

/// Appends `other` to `s`.
pub fn push_str(s: &mut String, other: &str)
    ensures
        final(s)@ == old(s)@ + other@,
{
    s.append(other);
}

/// An owned copy of `s`.
pub fn owned(s: &str) -> (out: String)
    ensures
        out@ == s@,
{
    String::from_str(s)
}

pub fn chars_eq(a: &[char], b: &[char]) -> (r: bool)
    ensures
        r == (a@ == b@),
{
    if a.len() != b.len() {
        return false;
    }
    let mut i: usize = 0;
    while i < a.len()
        invariant
            a.len() == b.len(),
            i <= a.len(),
            forall|k: int| 0 <= k < i ==> a@[k] == b@[k],
        decreases a.len() - i,
    {
        if a[i] != b[i] {
            return false;
        }
        i = i + 1;
    }
    assert(a@ == b@);
    true
}

/// Whether two strings hold the same characters.
pub fn str_eq(a: &str, b: &str) -> (r: bool)
    ensures
        r == (a@ == b@),
{
    let x = chars_of(a);
    let y = chars_of(b);
    chars_eq(x.as_slice(), y.as_slice())
}


/// The views of a list of character vectors.
pub open spec fn views(v: Seq<Vec<char>>) -> Seq<Seq<char>> {
    v.map_values(|x: Vec<char>| x@)
}

/// The white-space separated words of `s` (`str::split_whitespace`).
pub fn words_of(s: &str) -> (out: Vec<Vec<char>>)
    ensures
        views(out@) == words(s@),
{
    let cs = chars_of(s);
    let mut done: Vec<Vec<char>> = Vec::new();
    let mut cur: Vec<char> = Vec::new();
    let mut i: usize = 0;
    while i < cs.len()
        invariant
            i <= cs.len(),
            cs@ == s@,
            (views(done@), cur@) == word_runs(cs@.take(i as int)),
        decreases cs.len() - i,
    {
        let c = cs[i];
        assert(cs@.take(i + 1).drop_last() == cs@.take(i as int));
        if is_whitespace(c) {
            if cur.len() > 0 {
                let w = cur;
                cur = Vec::new();
                done.push(w);
                assert(views(done@) == word_runs(cs@.take(i as int)).0.push(w@));
            }
        } else {
            cur.push(c);
        }
        i = i + 1;
    }
    assert(cs@.take(cs.len() as int) == cs@);
    if cur.len() > 0 {
        let ghost before = done@;
        done.push(cur);
        assert(views(done@) == views(before).push(cur@));
    }
    done
}


/// Whether `s` begins with `p`.
pub fn starts_with(s: &str, p: &str) -> (r: bool)
    ensures
        r == has_prefix(s@, p@),
{
    let x = chars_of(s);
    let y = chars_of(p);
    if y.len() > x.len() {
        return false;
    }
    let mut i: usize = 0;
    while i < y.len()
        invariant
            x@ == s@,
            y@ == p@,
            y.len() <= x.len(),
            i <= y.len(),
            forall|k: int| 0 <= k < i ==> x@[k] == y@[k],
        decreases y.len() - i,
    {
        if x[i] != y[i] {
            assert(x@.take(y.len() as int)[i as int] != y@[i as int]);
            return false;
        }
        i = i + 1;
    }
    assert(x@.take(y.len() as int) == y@);
    true
}


/// Appends the decimal representation of `n`.
pub fn push_decimal(s: &mut String, n: u64)
    ensures
        final(s)@ == old(s)@ + decimal(n as nat),
    decreases n,
{
    if n >= 10 {
        push_decimal(s, n / 10);
    }
    let d = (n % 10) as u8;
    push_char(s, (48 + d) as char);
    proof {
        if n >= 10 {
            assert(decimal(n as nat) == decimal((n / 10) as nat).push(digit((n % 10) as nat)));
        } else {
            assert(decimal(n as nat) == seq![digit(n as nat)]);
        }
    }
}

/// Appends the decimal representation of a signed `n`.
pub fn push_signed_decimal(s: &mut String, n: i64)
    ensures
        final(s)@ == old(s)@ + signed_decimal(n as int),
{
    if n < 0 {
        push_char(s, '-');
        let m: u64 = ((-(n + 1)) as u64) + 1;
        assert(m == -n);
        let ghost mid = s@;
        push_decimal(s, m);
        assert(s@ == old(s)@ + (seq!['-'] + decimal(m as nat)));
    } else {
        push_decimal(s, n as u64);
    }
}

/// Appends `cs` with every `from` replaced by `to`.
pub fn push_replaced(s: &mut String, cs: &[char], from: char, to: char)
    ensures
        final(s)@ == old(s)@ + replaced(cs@, from, to),
{
    let ghost start = s@;
    let mut i: usize = 0;
    while i < cs.len()
        invariant
            i <= cs.len(),
            s@ == start + replaced(cs@.take(i as int), from, to),
        decreases cs.len() - i,
    {
        let c = cs[i];
        push_char(s, if c == from { to } else { c });
        assert(replaced(cs@.take(i + 1), from, to) == replaced(cs@.take(i as int), from, to).push(if c == from { to } else { c }));
        i = i + 1;
    }
    assert(cs@.take(cs.len() as int) == cs@);
}


/// The characters of `cs` from `lo` up to `hi`.
pub fn slice_string(cs: &[char], lo: usize, hi: usize) -> (r: String)
    requires
        lo <= hi <= cs.len(),
    ensures
        r@ == cs@.subrange(lo as int, hi as int),
{
    let mut out = String::new();
    let mut i: usize = lo;
    while i < hi
        invariant
            lo <= i <= hi <= cs.len(),
            out@ == cs@.subrange(lo as int, i as int),
        decreases hi - i,
    {
        push_char(&mut out, cs[i]);
        assert(cs@.subrange(lo as int, i + 1) == cs@.subrange(lo as int, i as int).push(cs@[i as int]));
        i = i + 1;
    }
    out
}

proof fn lemma_trimmed_end_take(s: Seq<char>, n: int)
    requires
        0 <= n <= s.len(),
        forall|k: int| n <= k < s.len() ==> white_space(#[trigger] s[k]),
    ensures
        trimmed_end(s) == trimmed_end(s.take(n)),
    decreases s.len() - n,
{
    if n < s.len() {
        assert(s.drop_last().take(n) == s.take(n));
        lemma_trimmed_end_take(s.drop_last(), n);
        assert(trimmed_end(s) == trimmed_end(s.drop_last()));
    } else {
        assert(s.take(n) == s);
    }
}

proof fn lemma_trimmed_start_skip(s: Seq<char>, n: int)
    requires
        0 <= n <= s.len(),
        forall|k: int| 0 <= k < n ==> white_space(#[trigger] s[k]),
    ensures
        trimmed_start(s) == trimmed_start(s.skip(n)),
    decreases n,
{
    if n > 0 {
        assert(s.drop_first().skip(n - 1) == s.skip(n));
        lemma_trimmed_start_skip(s.drop_first(), n - 1);
    } else {
        assert(s.skip(0) == s);
    }
}

/// `cs` without its leading and trailing white space, as positions: the part
/// `lo..hi` that remains.
pub fn trim_bounds(cs: &[char], start: bool, end: bool) -> (r: (usize, usize))
    ensures
        r.0 <= r.1 <= cs.len(),
        cs@.subrange(r.0 as int, r.1 as int) == (
            if start && end { trimmed(cs@) }
            else if end { trimmed_end(cs@) }
            else if start { trimmed_start(cs@) }
            else { cs@ }),
{
    let mut hi: usize = cs.len();
    if end {
        while hi > 0 && is_whitespace(cs[hi - 1])
            invariant
                hi <= cs.len(),
                forall|k: int| hi <= k < cs.len() ==> white_space(#[trigger] cs@[k]),
            decreases hi,
        {
            hi = hi - 1;
        }
        proof {
            lemma_trimmed_end_take(cs@, hi as int);
            let t = cs@.take(hi as int);
            if hi > 0 {
                assert(t.last() == cs@[hi - 1]);
            }
            assert(trimmed_end(t) == t);
        }
    }
    assert(cs@.subrange(0, hi as int) == cs@.take(hi as int));
    let ghost head = cs@.take(hi as int);
    let mut lo: usize = 0;
    if start {
        while lo < hi && is_whitespace(cs[lo])
            invariant
                lo <= hi <= cs.len(),
                forall|k: int| 0 <= k < lo ==> white_space(#[trigger] cs@[k]),
            decreases hi - lo,
        {
            lo = lo + 1;
        }
        proof {
            assert forall|k: int| 0 <= k < lo implies white_space(#[trigger] head[k]) by {
                assert(head[k] == cs@[k]);
            }
            lemma_trimmed_start_skip(head, lo as int);
            let t = head.skip(lo as int);
            if lo < hi {
                assert(t[0] == cs@[lo as int]);
            }
            assert(trimmed_start(t) == t);
            assert(t == cs@.subrange(lo as int, hi as int));
            if !end {
                assert(head == cs@);
            }
        }
    }
    (lo, hi)
}

/// `str::trim`.
pub fn trim(s: &str) -> (r: String)
    ensures
        r@ == trimmed(s@),
{
    let cs = chars_of(s);
    let (lo, hi) = trim_bounds(cs.as_slice(), true, true);
    slice_string(cs.as_slice(), lo, hi)
}

/// `str::trim_end`.
pub fn trim_end(s: &str) -> (r: String)
    ensures
        r@ == trimmed_end(s@),
{
    let cs = chars_of(s);
    let (lo, hi) = trim_bounds(cs.as_slice(), false, true);
    slice_string(cs.as_slice(), lo, hi)
}


/// The pieces of `s` between the occurrences of `sep` (`str::split`).
pub fn split_on(s: &str, sep: char) -> (out: Vec<Vec<char>>)
    ensures
        views(out@) == pieces(s@, sep),
{
    let cs = chars_of(s);
    let mut done: Vec<Vec<char>> = Vec::new();
    let mut cur: Vec<char> = Vec::new();
    let mut i: usize = 0;
    while i < cs.len()
        invariant
            i <= cs.len(),
            cs@ == s@,
            views(done@).push(cur@) == pieces(cs@.take(i as int), sep),
        decreases cs.len() - i,
    {
        let c = cs[i];
        assert(cs@.take(i + 1).drop_last() == cs@.take(i as int));
        let ghost before = views(done@).push(cur@);
        if c == sep {
            let piece = cur;
            cur = Vec::new();
            done.push(piece);
            assert(views(done@).push(cur@) == before.push(Seq::empty()));
        } else {
            cur.push(c);
            assert(views(done@).push(cur@) == before.update(before.len() - 1, before.last().push(c)));
        }
        i = i + 1;
    }
    assert(cs@.take(cs.len() as int) == cs@);
    let ghost before = views(done@);
    done.push(cur);
    assert(views(done@) == before.push(cur@));
    done
}

/// The lines of `s` (`str::lines`): split at `\n`, a `\r` before it dropped,
/// no empty last line for a final line ending.
pub open spec fn line_list(s: Seq<char>) -> Seq<Seq<char>> {
    let p = pieces(s, '\n');
    let q = if p.last().len() == 0 { p.drop_last() } else { p };
    Seq::new(q.len(), |i: int| if i < p.len() - 1 && has_suffix(q[i], seq!['\r']) { q[i].drop_last() } else { q[i] })
}

proof fn lemma_pieces_nonempty(s: Seq<char>, sep: char)
    ensures
        pieces(s, sep).len() >= 1,
    decreases s.len(),
{
    if s.len() > 0 {
        lemma_pieces_nonempty(s.drop_last(), sep);
    }
}

/// The lines of `s` (`str::lines`).
pub fn lines_of(s: &str) -> (out: Vec<Vec<char>>)
    ensures
        views(out@) == line_list(s@),
{
    let p = split_on(s, '\n');
    proof {
        lemma_pieces_nonempty(s@, '\n');
    }
    let ghost pv = views(p@);
    let n = if p[p.len() - 1].len() == 0 { p.len() - 1 } else { p.len() };
    let ghost q = if pv.last().len() == 0 { pv.drop_last() } else { pv };
    assert(q.len() == n);
    assert(line_list(s@).len() == n);
    let mut out: Vec<Vec<char>> = Vec::new();
    let mut i: usize = 0;
    while i < n
        invariant
            i <= n <= p.len(),
            pv == views(p@),
            pv == pieces(s@, '\n'),
            q.len() == n,
            line_list(s@).len() == n,
            forall|k: int| 0 <= k < n ==> q[k] == pv[k],
            views(out@) == line_list(s@).take(i as int),
        decreases n - i,
    {
        let piece = &p[i];
        let len = piece.len();
        let ghost before = views(out@);
        let mut line: Vec<char> = Vec::new();
        let keep = if i + 1 < p.len() && len > 0 && piece[len - 1] == '\r' { len - 1 } else { len };
        let mut k: usize = 0;
        while k < keep
            invariant
                keep <= len == piece@.len(),
                k <= keep,
                line@ == piece@.take(k as int),
            decreases keep - k,
        {
            line.push(piece[k]);
            assert(piece@.take(k + 1) == piece@.take(k as int).push(piece@[k as int]));
            k = k + 1;
        }
        proof {
            let full = line_list(s@);
            assert(q[i as int] == piece@);
            if i + 1 < p.len() && len > 0 && piece@[len - 1] == '\r' {
                assert(piece@.skip(len - 1) =~= seq!['\r']);
                assert(has_suffix(piece@, seq!['\r']));
                assert(piece@.drop_last() == piece@.take(len - 1));
            } else if i + 1 < p.len() && has_suffix(piece@, seq!['\r']) {
                assert(piece@.skip(len - 1)[0] == piece@[len - 1]);
            } else {
                assert(piece@.take(len as int) == piece@);
            }
            assert(full[i as int] == line@);
        }
        out.push(line);
        assert(views(out@) == before.push(line_list(s@)[i as int]));
        assert(line_list(s@).take(i + 1) == line_list(s@).take(i as int).push(line_list(s@)[i as int]));
        i = i + 1;
    }
    assert(line_list(s@).take(n as int) == line_list(s@));
    out
}


/// Whether `pat` occurs in `cs` at `i`.
pub fn matches_at(cs: &[char], i: usize, pat: &[char]) -> (r: bool)
    requires
        i <= cs.len(),
    ensures
        r == has_prefix(cs@.skip(i as int), pat@),
{
    if pat.len() > cs.len() - i {
        return false;
    }
    let mut k: usize = 0;
    while k < pat.len()
        invariant
            i + pat.len() <= cs.len(),
            k <= pat.len(),
            forall|j: int| 0 <= j < k ==> cs@[i + j] == pat@[j],
        decreases pat.len() - k,
    {
        if cs[i + k] != pat[k] {
            assert(cs@.skip(i as int).take(pat.len() as int)[k as int] != pat@[k as int]);
            return false;
        }
        k = k + 1;
    }
    assert(cs@.skip(i as int).take(pat.len() as int) == pat@);
    true
}

/// `s` with every occurrence of `pat` removed (`str::replace(pat, "")`).
pub fn remove_all(s: &str, pat: &str) -> (r: String)
    requires
        pat@.len() > 0,
    ensures
        r@ == removed(s@, pat@),
{
    let cs = chars_of(s);
    let ps = chars_of(pat);
    let mut out = String::new();
    let mut i: usize = 0;
    assert(cs@.skip(0) == cs@);
    while i < cs.len()
        invariant
            i <= cs.len(),
            cs@ == s@,
            ps@ == pat@,
            ps@.len() > 0,
            out@ + removed(cs@.skip(i as int), ps@) == removed(cs@, ps@),
        decreases cs.len() - i,
    {
        let ghost rest = cs@.skip(i as int);
        if matches_at(cs.as_slice(), i, ps.as_slice()) {
            assert(rest.skip(ps@.len() as int) == cs@.skip(i + ps.len()));
            i = i + ps.len();
        } else {
            assert(rest.skip(1) == cs@.skip(i + 1));
            assert(rest[0] == cs@[i as int]);
            let ghost before = out@;
            push_char(&mut out, cs[i]);
            assert(out@ + removed(cs@.skip(i + 1), ps@) == before + (seq![rest[0]] + removed(rest.skip(1), ps@)));
            i = i + 1;
        }
    }
    assert(cs@.skip(cs.len() as int) == Seq::<char>::empty());
    out
}

/// `s` without the prefix `p`, when it has it (`str::strip_prefix`).
pub fn strip_prefix(s: &str, p: &str) -> (r: Option<String>)
    ensures
        match r {
            Some(rest) => has_prefix(s@, p@) && rest@ == s@.skip(p@.len() as int),
            None => !has_prefix(s@, p@),
        },
{
    if starts_with(s, p) {
        let cs = chars_of(s);
        let n = chars_of(p).len();
        Some(slice_string(cs.as_slice(), n, cs.len()))
    } else {
        None
    }
}

/// `s` without the suffix `p`, when it has it (`str::strip_suffix`).
pub fn strip_suffix(s: &str, p: &str) -> (r: Option<String>)
    ensures
        match r {
            Some(rest) => has_suffix(s@, p@) && rest@ == s@.take(s@.len() - p@.len()),
            None => !has_suffix(s@, p@),
        },
{
    let cs = chars_of(s);
    let ps = chars_of(p);
    if ps.len() > cs.len() {
        return None;
    }
    let off = cs.len() - ps.len();
    if matches_at(cs.as_slice(), off, ps.as_slice()) {
        assert(cs@.skip(off as int).take(ps@.len() as int) == cs@.skip(off as int));
        Some(slice_string(cs.as_slice(), 0, off))
    } else {
        assert(cs@.skip(off as int).take(ps@.len() as int) == cs@.skip(off as int));
        None
    }
}

} // verus!
