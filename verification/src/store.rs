//! What a run remembers between refreshes: the posts it fetched, and the
//! briefings it wrote.
//!
//! Without this, every refresh walks ten pages again and re-summarizes a day
//! you already read. With it, a refresh fetches what arrived since the last
//! briefing and summarizes only that. The files are read and written by the
//! caller; here is what goes in them and what comes out.
use vstd::prelude::*;
use crate::text::{has_prefix, line_list, lines_of, owned, push_char, push_str, same_ignoring_ascii_case, string_of, trim, trimmed, views};
use crate::cookies::eq_ignore_ascii_case;
use crate::x::{Tweet, TweetView};

verus! {

/// Posts stay on disk at least this long whatever window the run asked for, so
/// switching from 24h to 48h is served from the cache instead of the network.
pub const MIN_RETENTION_HOURS: i64 = 72;

/// How many past briefings to keep.
pub const KEEP_BRIEFINGS: usize = 50;

/// A cached post, with the moment it first reached us.
///
/// For You is ranked, not chronological: it surfaces posts hours after they
/// were written. So "new to me" is `seen_at`, never `created_at`: filtering
/// on when a post was written drops everything the ranker showed you late.
#[derive(Debug)]
pub struct Cached {
    pub seen_at: i64,
    pub tweet: Tweet,
}

#[derive(Debug)]
pub struct Briefing {
    pub at: i64,
    /// The window this briefing covered, in hours.
    pub hours: i64,
    pub posts: usize,
    pub text: String,
}

/// Where the cache lives.
pub struct Store {
    pub dir: String,
}

/// `dir` joined with a file name, as `Path::join` does for a relative name.
pub open spec fn joined(dir: Seq<char>, name: Seq<char>) -> Seq<char> {
    if dir.len() == 0 || dir.last() == '/' {
        dir + name
    } else {
        dir + seq!['/'] + name
    }
}

fn join_path(dir: &str, name: &str) -> (r: String)
    ensures
        r@ == joined(dir@, name@),
{
    let mut r = owned(dir);
    let cs = crate::text::chars_of(dir);
    if !(cs.len() == 0 || cs[cs.len() - 1] == '/') {
        push_char(&mut r, '/');
    }
    push_str(&mut r, name);
    r
}

impl Store {
    pub fn posts_path(&self) -> (r: String)
        ensures
            r@ == joined(self.dir@, "posts.jsonl"@),
    {
        join_path(self.dir.as_str(), "posts.jsonl")
    }

    pub fn briefings_path(&self) -> (r: String)
        ensures
            r@ == joined(self.dir@, "briefings.jsonl"@),
    {
        join_path(self.dir.as_str(), "briefings.jsonl")
    }
}


// ---------------------------------------------------------------- posts

pub struct CachedView {
    pub seen_at: i64,
    pub tweet: TweetView,
}

pub open spec fn cached_views(v: Seq<Cached>) -> Seq<CachedView> {
    v.map_values(|c: Cached| CachedView { seen_at: c.seen_at, tweet: c.tweet@ })
}

/// A cache line whose `seen_at` is missing (written before it existed) counts
/// as seen when its post was written.
pub fn cached_from_row(seen_at: Option<i64>, tweet: Tweet) -> (c: Cached)
    ensures
        c.tweet@ == tweet@,
        c.seen_at == match seen_at {
            Some(t) => t,
            None => tweet.created_at,
        },
{
    let seen = match seen_at {
        Some(t) => t,
        None => tweet.created_at,
    };
    Cached { seen_at: seen, tweet }
}

/// The cached posts written no earlier than `cutoff`, in order.
pub open spec fn written_since(v: Seq<CachedView>, cutoff: i64) -> Seq<CachedView>
    decreases v.len(),
{
    if v.len() == 0 {
        v
    } else if v.last().tweet.created_at >= cutoff {
        written_since(v.drop_last(), cutoff).push(v.last())
    } else {
        written_since(v.drop_last(), cutoff)
    }
}

/// Keeps the cached posts written no earlier than `cutoff`.
fn keep_written_since(v: Vec<Cached>, cutoff: i64) -> (r: Vec<Cached>)
    ensures
        cached_views(r@) == written_since(cached_views(v@), cutoff),
{
    let ghost input = cached_views(v@);
    let mut rev: Vec<Cached> = Vec::new();
    let mut src = v;
    while src.len() > 0
        invariant
            cached_views(src@) + cached_views(rev@).reverse() == input,
        decreases src.len(),
    {
        let ghost bs = cached_views(src@);
        let ghost br = cached_views(rev@);
        let c = src.pop().unwrap();
        rev.push(c);
        let ghost cv = CachedView { seen_at: c.seen_at, tweet: c.tweet@ };
        assert(bs == cached_views(src@).push(cv));
        assert(cached_views(rev@) == br.push(cv));
        assert(cached_views(rev@).reverse() == seq![cv] + br.reverse());
        assert(cached_views(src@) + cached_views(rev@).reverse() == bs + br.reverse());
    }
    assert(cached_views(rev@).reverse() == input);
    let mut out: Vec<Cached> = Vec::new();
    let ghost mut n: int = 0;
    while rev.len() > 0
        invariant
            0 <= n <= input.len(),
            cached_views(rev@).reverse() == input.skip(n),
            cached_views(out@) == written_since(input.take(n), cutoff),
        decreases rev.len(),
    {
        let ghost br = cached_views(rev@);
        let c = rev.pop().unwrap();
        let ghost cv = CachedView { seen_at: c.seen_at, tweet: c.tweet@ };
        assert(br == cached_views(rev@).push(cv));
        assert(br.reverse() == seq![cv] + cached_views(rev@).reverse());
        assert(input.skip(n)[0] == cv);
        assert(input.skip(n + 1) == input.skip(n).drop_first());
        assert(input.take(n + 1).drop_last() == input.take(n));
        assert(input.take(n + 1).last() == cv);
        if c.tweet.created_at >= cutoff {
            let ghost bo = cached_views(out@);
            out.push(c);
            assert(cached_views(out@) == bo.push(cv));
        }
        proof {
            n = n + 1;
        }
    }
    assert(input.take(n) == input);
    out
}

/// The cached posts no older than `cutoff`.
pub fn posts(cached: Vec<Cached>, cutoff: i64) -> (r: Vec<Cached>)
    ensures
        cached_views(r@) == written_since(cached_views(cached@), cutoff),
{
    keep_written_since(cached, cutoff)
}

/// How far back the cache keeps posts for a run over `hours` hours.
pub open spec fn retention_start(now: i64, hours: i64) -> int {
    now - (if hours > MIN_RETENTION_HOURS { hours } else { MIN_RETENTION_HOURS }) * 3600
}

/// The posts to write back: those written within the retention span.
pub fn save_posts(cached: Vec<Cached>, now: i64, hours: i64) -> (r: Vec<Cached>)
    requires
        i64::MIN <= retention_start(now, hours) <= i64::MAX,
        hours <= i64::MAX / 3600,
    ensures
        cached_views(r@) == written_since(cached_views(cached@), retention_start(now, hours) as i64),
{
    let keep_hours = if hours > MIN_RETENTION_HOURS { hours } else { MIN_RETENTION_HOURS };
    let keep = now - keep_hours * 3600;
    keep_written_since(cached, keep)
}

// ---------------------------------------------------------------- briefings

pub struct BriefingView {
    pub at: i64,
    pub hours: i64,
    pub posts: usize,
    pub text: Seq<char>,
}

pub open spec fn briefing_views(v: Seq<Briefing>) -> Seq<BriefingView> {
    v.map_values(|b: Briefing| BriefingView { at: b.at, hours: b.hours, posts: b.posts, text: b.text@ })
}

/// The briefings kept after one more is written: the newest `KEEP_BRIEFINGS`.
pub open spec fn with_briefing(all: Seq<BriefingView>, b: BriefingView) -> Seq<BriefingView> {
    let v = all.push(b);
    if v.len() > KEEP_BRIEFINGS {
        v.skip(v.len() - KEEP_BRIEFINGS)
    } else {
        v
    }
}

/// Records a briefing after the others (oldest first), keeping the newest
/// `KEEP_BRIEFINGS`.
pub fn add_briefing(all: &mut Vec<Briefing>, briefing: Briefing)
    ensures
        briefing_views(final(all)@) == with_briefing(
            briefing_views(old(all)@),
            BriefingView { at: briefing.at, hours: briefing.hours, posts: briefing.posts, text: briefing.text@ },
        ),
{
    let ghost bv = BriefingView { at: briefing.at, hours: briefing.hours, posts: briefing.posts, text: briefing.text@ };
    let ghost before = briefing_views(all@);
    all.push(briefing);
    assert(briefing_views(all@) == before.push(bv));
    let ghost v = before.push(bv);
    if all.len() > KEEP_BRIEFINGS {
        let drop = all.len() - KEEP_BRIEFINGS;
        let mut k: usize = 0;
        while k < drop
            invariant
                drop == v.len() - KEEP_BRIEFINGS,
                k <= drop,
                all@.len() == v.len() - k,
                briefing_views(all@) == v.skip(k as int),
            decreases drop - k,
        {
            all.remove(0);
            assert(v.skip(k + 1) == v.skip(k as int).drop_first());
            k = k + 1;
        }
    }
}

/// The newest briefing written, if any.
pub fn last_briefing(all: Vec<Briefing>) -> (r: Option<Briefing>)
    ensures
        match r {
            Some(b) => all@.len() > 0 && briefing_views(all@).last() == BriefingView { at: b.at, hours: b.hours, posts: b.posts, text: b.text@ },
            None => all@.len() == 0,
        },
{
    let mut all = all;
    all.pop()
}

/// The story a line of a briefing heads: a `## ` line other than `Also`, the
/// leftovers bin.
pub open spec fn heading_of(line: Seq<char>) -> Option<Seq<char>> {
    let t = trimmed(line);
    if has_prefix(t, "## "@) && !same_ignoring_ascii_case(t.skip(3), "also"@) {
        Some(t.skip(3))
    } else {
        None
    }
}

pub open spec fn headings_in(lines: Seq<Seq<char>>) -> Seq<Seq<char>>
    decreases lines.len(),
{
    if lines.len() == 0 {
        Seq::empty()
    } else {
        headings_in(lines.drop_last()) + match heading_of(lines.last()) {
            Some(h) => seq![h],
            None => Seq::empty(),
        }
    }
}

pub open spec fn string_views(v: Seq<String>) -> Seq<Seq<char>> {
    v.map_values(|s: String| s@)
}

/// The story headings of a briefing, in order.
pub fn headings(text: &str) -> (r: Vec<String>)
    ensures
        string_views(r@) == headings_in(line_list(text@)),
{
    let ls = lines_of(text);
    let ghost lv = views(ls@);
    let mut out: Vec<String> = Vec::new();
    let mut i: usize = 0;
    while i < ls.len()
        invariant
            i <= ls.len(),
            lv == views(ls@),
            lv == line_list(text@),
            string_views(out@) == headings_in(lv.take(i as int)),
        decreases ls.len() - i,
    {
        assert(lv.take(i + 1).drop_last() == lv.take(i as int));
        assert(lv.take(i + 1).last() == ls@[i as int]@);
        proof {
            reveal_strlit("## ");
        }
        let line = string_of(ls[i].as_slice());
        let t = trim(line.as_str());
        let ghost before = string_views(out@);
        if crate::text::starts_with(t.as_str(), "## ") {
            let cs = crate::text::chars_of(t.as_str());
            let rest = crate::text::slice_string(cs.as_slice(), 3, cs.len());
            assert(rest@ == t@.skip(3));
            if !eq_ignore_ascii_case(rest.as_str(), "also") {
                out.push(rest);
                assert(string_views(out@) == before + seq![t@.skip(3)]);
            } else {
                assert(string_views(out@) == before + Seq::<Seq<char>>::empty());
            }
        } else {
            assert(string_views(out@) == before + Seq::<Seq<char>>::empty());
        }
        i = i + 1;
    }
    assert(lv.take(ls.len() as int) == lv);
    out
}

/// The headings of the briefings written no earlier than `cutoff`, newest
/// briefing first, so a refresh can be told which stories it has reported.
pub open spec fn covered(all: Seq<BriefingView>, cutoff: i64) -> Seq<Seq<char>>
    decreases all.len(),
{
    if all.len() == 0 {
        Seq::empty()
    } else {
        let b = all.last();
        (if b.at >= cutoff { headings_in(line_list(b.text)) } else { Seq::empty() }) + covered(all.drop_last(), cutoff)
    }
}

pub fn covered_since(all: &Vec<Briefing>, cutoff: i64) -> (r: Vec<String>)
    ensures
        string_views(r@) == covered(briefing_views(all@), cutoff),
{
    let ghost bv = briefing_views(all@);
    let mut out: Vec<String> = Vec::new();
    let mut i: usize = all.len();
    assert(bv.take(all.len() as int) == bv);
    while i > 0
        invariant
            i <= all.len(),
            bv == briefing_views(all@),
            string_views(out@) + covered(bv.take(i as int), cutoff) == covered(bv, cutoff),
        decreases i,
    {
        let b = &all[i - 1];
        let ghost pre = bv.take(i - 1);
        assert(bv.take(i as int).drop_last() == pre);
        assert(bv.take(i as int).last() == bv[i - 1]);
        let ghost before = string_views(out@);
        if b.at >= cutoff {
            let hs = headings(b.text.as_str());
            let mut k: usize = 0;
            while k < hs.len()
                invariant
                    k <= hs.len(),
                    string_views(out@) == before + string_views(hs@).take(k as int),
                decreases hs.len() - k,
            {
                let ghost bo = string_views(out@);
                out.push(owned(hs[k].as_str()));
                assert(string_views(out@) == bo.push(hs@[k as int]@));
                assert(string_views(hs@).take(k + 1) == string_views(hs@).take(k as int).push(hs@[k as int]@));
                k = k + 1;
            }
            assert(string_views(hs@).take(hs.len() as int) == string_views(hs@));
            assert(covered(bv.take(i as int), cutoff) == string_views(hs@) + covered(pre, cutoff));
        } else {
            assert(string_views(out@) == before + Seq::<Seq<char>>::empty());
        }
        i = i - 1;
    }
    assert(bv.take(0) == Seq::<BriefingView>::empty());
    out
}

/// Lines written one after another, each ended by a newline.
pub open spec fn joined_lines(lines: Seq<Seq<char>>) -> Seq<char>
    decreases lines.len(),
{
    if lines.len() == 0 {
        Seq::empty()
    } else {
        joined_lines(lines.drop_last()) + lines.last() + seq!['\n']
    }
}

pub fn join(lines: &[String]) -> (r: String)
    ensures
        r@ == joined_lines(lines@.map_values(|s: String| s@)),
{
    let ghost lv = lines@.map_values(|s: String| s@);
    let mut acc = String::new();
    let mut i: usize = 0;
    while i < lines.len()
        invariant
            i <= lines.len(),
            lv == lines@.map_values(|s: String| s@),
            acc@ == joined_lines(lv.take(i as int)),
        decreases lines.len() - i,
    {
        assert(lv.take(i + 1).drop_last() == lv.take(i as int));
        push_str(&mut acc, lines[i].as_str());
        push_char(&mut acc, '\n');
        i = i + 1;
    }
    assert(lv.take(lines.len() as int) == lv);
    acc
}


// ---------------------------------------------------------------- laws

/// The last briefing is the newest one written.
pub proof fn law_last_briefing_is_the_newest_written(all: Seq<BriefingView>, b: BriefingView)
    ensures
        with_briefing(all, b).len() > 0,
        with_briefing(all, b).last() == b,
{
    let v = all.push(b);
    if v.len() > KEEP_BRIEFINGS {
        assert(v.skip(v.len() - KEEP_BRIEFINGS).last() == v.last());
    }
}

/// Only the newest `KEEP_BRIEFINGS` survive: the kept briefings are the last
/// ones written, in the order they were written.
pub proof fn law_only_the_newest_briefings_survive(all: Seq<BriefingView>, b: BriefingView)
    ensures
        with_briefing(all, b).len() == if all.len() + 1 > KEEP_BRIEFINGS { KEEP_BRIEFINGS as int } else { all.len() + 1int },
        with_briefing(all, b) == all.push(b).skip(all.len() + 1 - with_briefing(all, b).len()),
{
    let v = all.push(b);
    if v.len() <= KEEP_BRIEFINGS {
        assert(v.skip(0) == v);
    }
}

/// Every post the cache hands back was written no earlier than the cutoff,
/// and every such post it held is handed back.
pub proof fn law_posts_are_those_since_the_cutoff(v: Seq<CachedView>, cutoff: i64)
    ensures
        forall|i: int| 0 <= i < written_since(v, cutoff).len() ==> (#[trigger] written_since(v, cutoff)[i]).tweet.created_at >= cutoff,
        forall|k: int| 0 <= k < v.len() && (#[trigger] v[k]).tweet.created_at >= cutoff ==> written_since(v, cutoff).contains(v[k]),
    decreases v.len(),
{
    if v.len() > 0 {
        let p = v.drop_last();
        law_posts_are_those_since_the_cutoff(p, cutoff);
        let w = written_since(v, cutoff);
        let wp = written_since(p, cutoff);
        assert forall|i: int| 0 <= i < w.len() implies (#[trigger] w[i]).tweet.created_at >= cutoff by {
            if i < wp.len() {
                assert(w[i] == wp[i]);
            }
        }
        assert forall|k: int| 0 <= k < v.len() && (#[trigger] v[k]).tweet.created_at >= cutoff implies w.contains(v[k]) by {
            if k < p.len() {
                assert(v[k] == p[k]);
                let j = choose|j: int| 0 <= j < wp.len() && wp[j] == p[k];
                assert(w[j] == wp[j]);
            } else {
                assert(w[w.len() - 1] == v.last());
            }
        }
    }
}

/// The cache serves every window inside the retention span: reading the saved
/// posts from any cutoff no earlier than the retention start gives what
/// reading every post would have given.
pub proof fn law_saving_serves_every_window_within_retention(v: Seq<CachedView>, now: i64, hours: i64, cutoff: i64)
    requires
        i64::MIN <= retention_start(now, hours) <= i64::MAX,
        cutoff >= retention_start(now, hours),
    ensures
        written_since(written_since(v, retention_start(now, hours) as i64), cutoff) == written_since(v, cutoff),
    decreases v.len(),
{
    let keep = retention_start(now, hours) as i64;
    if v.len() > 0 {
        law_saving_serves_every_window_within_retention(v.drop_last(), now, hours, cutoff);
        let w = written_since(v.drop_last(), keep);
        if v.last().tweet.created_at >= keep {
            let wl = w.push(v.last());
            assert(wl.drop_last() == w);
            assert(wl.last() == v.last());
        }
    }
}

} // verus!
