//! What a run decides between fetching and summarizing: which feeds to read,
//! when to stop paging a feed, and which posts go into the prompt.
use vstd::prelude::*;
use crate::text::str_eq;
use crate::x::{tweet_views, Feed, Tweet, TweetView};

verus! {

/// Cap the prompt however many pages the reader asked for.
pub const MAX_TWEETS: usize = 600;

/// Fewer posts than this make no briefing.
pub const MIN_TWEETS: usize = 5;

/// `--for-you-only` and `--following-only` together.
#[derive(Debug, Clone, Copy, PartialEq, Eq, Structural)]
pub struct FeedsConflict;

/// The feeds a run reads: both, unless one of the two `--…-only` flags is set.
pub fn feeds(for_you_only: bool, following_only: bool) -> (r: Result<Vec<Feed>, FeedsConflict>)
    ensures
        match r {
            Ok(v) => !(for_you_only && following_only) && v@ == (
                if for_you_only { seq![Feed::ForYou] }
                else if following_only { seq![Feed::Following] }
                else { seq![Feed::ForYou, Feed::Following] }),
            Err(_) => for_you_only && following_only,
        },
{
    if for_you_only && following_only {
        Err(FeedsConflict)
    } else if for_you_only {
        let v = vec![Feed::ForYou];
        assert(v@ == seq![Feed::ForYou]);
        Ok(v)
    } else if following_only {
        let v = vec![Feed::Following];
        assert(v@ == seq![Feed::Following]);
        Ok(v)
    } else {
        let v = vec![Feed::ForYou, Feed::Following];
        assert(v@ == seq![Feed::ForYou, Feed::Following]);
        Ok(v)
    }
}

// ---------------------------------------------------------------- selecting posts

pub open spec fn ids(s: Seq<TweetView>) -> Seq<Seq<char>> {
    s.map_values(|t: TweetView| t.id)
}

/// The posts no older than `cutoff`, each id once: the first recent copy wins.
pub open spec fn fresh_unique(s: Seq<TweetView>, cutoff: i64) -> Seq<TweetView>
    decreases s.len(),
{
    if s.len() == 0 {
        s
    } else {
        let kept = fresh_unique(s.drop_last(), cutoff);
        let t = s.last();
        if t.created_at >= cutoff && !ids(kept).contains(t.id) {
            kept.push(t)
        } else {
            kept
        }
    }
}

/// Where a post written at `at` goes in a newest-first list: after every post
/// no older than it.
pub open spec fn insert_pos(s: Seq<TweetView>, at: i64) -> nat
    decreases s.len(),
{
    if s.len() == 0 || s[0].created_at < at {
        0
    } else {
        1 + insert_pos(s.drop_first(), at)
    }
}

/// `s` newest first; posts written at the same second keep their order.
pub open spec fn newest_first(s: Seq<TweetView>) -> Seq<TweetView>
    decreases s.len(),
{
    if s.len() == 0 {
        s
    } else {
        let r = newest_first(s.drop_last());
        r.insert(insert_pos(r, s.last().created_at) as int, s.last())
    }
}

/// The posts a briefing is written from: recent, each once, newest first, at
/// most `MAX_TWEETS`.
pub open spec fn selected(all: Seq<TweetView>, cutoff: i64) -> Seq<TweetView> {
    let s = newest_first(fresh_unique(all, cutoff));
    if s.len() > MAX_TWEETS {
        s.take(MAX_TWEETS as int)
    } else {
        s
    }
}

/// Too few recent posts to write a briefing from; how many there were.
#[derive(Debug, Clone, Copy, PartialEq, Eq, Structural)]
pub struct TooFew(pub usize);

fn has_id(kept: &Vec<Tweet>, id: &str) -> (r: bool)
    ensures
        r == ids(tweet_views(kept@)).contains(id@),
{
    let ghost v = ids(tweet_views(kept@));
    let mut i: usize = 0;
    while i < kept.len()
        invariant
            i <= kept.len(),
            v == ids(tweet_views(kept@)),
            forall|k: int| 0 <= k < i ==> v[k] != id@,
        decreases kept.len() - i,
    {
        if str_eq(kept[i].id.as_str(), id) {
            assert(v[i as int] == id@);
            return true;
        }
        i = i + 1;
    }
    false
}

/// Keeps what is recent, each id once, newest first, at most `MAX_TWEETS`;
/// fewer than `MIN_TWEETS` make no briefing.
pub fn select_posts(all: Vec<Tweet>, cutoff: i64) -> (r: Result<Vec<Tweet>, TooFew>)
    ensures
        match r {
            Ok(v) => tweet_views(v@) == selected(tweet_views(all@), cutoff) && v@.len() >= MIN_TWEETS,
            Err(TooFew(n)) => n == selected(tweet_views(all@), cutoff).len() && n < MIN_TWEETS,
        },
{
    let ghost input = tweet_views(all@);
    // Reversed, so that popping hands the posts over in their own order.
    let mut rev: Vec<Tweet> = Vec::new();
    let mut src = all;
    while src.len() > 0
        invariant
            tweet_views(src@) + tweet_views(rev@).reverse() == input,
        decreases src.len(),
    {
        let ghost before_src = tweet_views(src@);
        let ghost before_rev = tweet_views(rev@);
        let t = src.pop().unwrap();
        rev.push(t);
        assert(before_src == tweet_views(src@).push(t@));
        assert(tweet_views(rev@) == before_rev.push(t@));
        assert(tweet_views(rev@).reverse() == seq![t@] + before_rev.reverse());
        assert(tweet_views(src@) + tweet_views(rev@).reverse() == before_src + before_rev.reverse());
    }
    assert(tweet_views(rev@).reverse() == input);
    let mut kept: Vec<Tweet> = Vec::new();
    let ghost mut n: int = 0;
    while rev.len() > 0
        invariant
            0 <= n <= input.len(),
            tweet_views(rev@).reverse() == input.skip(n),
            tweet_views(kept@) == fresh_unique(input.take(n), cutoff),
        decreases rev.len(),
    {
        let ghost before_rev = tweet_views(rev@);
        let t = rev.pop().unwrap();
        assert(before_rev == tweet_views(rev@).push(t@));
        assert(before_rev.reverse() == seq![t@] + tweet_views(rev@).reverse());
        assert(input.skip(n)[0] == t@);
        assert(input.skip(n + 1) == input.skip(n).drop_first());
        assert(input.take(n + 1).drop_last() == input.take(n));
        assert(input.take(n + 1).last() == t@);
        if t.created_at >= cutoff && !has_id(&kept, t.id.as_str()) {
            let ghost before = tweet_views(kept@);
            kept.push(t);
            assert(tweet_views(kept@) == before.push(t@));
        }
        proof {
            n = n + 1;
        }
    }
    assert(input.take(n) == input);
    let ghost fresh = tweet_views(kept@);
    // Insertion, newest first; a post goes after those no older than it.
    let mut sorted: Vec<Tweet> = Vec::new();
    let mut rest: Vec<Tweet> = Vec::new();
    while kept.len() > 0
        invariant
            tweet_views(kept@) + tweet_views(rest@).reverse() == fresh,
        decreases kept.len(),
    {
        let ghost before_kept = tweet_views(kept@);
        let ghost before_rest = tweet_views(rest@);
        let t = kept.pop().unwrap();
        rest.push(t);
        assert(before_kept == tweet_views(kept@).push(t@));
        assert(tweet_views(rest@) == before_rest.push(t@));
        assert(tweet_views(rest@).reverse() == seq![t@] + before_rest.reverse());
        assert(tweet_views(kept@) + tweet_views(rest@).reverse() == before_kept + before_rest.reverse());
    }
    let ghost mut m: int = 0;
    while rest.len() > 0
        invariant
            0 <= m <= fresh.len(),
            tweet_views(rest@).reverse() == fresh.skip(m),
            tweet_views(sorted@) == newest_first(fresh.take(m)),
        decreases rest.len(),
    {
        let ghost before_rest = tweet_views(rest@);
        let t = rest.pop().unwrap();
        assert(before_rest == tweet_views(rest@).push(t@));
        assert(before_rest.reverse() == seq![t@] + tweet_views(rest@).reverse());
        assert(fresh.skip(m)[0] == t@);
        assert(fresh.skip(m + 1) == fresh.skip(m).drop_first());
        assert(fresh.take(m + 1).drop_last() == fresh.take(m));
        assert(fresh.take(m + 1).last() == t@);
        let ghost sv = tweet_views(sorted@);
        let mut p: usize = 0;
        assert(sv.skip(0) == sv);
        while p < sorted.len() && sorted[p].created_at >= t.created_at
            invariant
                p <= sorted.len(),
                sv == tweet_views(sorted@),
                insert_pos(sv, t.created_at) == p + insert_pos(sv.skip(p as int), t.created_at),
            decreases sorted.len() - p,
        {
            assert(sv.skip(p as int).drop_first() == sv.skip(p + 1));
            p = p + 1;
        }
        assert(insert_pos(sv.skip(p as int), t.created_at) == 0);
        sorted.insert(p, t);
        assert(tweet_views(sorted@) == sv.insert(p as int, t@));
        proof {
            m = m + 1;
        }
    }
    assert(fresh.take(m) == fresh);
    if sorted.len() > MAX_TWEETS {
        let ghost before = tweet_views(sorted@);
        sorted.truncate(MAX_TWEETS);
        assert(tweet_views(sorted@) == before.take(MAX_TWEETS as int));
    }
    if sorted.len() < MIN_TWEETS {
        return Err(TooFew(sorted.len()));
    }
    Ok(sorted)
}


// ---------------------------------------------------------------- laws of the selection

pub open spec fn newest_first_order(s: Seq<TweetView>) -> bool {
    forall|i: int, j: int| 0 <= i < j < s.len() ==> (#[trigger] s[i]).created_at >= (#[trigger] s[j]).created_at
}

proof fn lemma_insert_pos(s: Seq<TweetView>, at: i64)
    ensures
        insert_pos(s, at) <= s.len(),
        forall|i: int| 0 <= i < insert_pos(s, at) ==> (#[trigger] s[i]).created_at >= at,
        insert_pos(s, at) < s.len() ==> s[insert_pos(s, at) as int].created_at < at,
    decreases s.len(),
{
    if s.len() > 0 && s[0].created_at >= at {
        lemma_insert_pos(s.drop_first(), at);
        assert forall|i: int| 0 <= i < insert_pos(s, at) implies (#[trigger] s[i]).created_at >= at by {
            if i > 0 {
                assert(s[i] == s.drop_first()[i - 1]);
            }
        }
    }
}

proof fn lemma_newest_first(s: Seq<TweetView>)
    ensures
        newest_first_order(newest_first(s)),
        newest_first(s).to_multiset() == s.to_multiset(),
        newest_first(s).len() == s.len(),
    decreases s.len(),
{
    broadcast use vstd::seq_lib::to_multiset_insert, vstd::seq_lib::to_multiset_build;
    if s.len() > 0 {
        let r = newest_first(s.drop_last());
        lemma_newest_first(s.drop_last());
        let t = s.last();
        lemma_insert_pos(r, t.created_at);
        let p = insert_pos(r, t.created_at) as int;
        let q = r.insert(p, t);
        assert forall|i: int, j: int| 0 <= i < j < q.len() implies (#[trigger] q[i]).created_at >= (#[trigger] q[j]).created_at by {
            if j < p {
                assert(q[i] == r[i] && q[j] == r[j]);
            } else if j == p {
                assert(q[i] == r[i]);
            } else if i < p {
                assert(q[i] == r[i] && q[j] == r[j - 1]);
                assert(r[i].created_at >= r[j - 1].created_at);
            } else if i == p {
                assert(q[j] == r[j - 1]);
                assert(r[p].created_at < t.created_at);
                if j - 1 > p {
                    assert(r[p].created_at >= r[j - 1].created_at);
                }
            } else {
                assert(q[i] == r[i - 1] && q[j] == r[j - 1]);
            }
        }
        assert(s == s.drop_last().push(t));
    }
}

/// The posts of a briefing come newest first.
pub proof fn law_selection_is_newest_first(all: Seq<TweetView>, cutoff: i64)
    ensures
        newest_first_order(selected(all, cutoff)),
{
    lemma_newest_first(fresh_unique(all, cutoff));
}

/// Sorting loses and adds no post: the posts of a briefing, with those the cap
/// cut off after them, are the recent posts, each id once.
pub proof fn law_selection_is_a_reordering(all: Seq<TweetView>, cutoff: i64)
    ensures
        newest_first(fresh_unique(all, cutoff)).to_multiset() == fresh_unique(all, cutoff).to_multiset(),
        selected(all, cutoff) == newest_first(fresh_unique(all, cutoff)).take(selected(all, cutoff).len() as int),
        selected(all, cutoff).len() == if fresh_unique(all, cutoff).len() > MAX_TWEETS {
            MAX_TWEETS as nat
        } else {
            fresh_unique(all, cutoff).len()
        },
{
    lemma_newest_first(fresh_unique(all, cutoff));
    let s = newest_first(fresh_unique(all, cutoff));
    if s.len() <= MAX_TWEETS {
        assert(s.take(s.len() as int) == s);
    }
}

/// The cap keeps the newest: no post cut off is newer than a post kept.
pub proof fn law_the_cap_keeps_the_newest(all: Seq<TweetView>, cutoff: i64, i: int, j: int)
    requires
        0 <= i < MAX_TWEETS <= j < newest_first(fresh_unique(all, cutoff)).len(),
    ensures
        newest_first(fresh_unique(all, cutoff))[i].created_at >= newest_first(fresh_unique(all, cutoff))[j].created_at,
{
    lemma_newest_first(fresh_unique(all, cutoff));
}

proof fn lemma_fresh_unique(s: Seq<TweetView>, cutoff: i64)
    ensures
        forall|i: int| 0 <= i < fresh_unique(s, cutoff).len() ==> (#[trigger] fresh_unique(s, cutoff)[i]).created_at >= cutoff,
        forall|i: int, j: int| 0 <= i < j < fresh_unique(s, cutoff).len() ==>
            (#[trigger] fresh_unique(s, cutoff)[i]).id != (#[trigger] fresh_unique(s, cutoff)[j]).id,
        forall|k: int| 0 <= k < s.len() && (#[trigger] s[k]).created_at >= cutoff ==> ids(fresh_unique(s, cutoff)).contains(s[k].id),
        forall|i: int| 0 <= i < fresh_unique(s, cutoff).len() ==> s.contains(#[trigger] fresh_unique(s, cutoff)[i]),
    decreases s.len(),
{
    if s.len() > 0 {
        let p = s.drop_last();
        lemma_fresh_unique(p, cutoff);
        let kept = fresh_unique(p, cutoff);
        let t = s.last();
        let f = fresh_unique(s, cutoff);
        assert forall|i: int| 0 <= i < f.len() implies s.contains(#[trigger] f[i]) by {
            if i < kept.len() {
                assert(f[i] == kept[i]);
                let k = choose|k: int| 0 <= k < p.len() && p[k] == kept[i];
                assert(s[k] == p[k]);
            } else {
                assert(s[s.len() - 1] == t);
            }
        }
        assert forall|k: int| 0 <= k < s.len() && (#[trigger] s[k]).created_at >= cutoff implies ids(f).contains(s[k].id) by {
            if k < p.len() {
                assert(s[k] == p[k]);
                let w = choose|w: int| 0 <= w < ids(kept).len() && ids(kept)[w] == p[k].id;
                assert(ids(f)[w] == ids(kept)[w]);
            } else {
                if ids(kept).contains(t.id) {
                    let w = choose|w: int| 0 <= w < ids(kept).len() && ids(kept)[w] == t.id;
                    assert(ids(f)[w] == ids(kept)[w]);
                } else {
                    assert(ids(f)[kept.len() as int] == t.id);
                }
            }
        }
        assert forall|i: int, j: int| 0 <= i < j < f.len() implies (#[trigger] f[i]).id != (#[trigger] f[j]).id by {
            if j == kept.len() {
                assert(f[i] == kept[i]);
                assert(ids(kept)[i] == kept[i].id);
            } else {
                assert(f[i] == kept[i] && f[j] == kept[j]);
            }
        }
    }
}

pub open spec fn distinct_ids(s: Seq<TweetView>) -> bool {
    forall|i: int, j: int| 0 <= i < j < s.len() ==> (#[trigger] s[i]).id != (#[trigger] s[j]).id
}

proof fn lemma_newest_first_members(s: Seq<TweetView>)
    ensures
        forall|i: int| 0 <= i < newest_first(s).len() ==> s.contains(#[trigger] newest_first(s)[i]),
        distinct_ids(s) ==> distinct_ids(newest_first(s)),
    decreases s.len(),
{
    if s.len() > 0 {
        let d = s.drop_last();
        lemma_newest_first_members(d);
        lemma_newest_first(d);
        let r = newest_first(d);
        let t = s.last();
        lemma_insert_pos(r, t.created_at);
        let p = insert_pos(r, t.created_at) as int;
        let q = r.insert(p, t);
        assert forall|i: int| 0 <= i < q.len() implies s.contains(#[trigger] q[i]) by {
            if i == p {
                assert(s[s.len() - 1] == t);
            } else {
                let x = if i < p { r[i] } else { r[i - 1] };
                assert(q[i] == x);
                let k = choose|k: int| 0 <= k < d.len() && d[k] == x;
                assert(s[k] == d[k]);
            }
        }
        if distinct_ids(s) {
            assert(distinct_ids(d)) by {
                assert forall|i: int, j: int| 0 <= i < j < d.len() implies (#[trigger] d[i]).id != (#[trigger] d[j]).id by {
                    assert(d[i] == s[i] && d[j] == s[j]);
                }
            }
            assert forall|i: int| 0 <= i < r.len() implies (#[trigger] r[i]).id != t.id by {
                let k = choose|k: int| 0 <= k < d.len() && d[k] == r[i];
                assert(s[k] == d[k]);
                assert(s[s.len() - 1] == t);
            }
            assert forall|i: int, j: int| 0 <= i < j < q.len() implies (#[trigger] q[i]).id != (#[trigger] q[j]).id by {
                if i == p {
                    assert(q[j] == r[j - 1]);
                } else if j == p {
                    assert(q[i] == r[i]);
                } else {
                    let x = if i < p { i } else { i - 1 };
                    let y = if j < p { j } else { j - 1 };
                    assert(q[i] == r[x] && q[j] == r[y]);
                }
            }
        }
    }
}

/// A briefing's posts are all no older than the cutoff, and no id appears twice.
pub proof fn law_selection_is_recent_and_unique(all: Seq<TweetView>, cutoff: i64)
    ensures
        forall|i: int| 0 <= i < selected(all, cutoff).len() ==> (#[trigger] selected(all, cutoff)[i]).created_at >= cutoff,
        distinct_ids(selected(all, cutoff)),
{
    let f = fresh_unique(all, cutoff);
    lemma_fresh_unique(all, cutoff);
    lemma_newest_first(f);
    lemma_newest_first_members(f);
    let s = newest_first(f);
    let sel = selected(all, cutoff);
    assert forall|i: int| 0 <= i < sel.len() implies (#[trigger] sel[i]).created_at >= cutoff by {
        assert(sel[i] == s[i]);
        let k = choose|k: int| 0 <= k < f.len() && f[k] == s[i];
    }
    assert forall|i: int, j: int| 0 <= i < j < sel.len() implies (#[trigger] sel[i]).id != (#[trigger] sel[j]).id by {
        assert(sel[i] == s[i] && sel[j] == s[j]);
    }
}

/// Every recent post of the input has its id among the posts kept before the cap.
pub proof fn law_every_recent_id_is_kept(all: Seq<TweetView>, cutoff: i64)
    ensures
        forall|k: int| 0 <= k < all.len() && (#[trigger] all[k]).created_at >= cutoff ==>
            ids(fresh_unique(all, cutoff)).contains(all[k].id),
{
    lemma_fresh_unique(all, cutoff);
}


// ---------------------------------------------------------------- paging a feed

/// Paging one feed: pages within a feed are chained by cursor and walked in
/// order, one fetch at a time.
pub struct Collector {
    pub feed: Feed,
    /// Ceiling on pages.
    pub pages: u32,
    /// Posts older than this are out of the window.
    pub cutoff: i64,
    /// The page the next fetch asks for, counted from 1.
    pub page: u32,
    /// The cursor the next fetch passes.
    pub cursor: Option<String>,
    /// Everything fetched so far.
    pub out: Vec<Tweet>,
    pub finished: bool,
}

/// What to do after a page came back.
#[derive(Debug)]
pub enum PageOutcome {
    /// Fetch the next page.
    More,
    /// Paging is over; keep what came.
    Enough,
    /// A later page failed, usually on a rate limit; keep what came.
    Stopped(crate::x::TimelineError),
    /// The first page failed, usually an expired session; the feed failed.
    Failed(crate::x::TimelineError),
}

/// How many posts of a page are no older than `cutoff`.
pub open spec fn in_window(s: Seq<TweetView>, cutoff: i64) -> nat
    decreases s.len(),
{
    if s.len() == 0 {
        0
    } else {
        in_window(s.drop_last(), cutoff) + if s.last().created_at >= cutoff { 1nat } else { 0nat }
    }
}

/// How many of `tweets` are no older than `cutoff`.
fn count_recent(tweets: &Vec<Tweet>, cutoff: i64) -> (n: usize)
    ensures
        n as nat == in_window(tweet_views(tweets@), cutoff),
{
    let ghost page_views = tweet_views(tweets@);
    let mut recent: usize = 0;
    let mut i: usize = 0;
    while i < tweets.len()
        invariant
            i <= tweets.len(),
            page_views == tweet_views(tweets@),
            recent as nat == in_window(page_views.take(i as int), cutoff),
            recent <= i,
        decreases tweets.len() - i,
    {
        assert(page_views.take(i + 1).drop_last() == page_views.take(i as int));
        if tweets[i].created_at >= cutoff {
            recent = recent + 1;
        }
        i = i + 1;
    }
    assert(page_views.take(tweets.len() as int) == page_views);
    recent
}

/// Moves `tweets` to the end of `out`, in order.
fn append_all(out: &mut Vec<Tweet>, tweets: Vec<Tweet>)
    ensures
        tweet_views(final(out)@) == tweet_views(old(out)@) + tweet_views(tweets@),
{
    let ghost page_views = tweet_views(tweets@);
    let ghost before = tweet_views(out@);
    let mut rest = tweets;
    let mut moved: Vec<Tweet> = Vec::new();
    while rest.len() > 0
        invariant
            tweet_views(rest@) + tweet_views(moved@).reverse() == page_views,
        decreases rest.len(),
    {
        let ghost br = tweet_views(rest@);
        let ghost bm = tweet_views(moved@);
        let t = rest.pop().unwrap();
        moved.push(t);
        assert(br == tweet_views(rest@).push(t@));
        assert(tweet_views(moved@) == bm.push(t@));
        assert(tweet_views(moved@).reverse() == seq![t@] + bm.reverse());
        assert(tweet_views(rest@) + tweet_views(moved@).reverse() == br + bm.reverse());
    }
    let ghost mut k: int = 0;
    while moved.len() > 0
        invariant
            0 <= k <= page_views.len(),
            tweet_views(moved@).reverse() == page_views.skip(k),
            tweet_views(out@) == before + page_views.take(k),
        decreases moved.len(),
    {
        let ghost bm = tweet_views(moved@);
        let ghost bo = tweet_views(out@);
        let t = moved.pop().unwrap();
        assert(bm == tweet_views(moved@).push(t@));
        assert(bm.reverse() == seq![t@] + tweet_views(moved@).reverse());
        assert(page_views.skip(k)[0] == t@);
        assert(page_views.skip(k + 1) == page_views.skip(k).drop_first());
        assert(page_views.take(k + 1) == page_views.take(k).push(t@));
        out.push(t);
        assert(tweet_views(out@) == bo.push(t@));
        proof {
            k = k + 1;
        }
    }
    assert(page_views.take(k) == page_views);
}

impl Collector {
    /// Ready to fetch page 1 of `feed`.
    pub fn new(feed: Feed, pages: u32, cutoff: i64) -> (c: Collector)
        ensures
            c.feed == feed,
            c.pages == pages,
            c.cutoff == cutoff,
            c.page == 1,
            c.cursor is None,
            c.out@.len() == 0,
            !c.finished,
    {
        Collector { feed, pages, cutoff, page: 1, cursor: None, out: Vec::new(), finished: false }
    }

    /// Whether another page is to be fetched.
    pub fn wants_page(&self) -> (r: bool)
        ensures
            r == (!self.finished && 1 <= self.page <= self.pages),
    {
        !self.finished && 1 <= self.page && self.page <= self.pages
    }

    /// Takes the answer to the fetch of page `self.page`. A page with posts
    /// but none in the window means paging has left the window; enough posts
    /// for the prompt, or no cursor to follow, also end it.
    pub fn on_page(&mut self, fetched: Result<crate::x::Page, crate::x::TimelineError>) -> (r: PageOutcome)
        requires
            !old(self).finished,
            1 <= old(self).page <= old(self).pages,
        ensures
            final(self).feed == old(self).feed,
            final(self).pages == old(self).pages,
            final(self).cutoff == old(self).cutoff,
            match fetched {
                Err(e) => {
                    &&& final(self).finished
                    &&& tweet_views(final(self).out@) == tweet_views(old(self).out@)
                    &&& (if old(self).page == 1 { r == PageOutcome::Failed(e) } else { r == PageOutcome::Stopped(e) })
                },
                Ok(p) => {
                    let count = p.tweets@.len();
                    let out = tweet_views(old(self).out@) + tweet_views(p.tweets@);
                    &&& tweet_views(final(self).out@) == out
                    &&& if count > 0 && in_window(tweet_views(p.tweets@), old(self).cutoff) == 0 {
                        r is Enough && final(self).finished
                    } else if out.len() >= MAX_TWEETS {
                        r is Enough && final(self).finished
                    } else if count > 0 && p.next_cursor is Some && old(self).page < old(self).pages {
                        &&& r is More
                        &&& !final(self).finished
                        &&& final(self).page == old(self).page + 1
                        &&& final(self).cursor == p.next_cursor
                    } else {
                        r is Enough && final(self).finished
                    }
                },
            },
    {
        match fetched {
            Err(e) => {
                self.finished = true;
                if self.page == 1 {
                    PageOutcome::Failed(e)
                } else {
                    PageOutcome::Stopped(e)
                }
            },
            Ok(p) => {
                let crate::x::Page { tweets, next_cursor } = p;
                let count = tweets.len();
                let recent = count_recent(&tweets, self.cutoff);
                append_all(&mut self.out, tweets);
                if count > 0 && recent == 0 {
                    self.finished = true;
                    return PageOutcome::Enough;
                }
                if self.out.len() >= MAX_TWEETS {
                    self.finished = true;
                    return PageOutcome::Enough;
                }
                match next_cursor {
                    Some(c) => {
                        if count > 0 && self.page < self.pages {
                            self.cursor = Some(c);
                            self.page = self.page + 1;
                            PageOutcome::More
                        } else {
                            self.finished = true;
                            PageOutcome::Enough
                        }
                    },
                    None => {
                        self.finished = true;
                        PageOutcome::Enough
                    },
                }
            },
        }
    }

    /// Everything fetched.
    pub fn into_tweets(self) -> (r: Vec<Tweet>)
        ensures
            r@ == self.out@,
    {
        self.out
    }
}

} // verus!
