//! X's home timelines: which operation serves a feed, and how a page of the
//! GraphQL response becomes posts and the cursor of the next page.
use vstd::prelude::*;
use crate::json::{deref, str_of, lemma_member2_smaller, lemma_member_smaller, member, member2, member3, member4, opt_array, opt_str, opt_u64, size, Json};
use crate::text::{chars_of, has_prefix, owned, push_char, push_str, starts_with, str_eq, string_of};

verus! {

/// Posts asked for per page.
pub const PAGE_SIZE: u32 = 40;

/// GraphQL operation ids. X rotates these; when a call starts returning 404,
/// copy the fresh id out of a `graphql/<id>/HomeTimeline` request in devtools.
pub const HOME_TIMELINE_ID: &'static str = "3tb-_5Lf7kdCZ1cFHmsEfg";

pub const HOME_LATEST_TIMELINE_ID: &'static str = "eObmT5Nuapp04u8bYWf49Q";

#[derive(Debug, Clone, Copy, PartialEq, Eq, Structural)]
pub enum Feed {
    ForYou,
    Following,
}

impl Feed {
    pub fn label(self) -> (r: &'static str)
        ensures
            r@ == (match self {
                Feed::ForYou => "For You"@,
                Feed::Following => "Following"@,
            }),
    {
        match self {
            Feed::ForYou => "For You",
            Feed::Following => "Following",
        }
    }

    /// The GraphQL operation id and name that serve the feed.
    pub fn operation(self) -> (r: (&'static str, &'static str))
        ensures
            r.0@ == (match self {
                Feed::ForYou => HOME_TIMELINE_ID@,
                Feed::Following => HOME_LATEST_TIMELINE_ID@,
            }),
            r.1@ == (match self {
                Feed::ForYou => "HomeTimeline"@,
                Feed::Following => "HomeLatestTimeline"@,
            }),
    {
        match self {
            Feed::ForYou => (HOME_TIMELINE_ID, "HomeTimeline"),
            Feed::Following => (HOME_LATEST_TIMELINE_ID, "HomeLatestTimeline"),
        }
    }
}

/// One post. `created_at` is in seconds since the Unix epoch, UTC.
#[derive(Debug)]
pub struct Tweet {
    pub id: String,
    pub handle: String,
    pub created_at: i64,
    pub text: String,
    pub likes: u64,
    pub retweets: u64,
    pub replies: u64,
    pub is_reply: bool,
    pub has_media: bool,
    /// Who retweeted it into the feed, when this arrived as a retweet.
    pub retweeted_by: Option<String>,
    pub quoted: Option<Box<Tweet>>,
}

/// A post as values.
pub struct TweetView {
    pub id: Seq<char>,
    pub handle: Seq<char>,
    pub created_at: i64,
    pub text: Seq<char>,
    pub likes: u64,
    pub retweets: u64,
    pub replies: u64,
    pub is_reply: bool,
    pub has_media: bool,
    pub retweeted_by: Option<Seq<char>>,
    pub quoted: Option<Box<TweetView>>,
}

pub open spec fn opt_view(o: Option<String>) -> Option<Seq<char>> {
    match o {
        Some(s) => Some(s@),
        None => None,
    }
}

pub open spec fn tweet_view(t: Tweet) -> TweetView
    decreases t,
{
    TweetView {
        id: t.id@,
        handle: t.handle@,
        created_at: t.created_at,
        text: t.text@,
        likes: t.likes,
        retweets: t.retweets,
        replies: t.replies,
        is_reply: t.is_reply,
        has_media: t.has_media,
        retweeted_by: opt_view(t.retweeted_by),
        quoted: match t.quoted {
            Some(q) => Some(Box::new(tweet_view(*q))),
            None => None,
        },
    }
}

impl View for Tweet {
    type V = TweetView;

    open spec fn view(&self) -> TweetView {
        tweet_view(*self)
    }
}

// ---------------------------------------------------------------- time

/// The instant, in seconds since the epoch, that chrono reads out of `raw` in
/// X's `"%a %b %d %H:%M:%S %z %Y"` format, if it reads one.
pub uninterp spec fn x_time(raw: Seq<char>) -> Option<i64>;

/// `DateTime::parse_from_str(raw, "%a %b %d %H:%M:%S %z %Y")` from chrono,
/// as a Unix timestamp. What it accepts and what it returns are named, not
/// stated.
#[verifier::external_body]
fn chrono_parse_x_time(raw: &str) -> (r: Option<i64>)
    ensures
        r == x_time(raw@),
{
    chrono::DateTime::parse_from_str(raw, "%a %b %d %H:%M:%S %z %Y").ok().map(|t| t.timestamp())
}

/// X sends "Wed Oct 10 20:19:24 +0000 2018".
pub fn parse_time(raw: &str) -> (r: Option<i64>)
    ensures
        r == x_time(raw@),
{
    chrono_parse_x_time(raw)
}

// ---------------------------------------------------------------- posts

/// A restricted post comes wrapped in a visibility envelope; a tombstone is no post.
pub open spec fn unwrapped(result: Json) -> Option<Json> {
    let kind = opt_str(member(result, "__typename"@));
    if kind == Some("TweetWithVisibilityResults"@) {
        member(result, "tweet"@)
    } else if kind == Some("TweetTombstone"@) {
        None
    } else {
        Some(result)
    }
}

/// The author's handle: under `core` in the current shape, under `legacy` in the old one.
pub open spec fn handle_in(result: Json) -> Option<Seq<char>> {
    match member3(result, "core"@, "user_results"@, "result"@) {
        Some(user) => opt_str(
            match member2(user, "core"@, "screen_name"@) {
                Some(v) => Some(v),
                None => member2(user, "legacy"@, "screen_name"@),
            },
        ),
        None => None,
    }
}

/// The long-form text of a note tweet, else the full text.
pub open spec fn text_in(res: Json, legacy: Json) -> Option<Seq<char>> {
    match opt_str(member4(res, "note_tweet"@, "note_tweet_results"@, "result"@, "text"@)) {
        Some(t) => Some(t),
        None => opt_str(member(legacy, "full_text"@)),
    }
}

/// Where a quoted post sits: under `legacy` first, else beside it.
pub open spec fn quoted_in(res: Json, legacy: Json) -> Option<Json> {
    match member2(legacy, "quoted_status_result"@, "result"@) {
        Some(q) => Some(q),
        None => member2(res, "quoted_status_result"@, "result"@),
    }
}

/// A counter, zero when absent or not a non-negative integer.
pub open spec fn count_in(legacy: Json, key: Seq<char>) -> u64 {
    match opt_u64(member(legacy, key)) {
        Some(n) => n,
        None => 0,
    }
}

pub open spec fn media_in(legacy: Json) -> bool {
    match opt_array(member2(legacy, "entities"@, "media"@)) {
        Some(m) => m.len() > 0,
        None => false,
    }
}

/// The post that a `tweet_results.result` node describes, if it describes one.
pub open spec fn parsed_tweet(result: Json) -> Option<TweetView>
    decreases size(result),
{
    match unwrapped(result) {
        None => None,
        Some(res) => {
            match member(res, "legacy"@) {
                None => None,
                Some(legacy) => {
                    proof {
                        lemma_member_smaller(result, "tweet"@);
                        lemma_member_smaller(res, "legacy"@);
                        lemma_member2_smaller(legacy, "retweeted_status_result"@, "result"@);
                    }
                    match member2(legacy, "retweeted_status_result"@, "result"@) {
                        Some(inner) => match parsed_tweet(inner) {
                            Some(t) => Some(TweetView { retweeted_by: handle_in(res), ..t }),
                            None => None,
                        },
                        None => {
                            proof {
                                lemma_member2_smaller(legacy, "quoted_status_result"@, "result"@);
                                lemma_member2_smaller(res, "quoted_status_result"@, "result"@);
                            }
                            let quoted = match quoted_in(res, legacy) {
                                Some(q) => match parsed_tweet(q) {
                                    Some(t) => Some(Box::new(t)),
                                    None => None,
                                },
                                None => None,
                            };
                            match (
                                text_in(res, legacy),
                                opt_str(member(legacy, "id_str"@)),
                                handle_in(res),
                                opt_str(member(legacy, "created_at"@)),
                            ) {
                                (Some(text), Some(id), Some(handle), Some(raw)) => match x_time(raw) {
                                    Some(at) => Some(
                                        TweetView {
                                            id,
                                            handle,
                                            created_at: at,
                                            text,
                                            likes: count_in(legacy, "favorite_count"@),
                                            retweets: count_in(legacy, "retweet_count"@),
                                            replies: count_in(legacy, "reply_count"@),
                                            is_reply: opt_str(member(legacy, "in_reply_to_status_id_str"@)) is Some,
                                            has_media: media_in(legacy),
                                            retweeted_by: None,
                                            quoted,
                                        },
                                    ),
                                    None => None,
                                },
                                _ => None,
                            }
                        },
                    }
                },
            }
        },
    }
}

/// A non-negative integer member of `node`, zero when it is absent or not one.
pub open spec fn counter_at(node: Json, key: Seq<char>) -> u64 {
    match opt_u64(member(node, key)) {
        Some(n) => n,
        None => 0,
    }
}

/// A post node that is neither wrapped in a visibility envelope nor a
/// tombstone, and that is not a retweet: it has a `legacy` member without a
/// `retweeted_status_result.result`.
pub open spec fn plain_post_node(result: Json) -> bool {
    &&& opt_str(member(result, "__typename"@)) != Some("TweetWithVisibilityResults"@)
    &&& opt_str(member(result, "__typename"@)) != Some("TweetTombstone"@)
    &&& member(result, "legacy"@) is Some
    &&& member2(member(result, "legacy"@)->0, "retweeted_status_result"@, "result"@) is None
}

/// A plain post is read from its own keys: the id from `legacy.id_str`; the
/// text from `note_tweet.note_tweet_results.result.text`, else
/// `legacy.full_text`; the author from the user's `core.screen_name`, else its
/// `legacy.screen_name`; the time from `legacy.created_at`; likes, retweets and
/// replies from `legacy.favorite_count`, `legacy.retweet_count` and
/// `legacy.reply_count` (zero when absent); a reply when
/// `legacy.in_reply_to_status_id_str` is a string; media when
/// `legacy.entities.media` is a non-empty array; not a retweet; quoting the
/// post under `legacy.quoted_status_result.result`, else under the node's own
/// `quoted_status_result.result`, when that reads. It is read
/// exactly when the id, text, author and a readable time are all there.
pub proof fn law_a_plain_post_is_read_from_its_keys(result: Json)
    requires
        plain_post_node(result),
    ensures
        ({
            let legacy = member(result, "legacy"@)->0;
            let id = opt_str(member(legacy, "id_str"@));
            let text = match opt_str(member4(result, "note_tweet"@, "note_tweet_results"@, "result"@, "text"@)) {
                Some(t) => Some(t),
                None => opt_str(member(legacy, "full_text"@)),
            };
            let handle = match member3(result, "core"@, "user_results"@, "result"@) {
                Some(user) => match member2(user, "core"@, "screen_name"@) {
                    Some(v) => str_of(v),
                    None => opt_str(member2(user, "legacy"@, "screen_name"@)),
                },
                None => None,
            };
            let at = match opt_str(member(legacy, "created_at"@)) {
                Some(raw) => x_time(raw),
                None => None,
            };
            let quoted = match member2(legacy, "quoted_status_result"@, "result"@) {
                Some(q) => Some(q),
                None => member2(result, "quoted_status_result"@, "result"@),
            };
            &&& (parsed_tweet(result) is Some <==> (id is Some && text is Some && handle is Some && at is Some))
            &&& (parsed_tweet(result) matches Some(t) ==> {
                &&& Some(t.id) == id
                &&& Some(t.text) == text
                &&& Some(t.handle) == handle
                &&& Some(t.created_at) == at
                &&& t.likes == counter_at(legacy, "favorite_count"@)
                &&& t.retweets == counter_at(legacy, "retweet_count"@)
                &&& t.replies == counter_at(legacy, "reply_count"@)
                &&& t.is_reply == (opt_str(member(legacy, "in_reply_to_status_id_str"@)) is Some)
                &&& t.has_media == (opt_array(member2(legacy, "entities"@, "media"@)) matches Some(m) && m.len() > 0)
                &&& t.retweeted_by is None
                &&& t.quoted == match quoted {
                    Some(q) => match parsed_tweet(q) {
                        Some(u) => Some(Box::new(u)),
                        None => None,
                    },
                    None => None,
                }
            })
        }),
{
    let legacy = member(result, "legacy"@)->0;
    assert(unwrapped(result) == Some(result));
    match member3(result, "core"@, "user_results"@, "result"@) {
        Some(user) => {
            match member2(user, "core"@, "screen_name"@) {
                Some(v) => assert(opt_str(Some(v)) == str_of(v)),
                None => {},
            }
        },
        None => {},
    }
}

/// A restricted post is read inside its visibility envelope, from the node
/// under `tweet`; a tombstone is no post.
pub proof fn law_an_envelope_is_opened_and_a_tombstone_skipped(result: Json)
    ensures
        opt_str(member(result, "__typename"@)) == Some("TweetTombstone"@) ==> parsed_tweet(result) is None,
        (opt_str(member(result, "__typename"@)) == Some("TweetWithVisibilityResults"@) && member(result, "tweet"@) is None)
            ==> parsed_tweet(result) is None,
        (opt_str(member(result, "__typename"@)) == Some("TweetWithVisibilityResults"@) && member(result, "tweet"@) is Some
            && opt_str(member(member(result, "tweet"@)->0, "__typename"@)) != Some("TweetWithVisibilityResults"@)
            && opt_str(member(member(result, "tweet"@)->0, "__typename"@)) != Some("TweetTombstone"@))
            ==> parsed_tweet(result) == parsed_tweet(member(result, "tweet"@)->0),
{
    reveal_strlit("TweetTombstone");
    reveal_strlit("TweetWithVisibilityResults");
    assert("TweetTombstone"@ != "TweetWithVisibilityResults"@) by {
        assert("TweetTombstone"@.len() != "TweetWithVisibilityResults"@.len());
    }
    if let Some(inner) = member(result, "tweet"@) {
        if opt_str(member(inner, "__typename"@)) != Some("TweetWithVisibilityResults"@)
            && opt_str(member(inner, "__typename"@)) != Some("TweetTombstone"@) {
            assert(unwrapped(inner) == Some(inner));
        }
    }
}

/// A retweet reports the retweeted post, with who passed it along: the post
/// under `legacy.retweeted_status_result.result`, its `retweeted_by` the
/// retweeting node's author.
pub proof fn law_a_retweet_reports_the_retweeted_post(result: Json)
    requires
        opt_str(member(result, "__typename"@)) != Some("TweetWithVisibilityResults"@),
        opt_str(member(result, "__typename"@)) != Some("TweetTombstone"@),
        member(result, "legacy"@) is Some,
        member2(member(result, "legacy"@)->0, "retweeted_status_result"@, "result"@) is Some,
    ensures
        ({
            let inner = member2(member(result, "legacy"@)->0, "retweeted_status_result"@, "result"@)->0;
            let by = match member3(result, "core"@, "user_results"@, "result"@) {
                Some(user) => match member2(user, "core"@, "screen_name"@) {
                    Some(v) => str_of(v),
                    None => opt_str(member2(user, "legacy"@, "screen_name"@)),
                },
                None => None,
            };
            &&& (parsed_tweet(result) is Some <==> parsed_tweet(inner) is Some)
            &&& (parsed_tweet(inner) matches Some(u) ==> parsed_tweet(result) == Some(TweetView { retweeted_by: by, ..u }))
        }),
{
    assert(unwrapped(result) == Some(result));
    match member3(result, "core"@, "user_results"@, "result"@) {
        Some(user) => {
            match member2(user, "core"@, "screen_name"@) {
                Some(v) => assert(opt_str(Some(v)) == str_of(v)),
                None => {},
            }
        },
        None => {},
    }
}

pub open spec fn opt_tweet_view(o: Option<Tweet>) -> Option<TweetView> {
    match o {
        Some(t) => Some(t@),
        None => None,
    }
}

/// X moved the handle from `legacy` into `core`; both shapes are still live.
pub fn handle_of(result: &Json) -> (r: Option<String>)
    ensures
        opt_view(r) == handle_in(*result),
{
    let user = match result.get3("core", "user_results", "result") {
        Some(u) => u,
        None => return None,
    };
    let named = match user.get2("core", "screen_name") {
        Some(v) => Some(v),
        None => user.get2("legacy", "screen_name"),
    };
    match named {
        Some(v) => match v.as_str() {
            Some(s) => Some(owned(s)),
            None => None,
        },
        None => None,
    }
}

/// A counter of the post, zero when absent.
pub fn count(legacy: &Json, key: &str) -> (r: u64)
    ensures
        r == count_in(*legacy, key@),
{
    match legacy.get(key) {
        Some(v) => match v.as_u64() {
            Some(n) => n,
            None => 0,
        },
        None => 0,
    }
}


/// The post that a `tweet_results.result` node describes: a retweet reports
/// the retweeted post with who passed it along, a tombstone is none.
pub fn parse_tweet(result: &Json) -> (r: Option<Tweet>)
    ensures
        opt_tweet_view(r) == parsed_tweet(*result),
    decreases size(*result),
{
    let res: &Json = match result.get("__typename") {
        Some(kind) => match kind.as_str() {
            Some(k) => {
                if str_eq(k, "TweetWithVisibilityResults") {
                    match result.get("tweet") {
                        Some(t) => t,
                        None => return None,
                    }
                } else if str_eq(k, "TweetTombstone") {
                    return None;
                } else {
                    result
                }
            },
            None => result,
        },
        None => result,
    };
    assert(unwrapped(*result) == Some(*res));
    proof {
        lemma_member_smaller(*result, "tweet"@);
    }
    let legacy = match res.get("legacy") {
        Some(l) => l,
        None => return None,
    };
    proof {
        lemma_member_smaller(*res, "legacy"@);
        lemma_member2_smaller(*legacy, "retweeted_status_result"@, "result"@);
        lemma_member2_smaller(*legacy, "quoted_status_result"@, "result"@);
        lemma_member2_smaller(*res, "quoted_status_result"@, "result"@);
    }
    if let Some(inner) = legacy.get2("retweeted_status_result", "result") {
        let mut tweet = match parse_tweet(inner) {
            Some(t) => t,
            None => return None,
        };
        tweet.retweeted_by = handle_of(res);
        return Some(tweet);
    }
    let text_node = match res.get4("note_tweet", "note_tweet_results", "result", "text") {
        Some(v) => match v.as_str() {
            Some(t) => Some(t),
            None => None,
        },
        None => None,
    };
    let text = match text_node {
        Some(t) => owned(t),
        None => match legacy.get("full_text") {
            Some(v) => match v.as_str() {
                Some(t) => owned(t),
                None => return None,
            },
            None => return None,
        },
    };
    let quoted_node = match legacy.get2("quoted_status_result", "result") {
        Some(q) => Some(q),
        None => res.get2("quoted_status_result", "result"),
    };
    let quoted = match quoted_node {
        Some(q) => match parse_tweet(q) {
            Some(t) => Some(Box::new(t)),
            None => None,
        },
        None => None,
    };
    let id = match legacy.get("id_str") {
        Some(v) => match v.as_str() {
            Some(i) => owned(i),
            None => return None,
        },
        None => return None,
    };
    let handle = match handle_of(res) {
        Some(h) => h,
        None => return None,
    };
    let created_at = match legacy.get("created_at") {
        Some(v) => match v.as_str() {
            Some(raw) => match parse_time(raw) {
                Some(at) => at,
                None => return None,
            },
            None => return None,
        },
        None => return None,
    };
    let is_reply = match legacy.get("in_reply_to_status_id_str") {
        Some(v) => v.as_str().is_some(),
        None => false,
    };
    let has_media = match legacy.get2("entities", "media") {
        Some(v) => match v.as_array() {
            Some(m) => m.len() > 0,
            None => false,
        },
        None => false,
    };
    Some(Tweet {
        id,
        handle,
        created_at,
        text,
        likes: count(legacy, "favorite_count"),
        retweets: count(legacy, "retweet_count"),
        replies: count(legacy, "reply_count"),
        is_reply,
        has_media,
        retweeted_by: None,
        quoted,
    })
}


// ---------------------------------------------------------------- pages

#[derive(Debug)]
pub struct Page {
    pub tweets: Vec<Tweet>,
    pub next_cursor: Option<String>,
}

pub open spec fn tweet_views(v: Seq<Tweet>) -> Seq<TweetView> {
    v.map_values(|t: Tweet| t@)
}

pub open spec fn maybe(o: Option<TweetView>) -> Seq<TweetView> {
    match o {
        Some(t) => seq![t],
        None => Seq::empty(),
    }
}

/// The post of a timeline item, when the item is a tweet.
pub open spec fn item_tweet(item_content: Option<Json>) -> Option<TweetView> {
    match item_content {
        Some(item) => {
            if opt_str(member(item, "itemType"@)) == Some("TimelineTweet"@) {
                match member2(item, "tweet_results"@, "result"@) {
                    Some(r) => parsed_tweet(r),
                    None => None,
                }
            } else {
                None
            }
        },
        None => None,
    }
}

/// The posts of the items of a conversation module, in order.
pub open spec fn module_tweets(items: Seq<Json>) -> Seq<TweetView>
    decreases items.len(),
{
    if items.len() == 0 {
        Seq::empty()
    } else {
        module_tweets(items.drop_last()) + maybe(item_tweet(member2(items.last(), "item"@, "itemContent"@)))
    }
}

pub open spec fn entry_id(entry: Json) -> Seq<char> {
    match opt_str(member(entry, "entryId"@)) {
        Some(id) => id,
        None => Seq::empty(),
    }
}

pub open spec fn is_cursor_entry(entry: Json) -> bool {
    has_prefix(entry_id(entry), "cursor-bottom"@)
}

pub open spec fn content_of(entry: Json) -> Json {
    match member(entry, "content"@) {
        Some(c) => c,
        None => Json::Null,
    }
}

/// The posts one timeline entry holds: one for an item, several for a module.
pub open spec fn entry_tweets(entry: Json) -> Seq<TweetView> {
    if is_cursor_entry(entry) {
        Seq::empty()
    } else {
        let content = content_of(entry);
        let kind = opt_str(member(content, "entryType"@));
        if kind == Some("TimelineTimelineItem"@) {
            maybe(item_tweet(member(content, "itemContent"@)))
        } else if kind == Some("TimelineTimelineModule"@) {
            match opt_array(member(content, "items"@)) {
                Some(items) => module_tweets(items),
                None => Seq::empty(),
            }
        } else {
            Seq::empty()
        }
    }
}

/// The cursor a bottom-cursor entry carries.
pub open spec fn entry_cursor(entry: Json) -> Option<Seq<char>> {
    if is_cursor_entry(entry) {
        opt_str(member(content_of(entry), "value"@))
    } else {
        None
    }
}

pub open spec fn entries_of(instruction: Json) -> Seq<Json> {
    match opt_array(member(instruction, "entries"@)) {
        Some(es) => es,
        None => Seq::empty(),
    }
}

/// Every entry of every instruction, in order.
pub open spec fn all_entries(instructions: Seq<Json>) -> Seq<Json>
    decreases instructions.len(),
{
    if instructions.len() == 0 {
        Seq::empty()
    } else {
        all_entries(instructions.drop_last()) + entries_of(instructions.last())
    }
}

pub open spec fn entries_tweets(es: Seq<Json>) -> Seq<TweetView>
    decreases es.len(),
{
    if es.len() == 0 {
        Seq::empty()
    } else {
        entries_tweets(es.drop_last()) + entry_tweets(es.last())
    }
}

/// The cursor of the last bottom-cursor entry that carries one.
pub open spec fn last_cursor(es: Seq<Json>) -> Option<Seq<char>>
    decreases es.len(),
{
    if es.len() == 0 {
        None
    } else {
        match entry_cursor(es.last()) {
            Some(c) => Some(c),
            None => last_cursor(es.drop_last()),
        }
    }
}

// ---------------------------------------------------------------- laws of a page

/// The cursor an entry offers, read by its keys: an entry whose `entryId`
/// starts with "cursor-bottom" offers the string under `content.value`.
pub open spec fn offered_cursor(e: Json) -> Option<Seq<char>> {
    match opt_str(member(e, "entryId"@)) {
        Some(id) => if has_prefix(id, "cursor-bottom"@) {
            match member(e, "content"@) {
                Some(c) => opt_str(member(c, "value"@)),
                None => None,
            }
        } else {
            None
        },
        None => None,
    }
}

/// The next cursor is the one the last entry offering a cursor offers; with
/// no such entry there is none.
pub proof fn law_the_next_cursor_is_the_last_offered(es: Seq<Json>)
    ensures
        last_cursor(es) is None <==> forall|k: int| 0 <= k < es.len() ==> offered_cursor(#[trigger] es[k]) is None,
        last_cursor(es) matches Some(c) ==> exists|k: int|
            0 <= k < es.len() && offered_cursor(#[trigger] es[k]) == Some(c)
            && forall|j: int| k < j < es.len() ==> offered_cursor(#[trigger] es[j]) is None,
    decreases es.len(),
{
    if es.len() > 0 {
        let p = es.drop_last();
        law_the_next_cursor_is_the_last_offered(p);
        let e = es.last();
        assert(es[es.len() - 1] == e);
        assert(entry_cursor(e) == offered_cursor(e)) by {
            reveal_strlit("cursor-bottom");
            if member(e, "content"@) is None {
                assert(content_of(e) == Json::Null);
            }
        }
        assert forall|k: int| 0 <= k < p.len() implies #[trigger] es[k] == p[k] by {}
        if entry_cursor(e) is None {
            if let Some(c) = last_cursor(p) {
                let k = choose|k: int| 0 <= k < p.len() && offered_cursor(#[trigger] p[k]) == Some(c)
                    && forall|j: int| k < j < p.len() ==> offered_cursor(#[trigger] p[j]) is None;
                assert(es[k] == p[k]);
                assert forall|j: int| k < j < es.len() implies offered_cursor(#[trigger] es[j]) is None by {
                    if j < p.len() {
                        assert(es[j] == p[j]);
                    }
                }
            } else {
                assert forall|k: int| 0 <= k < es.len() implies offered_cursor(#[trigger] es[k]) is None by {
                    if k < p.len() {
                        assert(es[k] == p[k]);
                    }
                }
            }
        }
    }
}

/// The posts of entries come in the order of the entries: those of a run of
/// entries followed by another are the posts of the first, then of the second.
pub proof fn law_posts_keep_the_order_of_entries(a: Seq<Json>, b: Seq<Json>)
    ensures
        entries_tweets(a + b) == entries_tweets(a) + entries_tweets(b),
    decreases b.len(),
{
    if b.len() == 0 {
        assert(a + b == a);
    } else {
        assert((a + b).drop_last() == a + b.drop_last());
        assert((a + b).last() == b.last());
        law_posts_keep_the_order_of_entries(a, b.drop_last());
    }
}

/// The entries of the instructions come in the order of the instructions,
/// each instruction's `entries` array in its own order.
pub proof fn law_entries_keep_the_order_of_instructions(a: Seq<Json>, b: Seq<Json>)
    ensures
        all_entries(a + b) == all_entries(a) + all_entries(b),
    decreases b.len(),
{
    if b.len() == 0 {
        assert(a + b == a);
    } else {
        assert((a + b).drop_last() == a + b.drop_last());
        assert((a + b).last() == b.last());
        law_entries_keep_the_order_of_instructions(a, b.drop_last());
    }
}

/// What one entry holds, read by its keys: a cursor entry no post; a single
/// item whose `itemContent.itemType` is "TimelineTweet" the post under its
/// `itemContent.tweet_results.result`, when that reads; an item of another
/// type none; a conversation module the posts of its `items` in order.
pub proof fn law_an_entry_holds_its_posts(e: Json)
    ensures
        ({
            let id = opt_str(member(e, "entryId"@));
            let is_cursor = id matches Some(i) && has_prefix(i, "cursor-bottom"@);
            let content = member(e, "content"@);
            let kind = match content { Some(c) => opt_str(member(c, "entryType"@)), None => None };
            &&& is_cursor ==> entries_tweets(seq![e]) == Seq::<TweetView>::empty()
            &&& (!is_cursor && kind == Some("TimelineTimelineItem"@)) ==> {
                let item = member(content->0, "itemContent"@);
                let is_tweet = item is Some && opt_str(member(item->0, "itemType"@)) == Some("TimelineTweet"@);
                let result = if is_tweet { member2(item->0, "tweet_results"@, "result"@) } else { None };
                &&& (is_tweet && result is Some && parsed_tweet(result->0) is Some)
                    ==> entries_tweets(seq![e]) == seq![parsed_tweet(result->0)->0]
                &&& !(is_tweet && result is Some && parsed_tweet(result->0) is Some)
                    ==> entries_tweets(seq![e]) == Seq::<TweetView>::empty()
            }
            &&& (!is_cursor && kind == Some("TimelineTimelineModule"@)) ==> {
                match opt_array(member(content->0, "items"@)) {
                    Some(items) => entries_tweets(seq![e]) == module_tweets(items),
                    None => entries_tweets(seq![e]) == Seq::<TweetView>::empty(),
                }
            }
            &&& (!is_cursor && kind != Some("TimelineTimelineItem"@) && kind != Some("TimelineTimelineModule"@))
                ==> entries_tweets(seq![e]) == Seq::<TweetView>::empty()
        }),
{
    reveal_strlit("cursor-bottom");
    reveal_strlit("TimelineTimelineItem");
    reveal_strlit("TimelineTimelineModule");
    assert("TimelineTimelineItem"@ != "TimelineTimelineModule"@) by {
        assert("TimelineTimelineItem"@.len() != "TimelineTimelineModule"@.len());
    }
    let one = seq![e];
    assert(one.drop_last() =~= Seq::<Json>::empty());
    assert(one.last() == e);
    assert(entries_tweets(one.drop_last()) == Seq::<TweetView>::empty());
    assert(entries_tweets(one) == Seq::<TweetView>::empty() + entry_tweets(e));
    assert(Seq::<TweetView>::empty() + entry_tweets(e) == entry_tweets(e));
    if member(e, "content"@) is None {
        assert(content_of(e) == Json::Null);
    } else {
        assert(content_of(e) == member(e, "content"@)->0);
    }
    assert(entries_tweets(one) == entry_tweets(e));
}

/// The posts of a conversation module are those of its items, in order: an
/// item whose `item.itemContent` is a "TimelineTweet" gives the post under its
/// `tweet_results.result`, when that reads; any other item gives none.
pub proof fn law_a_module_holds_its_items_posts(a: Seq<Json>, item: Json)
    ensures
        ({
            let c = member2(item, "item"@, "itemContent"@);
            let post = match c {
                Some(it) => if opt_str(member(it, "itemType"@)) == Some("TimelineTweet"@) {
                    match member2(it, "tweet_results"@, "result"@) {
                        Some(r) => parsed_tweet(r),
                        None => None,
                    }
                } else {
                    None
                },
                None => None,
            };
            module_tweets(a.push(item)) == module_tweets(a) + match post {
                Some(t) => seq![t],
                None => Seq::<TweetView>::empty(),
            }
        }),
{
    assert(a.push(item).drop_last() == a);
}

/// The post of a timeline item, when the item is a tweet.
pub fn tweet_from_item(item_content: Option<&Json>) -> (r: Option<Tweet>)
    ensures
        opt_tweet_view(r) == item_tweet(deref(item_content)),
{
    let item = match item_content {
        Some(i) => i,
        None => return None,
    };
    let is_tweet = match item.get("itemType") {
        Some(v) => match v.as_str() {
            Some(k) => str_eq(k, "TimelineTweet"),
            None => false,
        },
        None => false,
    };
    if !is_tweet {
        return None;
    }
    match item.get2("tweet_results", "result") {
        Some(r) => parse_tweet(r),
        None => None,
    }
}

fn push_maybe(out: &mut Vec<Tweet>, t: Option<Tweet>)
    ensures
        tweet_views(final(out)@) == tweet_views(old(out)@) + maybe(opt_tweet_view(t)),
{
    let ghost before = out@;
    if let Some(t) = t {
        out.push(t);
        assert(tweet_views(out@) == tweet_views(before) + seq![t@]);
    } else {
        assert(tweet_views(out@) == tweet_views(before) + Seq::<TweetView>::empty());
    }
}

/// The posts of one entry, appended to `out`; the entry's cursor, if any.
fn read_entry(entry: &Json, out: &mut Vec<Tweet>) -> (cursor: Option<String>)
    ensures
        tweet_views(final(out)@) == tweet_views(old(out)@) + entry_tweets(*entry),
        opt_view(cursor) == entry_cursor(*entry),
{
    proof {
        reveal_strlit("cursor-bottom");
    }
    let id_is_cursor = match entry.get("entryId") {
        Some(v) => match v.as_str() {
            Some(id) => starts_with(id, "cursor-bottom"),
            None => false,
        },
        None => false,
    };
    assert(id_is_cursor == is_cursor_entry(*entry));
    let null = Json::Null;
    let content: &Json = match entry.get("content") {
        Some(c) => c,
        None => &null,
    };
    assert(*content == content_of(*entry));
    if id_is_cursor {
        assert(tweet_views(out@) == tweet_views(out@) + Seq::<TweetView>::empty());
        return match content.get("value") {
            Some(v) => match v.as_str() {
                Some(c) => Some(owned(c)),
                None => None,
            },
            None => None,
        };
    }
    let kind = match content.get("entryType") {
        Some(v) => v.as_str(),
        None => None,
    };
    match kind {
        Some(k) => {
            if str_eq(k, "TimelineTimelineItem") {
                push_maybe(out, tweet_from_item(content.get("itemContent")));
            } else if str_eq(k, "TimelineTimelineModule") {
                match content.get("items") {
                    Some(v) => match v.as_array() {
                        Some(items) => {
                            let ghost before = tweet_views(out@);
                            let mut i: usize = 0;
                            while i < items.len()
                                invariant
                                    i <= items.len(),
                                    tweet_views(out@) == before + module_tweets(items@.take(i as int)),
                                decreases items.len() - i,
                            {
                                assert(items@.take(i + 1).drop_last() == items@.take(i as int));
                                assert(items@.take(i + 1).last() == items@[i as int]);
                                push_maybe(out, tweet_from_item(items[i].get2("item", "itemContent")));
                                i = i + 1;
                            }
                            assert(items@.take(items.len() as int) == items@);
                        },
                        None => {
                            assert(tweet_views(out@) == tweet_views(out@) + Seq::<TweetView>::empty());
                        },
                    },
                    None => {
                        assert(tweet_views(out@) == tweet_views(out@) + Seq::<TweetView>::empty());
                    },
                }
            } else {
                assert(tweet_views(out@) == tweet_views(out@) + Seq::<TweetView>::empty());
            }
        },
        None => {
            assert(tweet_views(out@) == tweet_views(out@) + Seq::<TweetView>::empty());
        },
    }
    None
}

/// Pull the posts and the bottom cursor out of the timeline instructions.
pub fn walk(instructions: &[Json]) -> (page: Page)
    ensures
        tweet_views(page.tweets@) == entries_tweets(all_entries(instructions@)),
        opt_view(page.next_cursor) == last_cursor(all_entries(instructions@)),
{
    let mut tweets: Vec<Tweet> = Vec::new();
    let mut next_cursor: Option<String> = None;
    let mut i: usize = 0;
    while i < instructions.len()
        invariant
            i <= instructions.len(),
            tweet_views(tweets@) == entries_tweets(all_entries(instructions@.take(i as int))),
            opt_view(next_cursor) == last_cursor(all_entries(instructions@.take(i as int))),
        decreases instructions.len() - i,
    {
        let ghost done = all_entries(instructions@.take(i as int));
        assert(instructions@.take(i + 1).drop_last() == instructions@.take(i as int));
        assert(instructions@.take(i + 1).last() == instructions@[i as int]);
        match instructions[i].get("entries") {
            Some(v) => match v.as_array() {
                Some(entries) => {
                    let mut j: usize = 0;
                    assert(done + entries@.take(0) == done);
                    while j < entries.len()
                        invariant
                            j <= entries.len(),
                            tweet_views(tweets@) == entries_tweets(done + entries@.take(j as int)),
                            opt_view(next_cursor) == last_cursor(done + entries@.take(j as int)),
                        decreases entries.len() - j,
                    {
                        assert((done + entries@.take(j + 1)).drop_last() == done + entries@.take(j as int));
                        assert((done + entries@.take(j + 1)).last() == entries@[j as int]);
                        let c = read_entry(&entries[j], &mut tweets);
                        if c.is_some() {
                            next_cursor = c;
                        }
                        j = j + 1;
                    }
                    assert(entries@.take(entries.len() as int) == entries@);
                },
                None => {
                    assert(all_entries(instructions@.take(i + 1)) == done + Seq::<Json>::empty());
                },
            },
            None => {
                assert(all_entries(instructions@.take(i + 1)) == done + Seq::<Json>::empty());
            },
        }
        i = i + 1;
    }
    assert(instructions@.take(instructions.len() as int) == instructions@);
    Page { tweets, next_cursor }
}


// ---------------------------------------------------------------- responses

/// The first `max` characters of `s`.
pub open spec fn prefix_chars(s: Seq<char>, max: int) -> Seq<char> {
    if s.len() <= max {
        s
    } else {
        s.take(max)
    }
}

/// At most `max` characters of `s`, from the start.
pub fn truncate(s: &str, max: usize) -> (r: String)
    ensures
        r@ == prefix_chars(s@, max as int),
{
    let cs = chars_of(s);
    if cs.len() <= max {
        return string_of(cs.as_slice());
    }
    let mut out = String::new();
    let mut i: usize = 0;
    while i < max
        invariant
            i <= max < cs.len(),
            out@ == cs@.take(i as int),
        decreases max - i,
    {
        push_char(&mut out, cs[i]);
        assert(cs@.take(i + 1) == cs@.take(i as int).push(cs@[i as int]));
        i = i + 1;
    }
    out
}

/// Characters of an answer body kept in the error that reports it.
pub const BODY_KEPT: usize = 300;

/// Why a timeline page could not be read.
#[derive(Debug)]
pub enum TimelineError {
    /// The server answered with a status outside 2xx; the start of its body.
    Http { operation: String, status: u16, body: String },
    /// The body is not JSON.
    NotJson,
    /// The answer reports an error; the first one's message.
    Api { operation: String, message: String },
    /// The answer holds no timeline.
    NoTimeline { operation: String },
    /// The request could not be sent, or its answer not read; what went wrong.
    Request { operation: String, cause: String },
}

pub struct PageView {
    pub tweets: Seq<TweetView>,
    pub next_cursor: Option<Seq<char>>,
}

pub enum TimelineErrorView {
    Http { operation: Seq<char>, status: u16, body: Seq<char> },
    NotJson,
    Api { operation: Seq<char>, message: Seq<char> },
    NoTimeline { operation: Seq<char> },
    Request { operation: Seq<char>, cause: Seq<char> },
}

pub open spec fn page_view(p: Page) -> PageView {
    PageView { tweets: tweet_views(p.tweets@), next_cursor: opt_view(p.next_cursor) }
}

pub open spec fn timeline_error_view(e: TimelineError) -> TimelineErrorView {
    match e {
        TimelineError::Http { operation, status, body } => TimelineErrorView::Http { operation: operation@, status, body: body@ },
        TimelineError::NotJson => TimelineErrorView::NotJson,
        TimelineError::Api { operation, message } => TimelineErrorView::Api { operation: operation@, message: message@ },
        TimelineError::NoTimeline { operation } => TimelineErrorView::NoTimeline { operation: operation@ },
        TimelineError::Request { operation, cause } => TimelineErrorView::Request { operation: operation@, cause: cause@ },
    }
}

pub open spec fn timeline_view(r: Result<Page, TimelineError>) -> Result<PageView, TimelineErrorView> {
    match r {
        Ok(p) => Ok(page_view(p)),
        Err(e) => Err(timeline_error_view(e)),
    }
}

pub open spec fn operation_id(feed: Feed) -> Seq<char> {
    match feed {
        Feed::ForYou => HOME_TIMELINE_ID@,
        Feed::Following => HOME_LATEST_TIMELINE_ID@,
    }
}

pub open spec fn operation_name(feed: Feed) -> Seq<char> {
    match feed {
        Feed::ForYou => "HomeTimeline"@,
        Feed::Following => "HomeLatestTimeline"@,
    }
}

/// The page of `feed` that an answer with `status`, `body` and, when the body
/// is JSON, `json` holds, or why it holds none.
pub open spec fn timeline_page(feed: Feed, status: u16, body: Seq<char>, json: Option<Json>) -> Result<PageView, TimelineErrorView> {
    let name = operation_name(feed);
    if !(200 <= status < 300) {
        Err(TimelineErrorView::Http { operation: name, status, body: prefix_chars(body, BODY_KEPT as int) })
    } else {
        match json {
            None => Err(TimelineErrorView::NotJson),
            Some(j) => {
                let errors = opt_array(member(j, "errors"@));
                if errors is Some && errors->0.len() > 0 {
                    Err(TimelineErrorView::Api {
                        operation: name,
                        message: match opt_str(member(errors->0[0], "message"@)) {
                            Some(m) => m,
                            None => "unknown error"@,
                        },
                    })
                } else {
                    match opt_array(member4(j, "data"@, "home"@, "home_timeline_urt"@, "instructions"@)) {
                        None => Err(TimelineErrorView::NoTimeline { operation: name }),
                        Some(ins) => Ok(PageView {
                            tweets: entries_tweets(all_entries(ins)),
                            next_cursor: last_cursor(all_entries(ins)),
                        }),
                    }
                }
            },
        }
    }
}

/// Reads one answer of a home-timeline call: its status, its body, and the
/// body read as JSON when it is JSON.
pub fn read_timeline(feed: Feed, status: u16, body: &str, json: Option<&Json>) -> (r: Result<Page, TimelineError>)
    ensures
        timeline_view(r) == timeline_page(feed, status, body@, deref(json)),
{
    let (_, name) = feed.operation();
    if !(200 <= status && status < 300) {
        return Err(TimelineError::Http { operation: owned(name), status, body: truncate(body, BODY_KEPT) });
    }
    let j = match json {
        Some(j) => j,
        None => return Err(TimelineError::NotJson),
    };
    if let Some(v) = j.get("errors") {
        if let Some(errors) = v.as_array() {
            if errors.len() > 0 {
                let message = match errors[0].get("message") {
                    Some(m) => match m.as_str() {
                        Some(text) => owned(text),
                        None => owned("unknown error"),
                    },
                    None => owned("unknown error"),
                };
                return Err(TimelineError::Api { operation: owned(name), message });
            }
        }
    }
    match j.get4("data", "home", "home_timeline_urt", "instructions") {
        Some(v) => match v.as_array() {
            Some(instructions) => Ok(walk(instructions.as_slice())),
            None => Err(TimelineError::NoTimeline { operation: owned(name) }),
        },
        None => Err(TimelineError::NoTimeline { operation: owned(name) }),
    }
}

/// How an answer to a timeline request is read. A status outside 2xx is
/// refused with the operation's name, the status and the first 300
/// characters of the body, whatever the body holds; a body that is not JSON is
/// refused; an answer whose `errors` array is not empty is refused with its
/// first error's `message` ("unknown error" when it has none); one without a
/// `data.home.home_timeline_urt.instructions` array holds no timeline; any
/// other gives the page its instructions' entries hold.
pub proof fn law_an_answer_is_read_by_its_status_and_keys(feed: Feed, status: u16, body: Seq<char>, json: Option<Json>)
    ensures
        ({
            let name = if feed == Feed::ForYou { "HomeTimeline"@ } else { "HomeLatestTimeline"@ };
            let r = timeline_page(feed, status, body, json);
            &&& !(200 <= status && status < 300) ==> (r matches Err(TimelineErrorView::Http { operation, status: s, body: b })
                && operation == name && s == status
                && b.len() == (if body.len() < 300 { body.len() as int } else { 300int })
                && b == body.take(b.len() as int))
            &&& (200 <= status && status < 300 && json is None) ==> r == Err::<PageView, TimelineErrorView>(TimelineErrorView::NotJson)
            &&& (200 <= status && status < 300 && json is Some) ==> {
                let errors = opt_array(member(json->0, "errors"@));
                let instructions = opt_array(member4(json->0, "data"@, "home"@, "home_timeline_urt"@, "instructions"@));
                &&& (errors is Some && errors->0.len() > 0) ==> r == Err::<PageView, TimelineErrorView>(TimelineErrorView::Api {
                    operation: name,
                    message: match opt_str(member(errors->0[0], "message"@)) {
                        Some(m) => m,
                        None => "unknown error"@,
                    },
                })
                &&& (!(errors is Some && errors->0.len() > 0) && instructions is None)
                    ==> r == Err::<PageView, TimelineErrorView>(TimelineErrorView::NoTimeline { operation: name })
                &&& (!(errors is Some && errors->0.len() > 0) && instructions is Some) ==> r == Ok::<PageView, TimelineErrorView>(PageView {
                    tweets: entries_tweets(all_entries(instructions->0)),
                    next_cursor: last_cursor(all_entries(instructions->0)),
                })
            }
        }),
{
    if body.len() > 300 {
        assert(prefix_chars(body, BODY_KEPT as int) == body.take(300));
    }
}

/// Where a feed's GraphQL operation is served.
pub fn timeline_url(feed: Feed) -> (r: String)
    ensures
        r@ == "https://x.com/i/api/graphql/"@ + operation_id(feed) + "/"@ + operation_name(feed),
{
    let (id, name) = feed.operation();
    let mut url = owned("https://x.com/i/api/graphql/");
    push_str(&mut url, id);
    push_str(&mut url, "/");
    push_str(&mut url, name);
    url
}


// ---------------------------------------------------------------- the request

/// The feature switches the x.com web app sends with a timeline request.
pub open spec fn feature_flags() -> Seq<(&'static str, bool)> {
    seq![
        ("articles_preview_enabled", true),
        ("c9s_tweet_anatomy_moderator_badge_enabled", true),
        ("communities_web_enable_tweet_community_results_fetch", true),
        ("creator_subscriptions_quote_tweet_preview_enabled", false),
        ("creator_subscriptions_tweet_preview_api_enabled", true),
        ("freedom_of_speech_not_reach_fetch_enabled", true),
        ("graphql_is_translatable_rweb_tweet_is_translatable_enabled", true),
        ("longform_notetweets_consumption_enabled", true),
        ("longform_notetweets_inline_media_enabled", true),
        ("longform_notetweets_rich_text_read_enabled", true),
        ("profile_label_improvements_pcf_label_in_post_enabled", true),
        ("responsive_web_edit_tweet_api_enabled", true),
        ("responsive_web_enhance_cards_enabled", false),
        ("responsive_web_graphql_exclude_directive_enabled", true),
        ("responsive_web_graphql_skip_user_profile_image_extensions_enabled", false),
        ("responsive_web_graphql_timeline_navigation_enabled", true),
        ("responsive_web_twitter_article_tweet_consumption_enabled", true),
        ("rweb_tipjar_consumption_enabled", true),
        ("rweb_video_timestamps_enabled", true),
        ("standardized_nudges_misinfo", true),
        ("tweet_awards_web_tipping_enabled", false),
        ("tweet_with_visibility_results_prefer_gql_limited_actions_policy_enabled", true),
        ("verified_phone_label_enabled", false),
        ("view_counts_everywhere_api_enabled", true),
    ]
}

/// `j` is the string `s`.
pub open spec fn str_is(j: Json, s: Seq<char>) -> bool {
    j matches Json::Str(x) && x@ == s
}

/// The `variables` of a timeline request: a page of `PAGE_SIZE` posts, no
/// promoted ones, and the cursor of the page to fetch when there is one.
pub open spec fn request_variables(v: Json, cursor: Option<Seq<char>>) -> bool {
    match v {
        Json::Object(f) => {
            &&& f@.len() == (if cursor is Some { 7int } else { 6int })
            &&& f@[0].0@ == "count"@ && f@[0].1 == Json::Number(Some(PAGE_SIZE as u64))
            &&& f@[1].0@ == "includePromotedContent"@ && f@[1].1 == Json::Bool(false)
            &&& f@[2].0@ == "latestControlAvailable"@ && f@[2].1 == Json::Bool(true)
            &&& f@[3].0@ == "requestContext"@ && str_is(f@[3].1, "launch"@)
            &&& f@[4].0@ == "withCommunity"@ && f@[4].1 == Json::Bool(true)
            &&& f@[5].0@ == "seenTweetIds"@ && (f@[5].1 matches Json::Array(a) && a@.len() == 0)
            &&& (cursor matches Some(c) ==> f@[6].0@ == "cursor"@ && str_is(f@[6].1, c))
        },
        _ => false,
    }
}

/// The `features` of a timeline request: each switch of `feature_flags`, in order.
pub open spec fn request_features(v: Json) -> bool {
    match v {
        Json::Object(f) => {
            &&& f@.len() == feature_flags().len()
            &&& forall|i: int| 0 <= i < f@.len() ==> (#[trigger] f@[i]).0@ == feature_flags()[i].0@
                && f@[i].1 == Json::Bool(feature_flags()[i].1)
        },
        _ => false,
    }
}

/// The body of the request for a page of `feed`: its variables, the feature
/// switches, and the operation id.
pub open spec fn request_body_is(r: Json, feed: Feed, cursor: Option<Seq<char>>) -> bool {
    match r {
        Json::Object(top) => {
            &&& top@.len() == 3
            &&& top@[0].0@ == "variables"@ && request_variables(top@[0].1, cursor)
            &&& top@[1].0@ == "features"@ && request_features(top@[1].1)
            &&& top@[2].0@ == "queryId"@ && str_is(top@[2].1, operation_id(feed))
        },
        _ => false,
    }
}

fn features_json() -> (r: Json)
    ensures
        request_features(r),
{
    let flags: [(&'static str, bool); 24] = [
        ("articles_preview_enabled", true),
        ("c9s_tweet_anatomy_moderator_badge_enabled", true),
        ("communities_web_enable_tweet_community_results_fetch", true),
        ("creator_subscriptions_quote_tweet_preview_enabled", false),
        ("creator_subscriptions_tweet_preview_api_enabled", true),
        ("freedom_of_speech_not_reach_fetch_enabled", true),
        ("graphql_is_translatable_rweb_tweet_is_translatable_enabled", true),
        ("longform_notetweets_consumption_enabled", true),
        ("longform_notetweets_inline_media_enabled", true),
        ("longform_notetweets_rich_text_read_enabled", true),
        ("profile_label_improvements_pcf_label_in_post_enabled", true),
        ("responsive_web_edit_tweet_api_enabled", true),
        ("responsive_web_enhance_cards_enabled", false),
        ("responsive_web_graphql_exclude_directive_enabled", true),
        ("responsive_web_graphql_skip_user_profile_image_extensions_enabled", false),
        ("responsive_web_graphql_timeline_navigation_enabled", true),
        ("responsive_web_twitter_article_tweet_consumption_enabled", true),
        ("rweb_tipjar_consumption_enabled", true),
        ("rweb_video_timestamps_enabled", true),
        ("standardized_nudges_misinfo", true),
        ("tweet_awards_web_tipping_enabled", false),
        ("tweet_with_visibility_results_prefer_gql_limited_actions_policy_enabled", true),
        ("verified_phone_label_enabled", false),
        ("view_counts_everywhere_api_enabled", true),
    ];
    assert(flags@ == feature_flags());
    let mut f: Vec<(String, Json)> = Vec::new();
    let mut i: usize = 0;
    while i < 24
        invariant
            i <= 24,
            flags@ == feature_flags(),
            f@.len() == i,
            forall|k: int| 0 <= k < i ==> (#[trigger] f@[k]).0@ == feature_flags()[k].0@
                && f@[k].1 == Json::Bool(feature_flags()[k].1),
        decreases 24 - i,
    {
        let (name, on) = flags[i];
        f.push((owned(name), Json::Bool(on)));
        i = i + 1;
    }
    Json::Object(f)
}

/// The JSON body of the request for a page of `feed`, after `cursor` when
/// there is one.
pub fn request_body(feed: Feed, cursor: Option<&str>) -> (r: Json)
    ensures
        request_body_is(r, feed, crate::cookies::opt_str_view(cursor)),
{
    let mut vars: Vec<(String, Json)> = Vec::new();
    vars.push((owned("count"), Json::Number(Some(PAGE_SIZE as u64))));
    vars.push((owned("includePromotedContent"), Json::Bool(false)));
    vars.push((owned("latestControlAvailable"), Json::Bool(true)));
    vars.push((owned("requestContext"), Json::Str(owned("launch"))));
    vars.push((owned("withCommunity"), Json::Bool(true)));
    let seen: Vec<Json> = Vec::new();
    vars.push((owned("seenTweetIds"), Json::Array(seen)));
    if let Some(c) = cursor {
        vars.push((owned("cursor"), Json::Str(owned(c))));
    }
    let (id, _) = feed.operation();
    let mut top: Vec<(String, Json)> = Vec::new();
    top.push((owned("variables"), Json::Object(vars)));
    top.push((owned("features"), features_json()));
    top.push((owned("queryId"), Json::Str(owned(id))));
    Json::Object(top)
}

} // verus!
