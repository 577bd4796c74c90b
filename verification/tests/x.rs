use xummary::json::Json;
use xummary::x::{
    handle_of, parse_time, parse_tweet, read_timeline, request_body, timeline_url, truncate, walk, Feed, TimelineError,
    HOME_LATEST_TIMELINE_ID, HOME_TIMELINE_ID,
};

fn s(v: &str) -> Json {
    Json::Str(v.to_string())
}

fn n(v: u64) -> Json {
    Json::Number(Some(v))
}

fn obj(pairs: Vec<(&str, Json)>) -> Json {
    Json::Object(pairs.into_iter().map(|(k, v)| (k.to_string(), v)).collect())
}

fn legacy(id: &str, text: &str) -> Vec<(&'static str, Json)> {
    vec![
        ("id_str", s(id)),
        ("full_text", s(text)),
        ("created_at", s("Wed Oct 10 20:19:24 +0000 2018")),
        ("favorite_count", n(12)),
        ("retweet_count", n(3)),
        ("reply_count", n(1)),
    ]
}

fn user_core(handle: &str) -> Json {
    obj(vec![("user_results", obj(vec![("result", obj(vec![("core", obj(vec![("screen_name", s(handle))]))]))]))])
}

fn tweet_result(id: &str, handle: &str, text: &str) -> Json {
    obj(vec![("__typename", s("Tweet")), ("core", user_core(handle)), ("legacy", obj(legacy(id, text)))])
}

fn tweet_entry(id: &str, handle: &str, text: &str) -> Json {
    obj(vec![
        ("entryId", s(&format!("tweet-{id}"))),
        (
            "content",
            obj(vec![
                ("entryType", s("TimelineTimelineItem")),
                (
                    "itemContent",
                    obj(vec![
                        ("itemType", s("TimelineTweet")),
                        ("tweet_results", obj(vec![("result", tweet_result(id, handle, text))])),
                    ]),
                ),
            ]),
        ),
    ])
}

#[test]
fn reads_tweets_and_the_bottom_cursor() {
    let instructions = vec![obj(vec![
        ("type", s("TimelineAddEntries")),
        (
            "entries",
            Json::Array(vec![
                tweet_entry("1", "alice", "hello"),
                obj(vec![("entryId", s("cursor-bottom-0")), ("content", obj(vec![("value", s("CURSOR"))]))]),
            ]),
        ),
    ])];
    let page = walk(&instructions);
    assert_eq!(page.tweets.len(), 1);
    assert_eq!(page.tweets[0].handle, "alice");
    assert_eq!(page.tweets[0].likes, 12);
    assert_eq!(page.next_cursor.as_deref(), Some("CURSOR"));
}

#[test]
fn a_retweet_reports_the_original_author() {
    let inner = tweet_result("1", "alice", "hello");
    let mut rt_legacy = vec![
        ("id_str", s("2")),
        ("full_text", s("RT @alice: hello")),
        ("created_at", s("Wed Oct 10 20:19:24 +0000 2018")),
    ];
    rt_legacy.push(("retweeted_status_result", obj(vec![("result", inner)])));
    let rt = obj(vec![("__typename", s("Tweet")), ("core", user_core("bob")), ("legacy", obj(rt_legacy))]);
    let parsed = parse_tweet(&rt).unwrap();
    assert_eq!(parsed.handle, "alice");
    assert_eq!(parsed.retweeted_by.as_deref(), Some("bob"));
}

#[test]
fn the_old_legacy_handle_still_works() {
    let user = obj(vec![(
        "core",
        obj(vec![("user_results", obj(vec![("result", obj(vec![("legacy", obj(vec![("screen_name", s("carol"))]))]))]))]),
    )]);
    assert_eq!(handle_of(&user).as_deref(), Some("carol"));
}

#[test]
fn a_tombstone_is_skipped() {
    assert!(parse_tweet(&obj(vec![("__typename", s("TweetTombstone"))])).is_none());
}

#[test]
fn a_null_in_reply_to_is_not_a_reply() {
    let mut l = legacy("1", "hello");
    l.push(("in_reply_to_status_id_str", Json::Null));
    let result = obj(vec![("__typename", s("Tweet")), ("core", user_core("alice")), ("legacy", obj(l))]);
    assert!(!parse_tweet(&result).unwrap().is_reply);
}

#[test]
fn parses_x_timestamps() {
    assert!(parse_time("Wed Oct 10 20:19:24 +0000 2018").is_some());
    assert!(parse_time("not a date").is_none());
}

#[test]
fn a_timestamp_is_seconds_since_the_epoch() {
    assert_eq!(parse_time("Wed Oct 10 20:19:24 +0000 2018"), Some(1539202764));
    assert_eq!(parse_time("Wed Oct 10 22:19:24 +0200 2018"), Some(1539202764));
}

#[test]
fn a_post_carries_its_counters_text_and_flags() {
    let mut l = legacy("7", "short");
    l.push(("in_reply_to_status_id_str", s("6")));
    l.push(("entities", obj(vec![("media", Json::Array(vec![obj(vec![])]))])));
    l.push(("favorite_count", Json::Number(None)));
    let note = obj(vec![("note_tweet_results", obj(vec![("result", obj(vec![("text", s("the long text"))]))]))]);
    let quoted = tweet_result("8", "dave", "quoted words");
    let result = obj(vec![
        ("__typename", s("Tweet")),
        ("core", user_core("erin")),
        ("note_tweet", note),
        ("quoted_status_result", obj(vec![("result", quoted)])),
        ("legacy", obj(l)),
    ]);
    let t = parse_tweet(&result).unwrap();
    assert_eq!(t.id, "7");
    assert_eq!(t.text, "the long text");
    assert_eq!(t.likes, 12);
    assert_eq!(t.retweets, 3);
    assert!(t.is_reply);
    assert!(t.has_media);
    assert_eq!(t.created_at, 1539202764);
    let q = t.quoted.unwrap();
    assert_eq!((q.handle.as_str(), q.text.as_str()), ("dave", "quoted words"));
}

#[test]
fn a_restricted_post_is_read_inside_its_envelope() {
    let wrapped = obj(vec![("__typename", s("TweetWithVisibilityResults")), ("tweet", tweet_result("9", "fay", "hi"))]);
    assert_eq!(parse_tweet(&wrapped).unwrap().handle, "fay");
    let bad_time = obj(vec![
        ("core", user_core("fay")),
        ("legacy", obj(vec![("id_str", s("1")), ("full_text", s("x")), ("created_at", s("yesterday"))])),
    ]);
    assert!(parse_tweet(&bad_time).is_none());
}

#[test]
fn a_module_holds_several_posts() {
    let item = |id: &str| {
        obj(vec![(
            "item",
            obj(vec![(
                "itemContent",
                obj(vec![("itemType", s("TimelineTweet")), ("tweet_results", obj(vec![("result", tweet_result(id, "gus", "m"))]))]),
            )]),
        )])
    };
    let module = obj(vec![
        ("entryId", s("conversation-1")),
        ("content", obj(vec![("entryType", s("TimelineTimelineModule")), ("items", Json::Array(vec![item("1"), item("2")]))])),
    ]);
    let page = walk(&[obj(vec![("entries", Json::Array(vec![module, tweet_entry("3", "hal", "x")]))])]);
    let ids: Vec<&str> = page.tweets.iter().map(|t| t.id.as_str()).collect();
    assert_eq!(ids, vec!["1", "2", "3"]);
    assert!(page.next_cursor.is_none());
}

fn answer(instructions: Json) -> Json {
    obj(vec![("data", obj(vec![("home", obj(vec![("home_timeline_urt", obj(vec![("instructions", instructions)]))]))]))])
}

#[test]
fn a_timeline_answer_is_read_or_refused() {
    let ok = answer(Json::Array(vec![obj(vec![("entries", Json::Array(vec![tweet_entry("1", "a", "b")]))])]));
    assert_eq!(read_timeline(Feed::ForYou, 200, "{}", Some(&ok)).unwrap().tweets.len(), 1);
    match read_timeline(Feed::Following, 404, &"x".repeat(400), None) {
        Err(TimelineError::Http { operation, status, body }) => {
            assert_eq!(operation, "HomeLatestTimeline");
            assert_eq!(status, 404);
            assert_eq!(body.len(), 300);
        }
        other => panic!("unexpected {other:?}"),
    }
    assert!(matches!(read_timeline(Feed::ForYou, 200, "<html>", None), Err(TimelineError::NotJson)));
    let errors = obj(vec![("errors", Json::Array(vec![obj(vec![("message", s("Rate limit exceeded"))])]))]);
    match read_timeline(Feed::ForYou, 200, "", Some(&errors)) {
        Err(TimelineError::Api { operation, message }) => {
            assert_eq!(operation, "HomeTimeline");
            assert_eq!(message, "Rate limit exceeded");
        }
        other => panic!("unexpected {other:?}"),
    }
    let no_message = obj(vec![("errors", Json::Array(vec![obj(vec![])]))]);
    assert!(matches!(read_timeline(Feed::ForYou, 200, "", Some(&no_message)), Err(TimelineError::Api { message, .. }) if message == "unknown error"));
    assert!(matches!(read_timeline(Feed::ForYou, 200, "", Some(&obj(vec![]))), Err(TimelineError::NoTimeline { .. })));
}

#[test]
fn feeds_name_their_operations() {
    assert_eq!(Feed::ForYou.label(), "For You");
    assert_eq!(Feed::Following.label(), "Following");
    assert_eq!(Feed::ForYou.operation(), (HOME_TIMELINE_ID, "HomeTimeline"));
    assert_eq!(Feed::Following.operation(), (HOME_LATEST_TIMELINE_ID, "HomeLatestTimeline"));
    assert_eq!(timeline_url(Feed::ForYou), format!("https://x.com/i/api/graphql/{HOME_TIMELINE_ID}/HomeTimeline"));
}

#[test]
fn truncate_counts_characters() {
    assert_eq!(truncate("héllo", 2), "hé");
    assert_eq!(truncate("hi", 10), "hi");
}

#[test]
fn the_request_names_the_operation_and_the_cursor() {
    let body = request_body(Feed::Following, Some("abc"));
    assert_eq!(body.get("queryId").and_then(|v| v.as_str()), Some(HOME_LATEST_TIMELINE_ID));
    let vars = body.get("variables").unwrap();
    assert_eq!(vars.get("count").and_then(|v| v.as_u64()), Some(40));
    assert_eq!(vars.get("includePromotedContent").and_then(|v| v.as_bool()), Some(false));
    assert_eq!(vars.get("requestContext").and_then(|v| v.as_str()), Some("launch"));
    assert_eq!(vars.get("seenTweetIds").and_then(|v| v.as_array()).map(|a| a.len()), Some(0));
    assert_eq!(vars.get("cursor").and_then(|v| v.as_str()), Some("abc"));
    let first = request_body(Feed::ForYou, None);
    assert_eq!(first.get("queryId").and_then(|v| v.as_str()), Some(HOME_TIMELINE_ID));
    assert!(first.get2("variables", "cursor").is_none());
    let features = first.get("features").unwrap();
    assert_eq!(features.get("articles_preview_enabled").and_then(|v| v.as_bool()), Some(true));
    assert_eq!(features.get("verified_phone_label_enabled").and_then(|v| v.as_bool()), Some(false));
    match features {
        Json::Object(fields) => assert_eq!(fields.len(), 24),
        _ => panic!("features are not an object"),
    }
}
