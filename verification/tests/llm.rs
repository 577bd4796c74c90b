use chrono::{TimeZone, Utc};
use xummary::json::Json;
use xummary::llm::{build_prompt, format_tweet, read_event, StreamEvent, StreamFailure, StreamState, MAX_TEXT_CHARS};
use xummary::x::Tweet;

fn tweet(handle: &str, text: &str) -> Tweet {
    Tweet {
        id: "1".into(),
        handle: handle.into(),
        created_at: Utc.with_ymd_and_hms(2026, 9, 5, 18, 30, 0).unwrap().timestamp(),
        text: text.into(),
        likes: 10,
        retweets: 2,
        replies: 1,
        is_reply: false,
        has_media: false,
        retweeted_by: None,
        quoted: None,
    }
}

#[test]
fn a_tweet_becomes_one_compact_line() {
    let line = format_tweet(&tweet("alice", "hello\nworld"));
    assert_eq!(line, "- [18:30] @alice [10♥ 2rt 1re]: hello world\n");
}

#[test]
fn long_text_is_cut() {
    let long = "a".repeat(400);
    let line = format_tweet(&tweet("alice", &long));
    assert!(line.contains(&"a".repeat(MAX_TEXT_CHARS)));
    assert!(!line.contains(&"a".repeat(MAX_TEXT_CHARS + 1)));
}

#[test]
fn a_retweet_names_who_passed_it_on() {
    let mut t = tweet("alice", "hi");
    t.retweeted_by = Some("bob".into());
    assert!(format_tweet(&t).contains("(rt by @bob)"));
}

#[test]
fn the_prompt_carries_the_count_and_the_language() {
    let prompt = build_prompt(&[tweet("alice", "hi")], 24, "French");
    assert!(prompt.contains("Below are 1 posts"));
    assert!(prompt.contains("Write my briefing in French"));
    assert!(prompt.contains("Write every word in French"));
    assert!(prompt.contains("@alice"));
}

#[test]
fn every_flag_and_the_quote_show_in_the_line() {
    let mut t = tweet("alice", "hi");
    t.is_reply = true;
    t.has_media = true;
    t.created_at = Utc.with_ymd_and_hms(1969, 12, 31, 23, 5, 0).unwrap().timestamp();
    let mut q = tweet("zoe", &format!("{}\n", "q".repeat(130)));
    q.text = format!("line one\n{}", "q".repeat(130));
    t.quoted = Some(Box::new(q));
    let line = format_tweet(&t);
    let quoted: String = format!("line one {}", "q".repeat(111));
    assert_eq!(line, format!("- [23:05] @alice (reply) (media) [10♥ 2rt 1re]: hi | quoting @zoe: {quoted}\n"));
}

#[test]
fn the_prompt_lists_the_posts_in_order() {
    let prompt = build_prompt(&[tweet("alice", "one"), tweet("bob", "two")], -3, "English");
    assert!(prompt.starts_with("Below are 2 posts from my X timeline, covering the last -3 hours, newest first. Write my briefing in English.\n\n"));
    assert!(prompt.contains("Posts (newest first):\n- [18:30] @alice [10♥ 2rt 1re]: one\n- [18:30] @bob [10♥ 2rt 1re]: two\n\nNow write"));
    assert!(prompt.ends_with("Start with the first `## ` heading."));
}

fn s(v: &str) -> Json {
    Json::Str(v.to_string())
}

fn obj(pairs: Vec<(&str, Json)>) -> Json {
    Json::Object(pairs.into_iter().map(|(k, v)| (k.to_string(), v)).collect())
}

#[test]
fn stream_lines_become_tokens_and_a_result() {
    let delta = obj(vec![
        ("type", s("stream_event")),
        ("event", obj(vec![("delta", obj(vec![("text", s("Hello"))]))])),
    ]);
    assert!(matches!(read_event(Some(&delta)), StreamEvent::Token(t) if t == "Hello"));
    let empty = obj(vec![("type", s("stream_event")), ("event", obj(vec![("delta", obj(vec![("text", s(""))]))]))]);
    assert!(matches!(read_event(Some(&empty)), StreamEvent::Other));
    assert!(matches!(read_event(None), StreamEvent::Other));
    let ok = obj(vec![("type", s("result")), ("is_error", Json::Bool(false))]);
    assert!(matches!(read_event(Some(&ok)), StreamEvent::Finished { error: None }));
    let failed = obj(vec![("type", s("result")), ("is_error", Json::Bool(true))]);
    assert!(matches!(read_event(Some(&failed)), StreamEvent::Finished { error: Some(e) } if e == "the model reported an error"));
}

#[test]
fn a_run_without_a_result_is_a_failure() {
    let mut st = StreamState::new();
    assert_eq!(st.on_event(StreamEvent::Token("a".into())).as_deref(), Some("a"));
    match st.finish("  boom \n") {
        Err(StreamFailure::NoResult { diagnostics }) => assert_eq!(diagnostics.as_deref(), Some("boom")),
        other => panic!("unexpected {other:?}"),
    }
    assert!(matches!(StreamState::new().finish(" \n"), Err(StreamFailure::NoResult { diagnostics: None })));
    let mut done = StreamState::new();
    assert!(done.on_event(StreamEvent::Finished { error: None }).is_none());
    assert!(done.finish("").is_ok());
    let mut bad = StreamState::new();
    bad.on_event(StreamEvent::Finished { error: Some("quota".into()) });
    bad.on_event(StreamEvent::Finished { error: None });
    assert!(matches!(bad.finish(""), Err(StreamFailure::Reported(m)) if m == "quota"));
}
