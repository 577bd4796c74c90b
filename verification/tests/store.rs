use chrono::{TimeZone, Utc};
use xummary::store::{
    add_briefing, cached_from_row, covered_since, headings, join, last_briefing, posts, save_posts, Briefing, Cached,
    Store, KEEP_BRIEFINGS, MIN_RETENTION_HOURS,
};
use xummary::x::Tweet;

fn at(hour: u32) -> i64 {
    Utc.with_ymd_and_hms(2026, 9, 6, hour, 0, 0).unwrap().timestamp()
}

fn briefing(at: i64, text: &str) -> Briefing {
    Briefing { at, hours: 24, posts: 100, text: text.into() }
}

fn tweet(id: &str) -> Tweet {
    Tweet {
        id: id.into(),
        handle: "alice".into(),
        created_at: at(12),
        text: "hi".into(),
        likes: 0,
        retweets: 0,
        replies: 0,
        is_reply: false,
        has_media: false,
        retweeted_by: None,
        quoted: None,
    }
}

fn cached(id: &str, created_at: i64, seen_at: i64) -> Cached {
    let mut tweet = tweet(id);
    tweet.created_at = created_at;
    Cached { seen_at, tweet }
}

#[test]
fn the_last_briefing_is_the_newest_one_written() {
    let mut all: Vec<Briefing> = Vec::new();
    assert!(last_briefing(Vec::new()).is_none());
    add_briefing(&mut all, briefing(at(9), "morning"));
    add_briefing(&mut all, briefing(at(18), "evening"));
    assert_eq!(all.len(), 2);
    assert_eq!(last_briefing(all).unwrap().text, "evening");
}

#[test]
fn only_the_last_fifty_briefings_survive() {
    let mut all: Vec<Briefing> = Vec::new();
    for i in 0..KEEP_BRIEFINGS + 10 {
        add_briefing(&mut all, briefing(at(1), &i.to_string()));
    }
    assert_eq!(all.len(), KEEP_BRIEFINGS);
    assert_eq!(all[0].text, "10");
}

#[test]
fn posts_older_than_the_cutoff_are_not_returned() {
    let now = at(23);
    let old = cached("old", at(1), at(1));
    let fresh = cached("fresh", at(20), at(20));
    let saved = save_posts(vec![old, fresh], now, 24);
    let kept = posts(saved, at(10));
    assert_eq!(kept.len(), 1);
    assert_eq!(kept[0].tweet.id, "fresh");
}

#[test]
fn saving_drops_posts_past_retention() {
    let now = Utc::now().timestamp();
    let ancient = cached("ancient", now - (MIN_RETENTION_HOURS + 1) * 3600, now);
    let recent = cached("recent", now, now);
    let saved = save_posts(vec![ancient, recent], now, 24);
    let kept = posts(saved, Utc.with_ymd_and_hms(2000, 1, 1, 0, 0, 0).unwrap().timestamp());
    assert_eq!(kept.len(), 1);
    assert_eq!(kept[0].tweet.id, "recent");
}

#[test]
fn a_longer_window_keeps_posts_longer() {
    let now = at(23);
    let two_days = cached("two-days", now - 100 * 3600, now);
    assert_eq!(save_posts(vec![two_days], now, 120).len(), 1);
    let two_days = cached("two-days", now - 100 * 3600, now);
    assert_eq!(save_posts(vec![two_days], now, 24).len(), 0);
}

#[test]
fn covered_stories_are_the_headings_newest_first() {
    let mut all = Vec::new();
    add_briefing(&mut all, briefing(at(9), "## Morning story\n\nText.\n\n## Also\n- a leftover"));
    add_briefing(&mut all, briefing(at(18), "## Evening story\n\nText."));
    assert_eq!(covered_since(&all, at(1)), vec!["Evening story", "Morning story"]);
}

#[test]
fn a_briefing_older_than_the_window_is_not_covered() {
    let mut all = Vec::new();
    add_briefing(&mut all, briefing(at(2), "## Old story"));
    add_briefing(&mut all, briefing(at(20), "## New story"));
    assert_eq!(covered_since(&all, at(10)), vec!["New story"]);
}

#[test]
fn when_a_post_reached_us_survives_a_round_trip() {
    // Written at 09:00, but For You only showed it to us at 20:00.
    let saved = save_posts(vec![cached("late", at(9), at(20))], at(23), 24);
    let reread: Vec<Cached> = saved.into_iter().map(|c| cached_from_row(Some(c.seen_at), c.tweet)).collect();
    let kept = posts(reread, at(1));
    assert_eq!(kept[0].tweet.created_at, at(9));
    assert_eq!(kept[0].seen_at, at(20));
}

#[test]
fn a_line_without_seen_at_counts_as_seen_when_written() {
    let kept = posts(vec![cached_from_row(None, tweet("old-build"))], at(1));
    assert_eq!(kept.len(), 1);
    assert_eq!(kept[0].seen_at, kept[0].tweet.created_at);
}

#[test]
fn headings_skip_also_and_text() {
    assert_eq!(headings("  ## One\r\ntext\n##Two\n## ALSO\n## Three [new]\n"), vec!["One", "Three [new]"]);
    assert!(headings("").is_empty());
}

#[test]
fn lines_are_joined_each_with_a_newline() {
    assert_eq!(join(&["a".to_string(), "b".to_string()]), "a\nb\n");
    assert_eq!(join(&[]), "");
}

#[test]
fn the_cache_files_sit_in_the_cache_directory() {
    let store = Store { dir: "/home/me/.cache/xummary".into() };
    assert_eq!(store.posts_path(), "/home/me/.cache/xummary/posts.jsonl");
    assert_eq!(store.briefings_path(), "/home/me/.cache/xummary/briefings.jsonl");
    let slash = Store { dir: "/tmp/".into() };
    assert_eq!(slash.posts_path(), "/tmp/posts.jsonl");
}

#[test]
fn a_window_inside_retention_reads_the_same_from_the_cache() {
    let now = at(23);
    let make = || {
        vec![
            cached("a", now - 80 * 3600, now),
            cached("b", now - 60 * 3600, now),
            cached("c", now - 3600, now),
        ]
    };
    let cutoff = now - 48 * 3600;
    let direct: Vec<String> = posts(make(), cutoff).into_iter().map(|c| c.tweet.id).collect();
    let cached_first: Vec<String> = posts(save_posts(make(), now, 24), cutoff).into_iter().map(|c| c.tweet.id).collect();
    assert_eq!(direct, vec!["c"]);
    assert_eq!(cached_first, direct);
    let wide: Vec<String> = posts(save_posts(make(), now, 24), now - 72 * 3600).into_iter().map(|c| c.tweet.id).collect();
    assert_eq!(wide, vec!["b", "c"]);
}
