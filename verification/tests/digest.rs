use xummary::digest::{feeds, select_posts, Collector, FeedsConflict, PageOutcome, TooFew, MAX_TWEETS};
use xummary::x::{Feed, Page, TimelineError, Tweet};

fn post(id: &str, created_at: i64) -> Tweet {
    Tweet {
        id: id.into(),
        handle: "h".into(),
        created_at,
        text: "t".into(),
        likes: 0,
        retweets: 0,
        replies: 0,
        is_reply: false,
        has_media: false,
        retweeted_by: None,
        quoted: None,
    }
}

#[test]
fn the_only_flags_pick_the_feeds() {
    assert_eq!(feeds(false, false), Ok(vec![Feed::ForYou, Feed::Following]));
    assert_eq!(feeds(true, false), Ok(vec![Feed::ForYou]));
    assert_eq!(feeds(false, true), Ok(vec![Feed::Following]));
    assert_eq!(feeds(true, true), Err(FeedsConflict));
}

#[test]
fn posts_are_recent_unique_and_newest_first() {
    let all = vec![
        post("a", 100),
        post("b", 300),
        post("old", 10),
        post("a", 500),
        post("c", 300),
        post("d", 200),
        post("e", 400),
    ];
    let kept = select_posts(all, 50).unwrap();
    let ids: Vec<&str> = kept.iter().map(|t| t.id.as_str()).collect();
    assert_eq!(ids, vec!["e", "b", "c", "d", "a"]);
    assert_eq!(kept[4].created_at, 100);
}

#[test]
fn too_few_posts_make_no_briefing() {
    let all = vec![post("a", 100), post("b", 100), post("c", 1)];
    assert_eq!(select_posts(all, 50).unwrap_err(), TooFew(2));
}

#[test]
fn the_cap_keeps_the_newest_posts() {
    let all: Vec<Tweet> = (0..MAX_TWEETS as i64 + 5).map(|i| post(&i.to_string(), i)).collect();
    let kept = select_posts(all, 0).unwrap();
    assert_eq!(kept.len(), MAX_TWEETS);
    assert_eq!(kept[0].created_at, MAX_TWEETS as i64 + 4);
    assert_eq!(kept[MAX_TWEETS - 1].created_at, 5);
}

fn page(ts: &[(&str, i64)], cursor: Option<&str>) -> Page {
    Page { tweets: ts.iter().map(|(id, at)| post(id, *at)).collect(), next_cursor: cursor.map(|c| c.to_string()) }
}

#[test]
fn paging_follows_the_cursor_until_the_window_ends() {
    let mut c = Collector::new(Feed::Following, 10, 100);
    assert!(c.wants_page());
    assert!(matches!(c.on_page(Ok(page(&[("1", 150), ("2", 120)], Some("next")))), PageOutcome::More));
    assert_eq!((c.page, c.cursor.as_deref()), (2, Some("next")));
    assert!(matches!(c.on_page(Ok(page(&[("3", 90)], Some("more")))), PageOutcome::Enough));
    assert!(!c.wants_page());
    assert_eq!(c.into_tweets().len(), 3);
}

#[test]
fn a_failed_first_page_is_fatal_and_a_later_one_is_not() {
    let mut c = Collector::new(Feed::ForYou, 3, 0);
    assert!(matches!(c.on_page(Err(TimelineError::NotJson)), PageOutcome::Failed(_)));
    let mut c = Collector::new(Feed::ForYou, 3, 0);
    c.on_page(Ok(page(&[("1", 5)], Some("n"))));
    assert!(matches!(c.on_page(Err(TimelineError::NotJson)), PageOutcome::Stopped(_)));
    assert_eq!(c.out.len(), 1);
}

#[test]
fn paging_stops_at_the_page_ceiling_or_without_a_cursor() {
    let mut c = Collector::new(Feed::ForYou, 1, 0);
    assert!(matches!(c.on_page(Ok(page(&[("1", 5)], Some("n")))), PageOutcome::Enough));
    let mut c = Collector::new(Feed::ForYou, 5, 0);
    assert!(matches!(c.on_page(Ok(page(&[("1", 5)], None))), PageOutcome::Enough));
    let mut c = Collector::new(Feed::ForYou, 5, 0);
    assert!(matches!(c.on_page(Ok(page(&[], Some("n")))), PageOutcome::Enough));
    assert!(!Collector::new(Feed::ForYou, 0, 0).wants_page());
}
