use xummary::ui::{
    apply, layout_text, quits, scroll, settle_scroll, split_mark, style_for, wrap, App, Key, KeyPress, LineStyle, Mark,
    Update,
};

#[test]
fn wrap_breaks_on_words() {
    assert_eq!(wrap("one two three", 7), vec!["one two", "three"]);
}

#[test]
fn wrap_cuts_a_word_wider_than_the_pane() {
    assert_eq!(wrap("aaaaaa", 3), vec!["aaa", "aaa"]);
}

#[test]
fn wrap_counts_display_width_not_bytes() {
    assert_eq!(wrap("日本語 ok", 6), vec!["日本語", "ok"]);
}

#[test]
fn wrap_gives_one_empty_line_for_blank_text() {
    assert_eq!(wrap("   ", 5), vec![""]);
    assert_eq!(wrap("a  b\tc", 80), vec!["a b c"]);
    assert_eq!(wrap("ab cdefgh", 4), vec!["ab", "cdef", "gh"]);
}

#[test]
fn a_marked_heading_loses_its_mark() {
    assert_eq!(split_mark("Astra [new]"), ("Astra".to_string(), Mark::New));
    assert_eq!(split_mark("Astra [updated]"), ("Astra".to_string(), Mark::Updated));
    assert_eq!(split_mark("Astra"), ("Astra".to_string(), Mark::Carried));
}

#[test]
fn a_heading_gets_a_blank_line_before_it() {
    let lines = layout_text("text\n## Topic", 40);
    assert_eq!(lines.len(), 3);
    assert_eq!(lines[1].text, "");
    assert_eq!(lines[2].text, "Topic");
}

#[test]
fn a_leading_heading_gets_no_blank_line() {
    let lines = layout_text("## Topic", 40);
    assert_eq!(lines.len(), 1);
}

#[test]
fn bullets_become_dots() {
    assert_eq!(layout_text("- a point", 40)[0].text, "• a point");
}

#[test]
fn stray_bold_markers_are_dropped() {
    assert_eq!(layout_text("**loud**", 40)[0].text, "loud");
}

#[test]
fn marks_choose_the_heading_style() {
    let lines = layout_text("## A [new]\n## B [updated]\n# C", 40);
    let styles: Vec<LineStyle> = lines.iter().map(|l| l.style).collect();
    assert_eq!(styles, vec![LineStyle::Fresh, LineStyle::Plain, LineStyle::Moved, LineStyle::Carried]);
    assert_eq!(style_for(Mark::Carried), LineStyle::Carried);
    let bullet = layout_text("- one two three four five six", 3);
    let texts: Vec<&str> = bullet.iter().map(|l| l.text.as_str()).collect();
    assert_eq!(texts, vec!["• one", "  two", "  three", "  four", "  five six"]);
    let narrow = layout_text("- aaaa bbbb cccc", 10);
    let texts: Vec<&str> = narrow.iter().map(|l| l.text.as_str()).collect();
    assert_eq!(texts, vec!["• aaaa", "  bbbb", "  cccc"]);
}

#[test]
fn updates_drive_the_status_and_the_text() {
    let mut app = App::new();
    assert_eq!(app.status, "starting");
    apply(&mut app, Update::Status("fetching".into()));
    apply(&mut app, Update::Token("Hel".into()));
    apply(&mut app, Update::Token("lo".into()));
    assert_eq!((app.status.as_str(), app.text.as_str(), app.done), ("fetching", "Hello", false));
    apply(&mut app, Update::Done(Some("boom".into())));
    assert_eq!(app.status, "failed: boom");
    assert!(app.done);
    apply(&mut app, Update::Done(None));
    assert_eq!(app.status, "done");
}

fn key(code: Key) -> KeyPress {
    KeyPress { code, ctrl: false }
}

#[test]
fn keys_quit_and_scroll() {
    assert!(quits(key(Key::Char('q'))));
    assert!(quits(key(Key::Esc)));
    assert!(quits(KeyPress { code: Key::Char('c'), ctrl: true }));
    assert!(!quits(key(Key::Char('c'))));
    let mut app = App::new();
    scroll(&mut app, key(Key::Char(' ')));
    scroll(&mut app, key(Key::Down));
    assert_eq!(app.scroll, 11);
    assert!(app.follow);
    scroll(&mut app, key(Key::PageUp));
    assert_eq!(app.scroll, 1);
    assert!(!app.follow);
    scroll(&mut app, key(Key::Up));
    scroll(&mut app, key(Key::Up));
    assert_eq!(app.scroll, 0);
    scroll(&mut app, key(Key::Char('G')));
    assert!(app.follow);
    app.scroll = u16::MAX;
    scroll(&mut app, key(Key::Char('j')));
    assert_eq!(app.scroll, u16::MAX);
    scroll(&mut app, key(Key::Home));
    assert_eq!((app.scroll, app.follow), (0, false));
}

#[test]
fn the_view_is_clamped_to_the_text() {
    let mut app = App::new();
    assert_eq!(settle_scroll(&mut app, 30, 10), 20);
    assert_eq!(app.scroll, 20);
    app.follow = false;
    app.scroll = 50;
    assert_eq!(settle_scroll(&mut app, 30, 10), 20);
    assert_eq!(app.scroll, 20);
    app.scroll = 3;
    settle_scroll(&mut app, 5, 10);
    assert_eq!(app.scroll, 0);
}

#[test]
fn a_mark_followed_by_spaces_is_still_split_off() {
    assert_eq!(split_mark("Astra [new]  "), ("Astra".to_string(), Mark::New));
    assert_eq!(split_mark("Astra   [updated]\t"), ("Astra".to_string(), Mark::Updated));
    assert_eq!(split_mark("Astra  "), ("Astra".to_string(), Mark::Carried));
    assert_eq!(split_mark("Astra[new]"), ("Astra".to_string(), Mark::New));
}

#[test]
fn wrap_fills_each_line_before_starting_the_next() {
    assert_eq!(wrap("aa bb cc dd e", 5), vec!["aa bb", "cc dd", "e"]);
    assert_eq!(wrap("  a   b  ", 10), vec!["a b"]);
    assert_eq!(wrap("   ", 10), vec![""]);
}

#[test]
fn every_laid_out_line_fits_the_pane() {
    let text = "## A heading long enough to wrap [new]\n- a bullet that runs on for a good many words\nplain text that also runs on and on";
    for width in [0usize, 10, 12, 17] {
        let limit = width.max(10);
        for line in layout_text(text, width) {
            assert!(line.text.chars().count() <= limit, "{:?} is wider than {}", line.text, limit);
        }
    }
}
