//! What a terminal shows.
use msg::db::{Chat, Message, ReplyTo, Tapback};
use msg::format::{
    Render, Renderer, Trail, day_header, format_timestamp, one_line, pad_end, relative_age,
    render_chats, render_messages, styling_allowed, truncate, width_of,
};

fn chat(name: &str) -> Chat {
    Chat {
        rowid: 1,
        guid: "iMessage;+;c".into(),
        identifier: "c".into(),
        display_name: Some(name.into()),
        handles: None,
        named_handles: None,
        is_filtered: false,
        member_count: 1,
        is_group: false,
        last_date: Some(now_millis()),
        message_count: 1,
        name: name.into(),
    }
}

fn at(iso: &str) -> Option<i64> {
    Some(
        chrono::DateTime::parse_from_rfc3339(iso)
            .unwrap()
            .timestamp_millis(),
    )
}

fn now_millis() -> i64 {
    chrono::Utc::now().timestamp_millis()
}

/// What this machine's clock shows at an instant.
fn local(millis: i64) -> i64 {
    chrono::DateTime::from_timestamp_millis(millis)
        .unwrap()
        .with_timezone(&chrono::Local)
        .naive_local()
        .and_utc()
        .timestamp_millis()
}

/// Noon on a clock that shows this day.
fn civil(year: i32, month: u32, day: u32) -> i64 {
    chrono::NaiveDate::from_ymd_opt(year, month, day)
        .unwrap()
        .and_hms_opt(12, 0, 0)
        .unwrap()
        .and_utc()
        .timestamp_millis()
}

#[test]
fn a_missing_date_renders_as_nothing() {
    assert_eq!(format_timestamp(None), "");
    assert_eq!(relative_age(None), "never");
}

#[test]
fn ages_read_in_the_largest_unit_that_fits() {
    let now = now_millis();
    assert_eq!(relative_age(Some(now)), "just now");
    assert_eq!(
        relative_age(Some(now - chrono::Duration::seconds(59).num_milliseconds())),
        "just now"
    );
    assert_eq!(
        relative_age(Some(now - chrono::Duration::minutes(5).num_milliseconds())),
        "5m ago"
    );
    assert_eq!(
        relative_age(Some(now - chrono::Duration::hours(3).num_milliseconds())),
        "3h ago"
    );
    assert_eq!(
        relative_age(Some(now - chrono::Duration::days(9).num_milliseconds())),
        "9d ago"
    );
    assert!(relative_age(Some(now - chrono::Duration::days(400).num_milliseconds())).contains(','));
}

#[test]
fn a_date_in_the_future_reads_as_just_now() {
    assert_eq!(
        relative_age(Some(now_millis() + chrono::Duration::hours(2).num_milliseconds())),
        "just now"
    );
}

#[test]
fn a_timestamp_has_no_leading_zero_on_the_hour() {
    let stamp = format_timestamp(at("2026-01-15T17:30:00Z"));
    assert!(!stamp.starts_with('0'), "{stamp}");
    assert!(stamp.contains(':'), "{stamp}");
    assert!(stamp.ends_with("AM") || stamp.ends_with("PM"), "{stamp}");
}

#[test]
fn truncation_counts_display_cells_rather_than_bytes_or_scalars() {
    assert_eq!(truncate("hello", 10), "hello");
    assert_eq!(truncate("hello", 5), "hello");
    assert_eq!(truncate("hello", 4), "hel…");
    assert_eq!(truncate("café room", 6), "café …");
    assert_eq!(width_of(&pad_end("café", 8)), 8);
}

#[test]
fn an_emoji_is_two_cells_wide() {
    assert_eq!(width_of("😀"), 2);
    assert_eq!(width_of("😀😀"), 4);
    assert_eq!(width_of("AAAA"), 4);
    assert_eq!(width_of(&pad_end("😀😀", 9)), width_of(&pad_end("AAAA", 9)));
}

#[test]
fn every_rendered_row_is_the_same_width() {
    let names = ["AAAA", "😀😀", "Ship Room", "café", "日本語のグループ"];
    let chats: Vec<Chat> = names.iter().map(|name| chat(name)).collect();
    let rendered = render_chats(&chats);
    let widths: Vec<usize> = rendered
        .lines()
        .map(|line| width_of(line.trim_end()) + line.len() - line.trim_end().len())
        .collect();
    let full: Vec<usize> = rendered.lines().map(width_of).collect();
    assert!(
        full.windows(2).all(|pair| pair[0] == pair[1]),
        "rows differ in width: {full:?} (trimmed {widths:?})\n{rendered}"
    );
}

#[test]
fn truncation_never_overruns_its_budget() {
    for name in [
        "😀😀😀😀😀",
        "日本語のグループチャット",
        "aaaaaaaaaa",
        "a😀a😀a😀",
        "❤️❤️❤️❤️",
        "👨‍👩‍👧 family 👨‍👩‍👧",
        "e\u{301}e\u{301}e\u{301}",
    ] {
        for width in 1..12 {
            let cut = truncate(name, width);
            assert!(
                width_of(&cut) <= width,
                "{name:?} at {width}: {cut:?} is {} cells",
                width_of(&cut)
            );
        }
    }
    // A heart is two cells with its variation selector and one without.
    assert_eq!(truncate("❤️❤️❤️", 3), "❤️…");
    assert_eq!(truncate("❤️❤️❤️", 1), "…");
    assert_eq!(truncate("hello", 0), "…");
    assert_eq!(width_of("…"), 1);

    let drawn = Render::of(true, false, false);
    assert_eq!((drawn.trail, drawn.day_headers), (Trail::Symbols, false));
    let drawn = Render::of(false, true, true);
    assert_eq!((drawn.trail, drawn.day_headers, drawn.styled), (Trail::Off, true, true));
}

#[test]
fn an_empty_result_says_so_rather_than_printing_nothing() {
    assert_eq!(render_chats(&[]), "no chats found\n");
    assert_eq!(
        render_messages(
            &[],
            Render {
                show_chat: false,
                trail: Trail::Symbols,
                day_headers: false,
                styled: false
            }
        ),
        "no messages found\n"
    );
}

fn message(rowid: i64, sender: &str, body: &str) -> Message {
    Message {
        rowid,
        guid: format!("m{rowid}"),
        is_from_me: sender == "me",
        body: Some(body.into()),
        associated_message_type: 0,
        is_tapback: false,
        date: at("2026-01-15T17:30:00Z"),
        handle: None,
        contact_name: None,
        sender: sender.into(),
        chat_id: 1,
        chat_name: None,
        service: Some("iMessage".into()),
        attachments: Vec::new(),
        reply_to: None,
        tapbacks: Vec::new(),
        matched: true,
        group: None,
    }
}

#[test]
fn context_marks_the_hit_and_separates_the_runs() {
    let context = |rowid, group, body| {
        let mut message = message(rowid, "Dana Reyes", body);
        message.matched = false;
        message.group = Some(group);
        message
    };
    let hit = |rowid, group, body| {
        let mut message = message(rowid, "Dana Reyes", body);
        message.group = Some(group);
        message
    };

    let rendered = render_messages(
        &[
            context(1, 0, "before"),
            hit(2, 0, "the needle"),
            context(3, 1, "elsewhere"),
            hit(4, 1, "the needle again"),
        ],
        Render {
            show_chat: false,
            trail: Trail::Symbols,
            day_headers: false,
            styled: false,
        },
    );

    let lines: Vec<&str> = rendered.lines().collect();
    assert!(lines[0].starts_with("  Jan 15,"), "{lines:?}");
    assert!(lines[1].starts_with("> Jan 15,"), "{lines:?}");
    assert_eq!(lines[2], "--", "{lines:?}");
    assert!(lines[3].starts_with("  Jan 15,"), "{lines:?}");
    assert!(lines[4].starts_with("> Jan 15,"), "{lines:?}");
    assert_eq!(rendered.matches("\n--\n").count(), 1, "{rendered}");
}

#[test]
fn without_context_nothing_gains_a_gutter() {
    // On a clock in Los Angeles, eight hours behind.
    let messages = [message(1, "Dana Reyes", "hello")];
    let clock = messages[0].date.map(|date| date - 8 * 3_600_000);
    let rendered = Renderer::new(Render {
        show_chat: false,
        trail: Trail::Symbols,
        day_headers: false,
        styled: false,
    })
    .render_at(&messages, &[clock], civil(2026, 7, 10));
    assert_eq!(rendered, "Jan 15, 9:30 AM  Dana Reyes: hello\n");
}

#[test]
fn a_reply_says_what_it_is_answering() {
    let mut reply = message(2, "me", "yes, that works");
    reply.reply_to = Some(ReplyTo {
        rowid: 1,
        sender: "Dana Reyes".into(),
        excerpt: Some("are you around later".into()),
    });
    let out = render_messages(
        &[message(1, "Dana Reyes", "are you around later"), reply],
        Render {
            show_chat: false,
            trail: Trail::Symbols,
            day_headers: false,
            styled: false,
        },
    );

    let lines: Vec<&str> = out.lines().collect();
    assert_eq!(lines.len(), 3, "{out}");
    assert!(
        lines[1].contains("↳ replying to Dana Reyes: are you around later"),
        "{out}"
    );
    assert!(lines[1].starts_with("       "), "{out}");
    assert!(lines[2].contains("me: yes, that works"), "{out}");
}

#[test]
fn a_header_reads_relative_then_weekday_then_the_date() {
    let now = civil(2026, 7, 10);
    let header = |y, m, d| day_header(civil(y, m, d), now);
    assert_eq!(header(2026, 7, 10), "Today");
    assert_eq!(header(2026, 7, 9), "Yesterday");
    assert_eq!(header(2026, 7, 7), "Tuesday");
    assert_eq!(header(2026, 7, 4), "Saturday");
    assert_eq!(header(2026, 7, 3), "Friday, July 3");
    assert_eq!(header(2026, 6, 30), "Tuesday, June 30");
    assert_eq!(header(2025, 12, 31), "Wednesday, December 31, 2025");
}

#[test]
fn a_newline_in_a_body_folds_to_a_visible_mark() {
    assert_eq!(
        one_line("How are you doing?\n\nI'm fine.", false),
        "How are you doing?↵↵I'm fine."
    );
    assert_eq!(one_line("a\r\nb", false), "a↵b", "\\r\\n folds once");
    assert_eq!(
        one_line("ends here\n\n", false),
        "ends here",
        "trailing trimmed"
    );
    let styled = one_line("a\nb", true);
    assert_eq!(styled, "a\x1b[90m↵\x1b[0mb");
    assert!(
        !styled.starts_with('\x1b') && !styled.ends_with('m'),
        "{styled:?}"
    );
}

#[test]
fn styling_needs_a_terminal_and_no_refusal() {
    assert!(styling_allowed(None, None, true));
    assert!(!styling_allowed(None, None, false), "a pipe");
    assert!(
        !styling_allowed(Some("1"), None, true),
        "NO_COLOR"
    );
    assert!(
        styling_allowed(Some(""), None, true),
        "empty NO_COLOR does not count, per no-color.org"
    );
    assert!(
        !styling_allowed(None, Some("dumb"), true),
        "TERM=dumb"
    );
    assert!(styling_allowed(
        None,
        Some("xterm-256color"),
        true
    ));
}

#[test]
fn a_day_change_gets_a_header_and_messages_keep_only_a_time() {
    let year = chrono::Datelike::year(&chrono::Local::now());
    let mut first = message(1, "Dana Reyes", "late one");
    first.date = at(&format!("{year}-06-15T17:30:00Z"));
    let mut second = message(2, "me", "early the next");
    second.date = at(&format!("{year}-06-16T17:30:00Z"));

    let options = Render {
        show_chat: false,
        trail: Trail::Symbols,
        day_headers: true,
        styled: false,
    };
    let out = render_messages(&[first.clone(), second.clone()], options);
    let lines: Vec<&str> = out.lines().collect();
    assert_eq!(lines.len(), 4, "{out}");
    let now = local(now_millis());
    assert_eq!(
        lines[0],
        day_header(local(first.date.unwrap()), now),
        "{out}"
    );
    assert_eq!(
        lines[2],
        day_header(local(second.date.unwrap()), now),
        "{out}"
    );
    assert_ne!(lines[0], lines[2], "{out}");
    assert!(
        lines[1].contains("late one") && !lines[1].contains("Jan"),
        "{out}"
    );

    let bold = render_messages(
        &[first.clone()],
        Render {
            styled: true,
            ..options
        },
    );
    let bold_lines: Vec<&str> = bold.lines().collect();
    assert!(
        bold_lines[0].starts_with("\x1b[1m") && bold_lines[0].ends_with("\x1b[0m"),
        "{bold:?}"
    );
    assert!(!bold_lines[1].contains('\x1b'), "{bold:?}");

    let mut renderer = Renderer::new(options);
    let one = renderer.render(std::slice::from_ref(&first));
    let two = renderer.render(std::slice::from_ref(&second));
    assert_eq!(one.lines().count(), 2, "{one}");
    let mut third = message(3, "me", "still the sixteenth");
    third.date = at(&format!("{year}-06-16T18:00:00Z"));
    let three = renderer.render(std::slice::from_ref(&third));
    assert_eq!(two.lines().count(), 2, "{two}");
    assert_eq!(three.lines().count(), 1, "{three}");
}

#[test]
fn the_trail_names_who_reacted_only_when_asked() {
    let mut reacted = message(1, "Dana Reyes", "deploy is green");
    reacted.tapbacks = vec![
        Tapback {
            associated_message_type: 2000,
            symbol: "❤️".into(),
            date: at("2026-01-15T17:31:00Z"),
            is_from_me: false,
            handle: Some("+13105551234".into()),
            contact_name: Some("Sam Oyelaran".into()),
        },
        Tapback {
            associated_message_type: 2001,
            symbol: "👍".into(),
            date: at("2026-01-15T17:32:00Z"),
            is_from_me: true,
            handle: None,
            contact_name: None,
        },
    ];
    let named = render_messages(
        std::slice::from_ref(&reacted),
        Render {
            show_chat: false,
            trail: Trail::Named,
            day_headers: false,
            styled: false,
        },
    );
    assert!(named.contains("green ← ❤️  Sam Oyelaran, 👍 me"), "{named}");
    let bare = render_messages(
        std::slice::from_ref(&reacted),
        Render {
            show_chat: false,
            trail: Trail::Symbols,
            day_headers: false,
            styled: false,
        },
    );
    assert!(bare.contains("green ← ❤️ 👍"), "{bare}");
    assert!(!bare.contains("Sam"), "{bare}");
}

#[test]
fn a_message_that_is_not_a_reply_is_unchanged() {
    let out = render_messages(
        &[message(1, "Dana Reyes", "hello")],
        Render {
            show_chat: false,
            trail: Trail::Symbols,
            day_headers: false,
            styled: false,
        },
    );
    assert_eq!(out.lines().count(), 1, "{out}");
    assert!(!out.contains("↳"), "{out}");
}

#[test]
fn a_reply_to_something_with_no_text_still_renders() {
    let mut reply = message(2, "me", "noted");
    reply.reply_to = Some(ReplyTo {
        rowid: 1,
        sender: "Dana Reyes".into(),
        excerpt: None,
    });
    let out = render_messages(
        &[reply],
        Render {
            show_chat: false,
            trail: Trail::Symbols,
            day_headers: false,
            styled: false,
        },
    );
    assert!(out.contains("↳ replying to Dana Reyes: (no text)"), "{out}");
}
