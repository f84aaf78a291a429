//! What holds of the library as a whole, on values.
use msg::address_book::{book_problem, source_label};
use msg::apple::parse_duration;
use msg::attachments::{describe_attachments, excerpt, ids_to_ask};
use msg::bodies::body_has;
use msg::contacts::{emit_phone, handle_key};
use msg::context::{Context, Surrounded, with_context};
use msg::daemon::server::advance;
use msg::db::{Attachment, Message, human_bytes, tapback_symbol};
use msg::fetch::{first_ask, merge_threads, up_to};
use msg::format::{truncate, width_of};
use msg::matching::begins_a_word;
use msg::order::{is_text_before, sort};
use msg::queries::{attachments_queries, replies_queries, slots_for, tapbacks_queries};
use msg::resolve::{by_person, naming, their_own};
use msg::tapbacks::{TapbackRow, tapbacks_on};
use msg::text::{decimal_of, is_white, lines_of, pieces, trim_text, words_of};
use msg::wide::{Standing, minus, times_plus, weigh};
use msg::{contacts, iso};

fn message(rowid: i64, chat_id: i64, date: i64) -> Message {
    Message {
        rowid,
        guid: format!("m{rowid}"),
        is_from_me: false,
        body: Some(format!("body {rowid}")),
        associated_message_type: 0,
        is_tapback: false,
        date: Some(date),
        handle: None,
        contact_name: None,
        sender: "unknown".into(),
        chat_id,
        chat_name: None,
        service: None,
        attachments: Vec::new(),
        reply_to: None,
        tapbacks: Vec::new(),
        matched: true,
        group: None,
    }
}

fn attachment(name: &str) -> Attachment {
    Attachment {
        rowid: 5,
        name: Some(name.into()),
        mime_type: None,
        uti: None,
        total_bytes: 2_048,
        is_sticker: false,
        is_downloaded: true,
    }
}

#[test]
fn white_space_is_what_unicode_says_it_is() {
    for n in 0..=0x10ffffu32 {
        if let Some(c) = char::from_u32(n) {
            assert_eq!(is_white(c), c.is_whitespace(), "{n:x}");
        }
    }
    assert_eq!(trim_text("\u{2003} a b \n"), "a b");
    assert_eq!(decimal_of(i64::MIN), i64::MIN.to_string());
    assert_eq!(pieces(&['a', ',', ',', 'b'], ','), ["a", "", "b"]);
    assert_eq!(words_of(&[' ', 'a', '\t', 'b']), ["a", "b"]);
    assert_eq!(lines_of("a\r\nb\n\nc"), "a\r\nb\n\nc".lines().collect::<Vec<_>>());
}

#[test]
fn sizes_round_the_way_formatting_does() {
    for bytes in [0i64, 1, 1_023, 1_024, 1_075, 1_076, 1_536, 10_291, 1_048_575, 1_048_576, 5_000_000_000] {
        let mut value = bytes as f64;
        let mut unit = 0;
        while value >= 1024.0 && unit < 4 {
            value /= 1024.0;
            unit += 1;
        }
        let expected = if unit == 0 {
            format!("{bytes} B")
        } else {
            format!("{value:.1} {}", ["B", "KB", "MB", "GB", "TB"][unit])
        };
        assert_eq!(human_bytes(bytes), expected, "{bytes}");
    }
}

#[test]
fn a_date_reads_back_from_its_text() {
    for millis in [0i64, 1_768_498_200_000, -1, 951_782_400_123, 253_402_300_799_999] {
        let written = iso::serialize(Some(millis)).unwrap();
        assert_eq!(iso::deserialize(Some(&written)), Some(millis), "{written}");
    }
    assert_eq!(iso::serialize(None), None);
    assert_eq!(iso::deserialize(Some("not a date")), None);
}

#[test]
fn a_key_is_its_own_key_and_a_number_is_its_digits() {
    assert_eq!(handle_key(" \u{2003} "), None);
    assert_eq!(handle_key("Dana Reyes"), None);
    assert_eq!(handle_key("code 5, then 7").as_deref(), Some("57"));
    for handle in ["+1 (310) 555-1234", "Dana@Example.com", "22000", "ÉLODIE@ΟΔΟΣ.GR", "İ@x"] {
        let key = handle_key(handle).unwrap();
        assert_eq!(handle_key(&key).as_deref(), Some(key.as_str()), "{handle}");
    }
    assert_eq!(handle_key("(310) 555-1234"), handle_key("310.555.1234"));
    assert_eq!(handle_key(" Dana@Example.com ").as_deref(), Some("dana@example.com"));
    assert_eq!(emit_phone("(310) 555-1234"), "3105551234");
    assert_eq!(emit_phone("+1 (310) 555-1234"), "+13105551234");
    assert_eq!(contacts::MATCH_DIGITS, 10);
}

#[test]
fn a_watermark_passes_everything_it_handed_over() {
    assert_eq!(advance(5, &[], 7), 7);
    assert_eq!(advance(5, &[message(6, 1, 0)], 7), 7);
    assert_eq!(advance(5, &[message(9, 1, 0)], 7), 9);
}

/// A number as limbs.
fn wide(n: u128) -> Vec<u32> {
    (0..5).map(|at| n.checked_shr(32 * at).unwrap_or(0) as u32).collect()
}

#[test]
fn a_duration_is_what_a_double_makes_of_it() {
    let now = 1_768_498_200_000i64;
    let mut amounts: Vec<String> = [
        "0", "00.10", "0.1", "0.3", "4.35", "2.675", "1.005", "8.41", "16.05", "999999999.999",
        "9007199254740993", "9007199254740992.5", "9007199254740993.00000000000000000001",
        "4503599627370497.5", "4503599627370496.5", "0.000016666666666666667", "123456789.987654321",
        "15250284452", "15250284453", "152502844.52471878", "0.0000000000000000000000001",
    ]
    .iter()
    .map(|amount| amount.to_string())
    .collect();
    for n in 0..400u64 {
        let mixed = n.wrapping_mul(0x9e37_79b9_7f4a_7c15);
        amounts.push(format!("{}.{:03}", n % 97, mixed % 1_000));
        amounts.push(format!("{}.{}", mixed >> (n % 60), mixed));
    }
    for nines in [17, 40, 290, 300, 304, 305, 306, 307, 308, 309, 400] {
        amounts.push("9".repeat(nines));
        amounts.push(format!("0.{}1", "0".repeat(nines)));
    }
    let edge = "179769313486231570814527423731704356798070567525844996598917476803157260780028538760\
                589558632766878171540458953514382464234321326889464182768467546703537516986049910576\
                551282076245490090389328944075868508455133942304583236903222948165808559332123347747\
                97926204144723168738177180919299881250404026184124858368";
    amounts.push(edge.to_string());
    for amount in &amounts {
        for (unit, scale) in [('m', 60_000i64), ('h', 3_600_000), ('d', 86_400_000), ('w', 604_800_000)] {
            let scaled = amount.parse::<f64>().unwrap() * scale as f64;
            let expected = scaled.is_finite().then(|| now.saturating_sub(scaled as i64));
            let spec: Vec<char> = amount.chars().chain([unit]).collect();
            assert_eq!(parse_duration(&spec, now), expected, "{amount}{unit}");
        }
    }
    let spec: Vec<char> = "4.35m".chars().collect();
    assert_eq!(parse_duration(&spec, now), Some(now - 260_999));

    for (a, b) in [(0u128, 0u128), (1, 0), (1 << 96, 1), (u128::MAX, u128::MAX - (1 << 64))] {
        assert_eq!(weigh(&minus(&wide(a), &wide(b)), &wide(a - b)), Standing::Level);
        assert_eq!(weigh(&wide(b), &wide(a)) == Standing::Below, b < a);
    }
    assert_eq!(weigh(&times_plus(&wide(1 << 90), 7, 9), &wide((7 << 90) + 9)), Standing::Level);
}

#[test]
fn sorting_is_stable_and_keeps_everything() {
    assert_eq!(sort(vec![3i64, 1, 2, 1]), [1, 1, 2, 3]);
    assert!(is_text_before("a", "ab") && is_text_before("Z", "a") && !is_text_before("b", "a"));
    assert_eq!(ids_to_ask(&[7, 3, 7, 1]), [1, 3, 7]);
}

#[test]
fn a_query_has_a_slot_for_each_value_it_binds() {
    assert_eq!(slots_for(3), "?,?,?");
    let ids: Vec<i64> = (0..1_901).collect();
    let asked = attachments_queries(&ids);
    assert_eq!(asked.len(), 3);
    let guids: Vec<String> = ids.iter().map(|id| format!("g{id}")).collect();
    let rest = [replies_queries(&guids), tapbacks_queries(&guids, true)];
    let mut bound = 0;
    for query in asked.iter().chain(rest.iter().flatten()) {
        assert_eq!(query.sql.matches('?').count(), query.values.len());
        assert!(query.values.len() <= 900);
        bound += query.values.len();
    }
    assert_eq!(bound, 3 * ids.len());
    assert!(attachments_queries(&[]).is_empty());
}

#[test]
fn a_word_begins_where_nothing_like_a_word_stands_before_it() {
    assert!(begins_a_word("starting now", "start"));
    assert!(!begins_a_word("an apartment", "art"));
    assert!(begins_a_word("anything", ""));
    assert!(begins_a_word("お元気ですか", "元気"));
    assert!(begins_a_word("see apartment or art", "art"));
}

/// The Kelvin sign folds to `k`, and a byte for byte search does not see it.
#[test]
fn the_prefilter_passes_what_a_search_would_keep() {
    let archive = b"\x04\x0bstreamtyped\xff\x01Deploy AT noon\x86".to_vec();
    assert!(body_has(None, Some(&archive), "deploy at"));
    assert!(body_has(Some("É deploy"), None, "DEPLOY"));
    assert!(body_has(Some("CAFÉ"), None, "café"));
    assert!(body_has(None, None, ""));
    let archive = [b"\x81\x01\x04".as_slice(), "ÇA VA".as_bytes(), b"\x86\x84"].concat();
    assert!(body_has(None, Some(&archive), "ça va"));
    assert!(!body_has(None, Some(&archive), "ça vas"));
    for broken in [b"\xe2\x82".as_slice(), b"\xf0\x9f\x98", b"\xff\xc3", b"\xed\xa0\x80", b"\x80"] {
        let archive = [broken, "É".as_bytes(), broken].concat();
        assert!(body_has(None, Some(&archive), "é"), "{broken:?}");
        assert!(!body_has(None, Some(broken), "é"), "{broken:?}");
    }
    assert!(!body_has(Some("\u{212a}elvin"), None, "kelvin"));
    assert!("\u{212a}elvin".to_lowercase().contains("kelvin"));
}

fn reaction(kind: i64, date: i64, handle: &str) -> TapbackRow {
    TapbackRow {
        target: Some("m1".into()),
        kind: Some(kind),
        emoji: None,
        date: Some(date),
        is_from_me: Some(0),
        handle: Some(handle.into()),
    }
}

#[test]
fn a_removal_undoes_the_reaction_it_is_of() {
    let none = contacts::ContactIndex::empty();
    let symbols = |rows: &[TapbackRow]| {
        tapbacks_on(rows, "m1", &none)
            .into_iter()
            .map(|tapback| tapback.symbol)
            .collect::<Vec<_>>()
    };
    let loved = tapback_symbol(2000, None).unwrap();
    assert_eq!(symbols(&[reaction(2000, 1, "a")]), [loved.clone()]);
    assert!(symbols(&[reaction(2000, 1, "a"), reaction(3000, 2, "a")]).is_empty());
    let others = [reaction(2000, 1, "a"), reaction(3000, 2, "b"), reaction(3001, 3, "a")];
    assert_eq!(symbols(&others), [loved]);
    assert!(tapbacks_on(&[reaction(2000, 1, "a")], "m2", &none).is_empty());
}

#[test]
fn threads_merge_in_order_and_tell_each_message_once() {
    let phone = vec![message(1, 4, 10), message(3, 4, 30)];
    let email = vec![message(2, 5, 20), message(3, 5, 30), message(4, 5, 40)];
    let merged = merge_threads(vec![phone, email], 3);
    let rowids: Vec<i64> = merged.iter().map(|one| one.rowid).collect();
    assert_eq!(rowids, [2, 3, 4]);
    assert_eq!((first_ask(25, true), first_ask(25, false)), (164, 25));
    assert_eq!(first_ask(i64::MAX, true), i64::MAX);
    assert_eq!((up_to(3), up_to(-1)), (3, usize::MAX));
}

#[test]
fn windows_that_touch_become_one_run() {
    let hit = |rowid: i64, earlier: &[i64], later: &[i64]| Surrounded {
        hit: message(rowid, 1, rowid),
        earlier: earlier.iter().map(|id| message(*id, 1, *id)).collect(),
        later: later.iter().map(|id| message(*id, 1, *id)).collect(),
    };
    let context = Context { before: 1, after: 1 };
    let shown = with_context(
        vec![hit(2, &[1], &[3, 4]), hit(4, &[3], &[5, 6]), hit(20, &[19], &[])],
        context,
    );
    let told: Vec<(i64, bool, Option<i64>)> =
        shown.iter().map(|one| (one.rowid, one.matched, one.group)).collect();
    assert_eq!(
        told,
        [
            (1, false, Some(0)),
            (2, true, Some(0)),
            (3, false, Some(0)),
            (4, true, Some(0)),
            (5, false, Some(0)),
            (19, false, Some(1)),
            (20, true, Some(1)),
        ]
    );
    let bare = with_context(vec![hit(2, &[], &[])], Context::default());
    assert_eq!((bare.len(), bare[0].group), (1, None));
}

#[test]
fn every_attachment_is_shown_where_the_body_points_at_it() {
    let both = [attachment("a.png"), attachment("b.png")];
    let body = describe_attachments(Some("see \u{fffc} then".into()), &both).unwrap();
    assert!(!body.contains('\u{fffc}'), "{body}");
    assert!(body.starts_with("see [") && body.contains("a.png"), "{body}");
    assert!(body.ends_with(&both[1].describe()), "{body}");
    let bare = describe_attachments(Some("\u{fffc}".into()), &[]).unwrap();
    assert_eq!(bare, "[attachment]");
    assert_eq!(describe_attachments(None, &[]), None);
    let cut = excerpt(&"word\n".repeat(40));
    assert!(cut.chars().count() <= 61 && !cut.contains('\n'), "{cut}");
}

#[test]
fn a_cut_fits_and_nothing_is_named_by_nobody() {
    for width in 1..8 {
        assert!(width_of(&truncate("naïve 日本語 text", width)) <= width, "{width}");
    }
    assert!(naming(&[]).is_err());
    assert!(their_own("x", Vec::new(), false).is_none());
    assert_eq!((source_label(None), source_label(Some("A"))), ("local".into(), "A".into()));
    assert_eq!(book_problem("/b", false, 0, 0).as_deref(), Some("no Contacts directory at /b"));
    assert_eq!(book_problem("/b", true, 0, 0).as_deref(), Some("no Contacts databases under /b"));
    assert_eq!(book_problem("/b", true, 0, 1), None);
    assert!(by_person("x", vec![chat(1, true), chat(2, false)], false).len() == 1);
    assert!(by_person("x", vec![chat(1, false), chat(2, true)], true).len() == 2);
    assert!(by_person("x", vec![chat(1, false), chat(2, true)], false).len() == 1);
}

fn chat(rowid: i64, is_filtered: bool) -> msg::db::Chat {
    msg::db::Chat {
        rowid,
        guid: String::new(),
        identifier: String::new(),
        display_name: None,
        handles: None,
        named_handles: None,
        is_filtered,
        member_count: 1,
        is_group: false,
        last_date: None,
        message_count: 0,
        name: String::new(),
    }
}
