//! Whose address is whose.
use msg::address_book::{ContactRow, PHONES_SQL, collect};
use msg::contacts::{ContactIndex, emit_phone, handle_key, name_handles};

fn index() -> ContactIndex {
    ContactIndex::for_test([
        ("3105551234", "test:1", "Dana Reyes"),
        ("4155559876", "test:2", "Sam Oyelaran"),
    ])
}

#[test]
fn reduces_every_stored_phone_format_to_the_same_key() {
    let formats = [
        "+13105551234",
        "(310) 555-1234",
        "310-555-1234",
        "3105551234",
        "+1 (310) 555-1234",
        "1 (310) 555-1234",
        "310.555.1234",
        "1-310-555-1234",
    ];
    for format in formats {
        assert_eq!(
            handle_key(format).as_deref(),
            Some("3105551234"),
            "{format}"
        );
    }
}

#[test]
fn lowercases_email_addresses() {
    assert_eq!(
        handle_key("Dana@Example.COM").as_deref(),
        Some("dana@example.com")
    );
    assert_eq!(
        handle_key("  dana@example.com  ").as_deref(),
        Some("dana@example.com")
    );
}

#[test]
fn keeps_short_codes_intact() {
    assert_eq!(handle_key("22000").as_deref(), Some("22000"));
}

#[test]
fn matches_international_numbers_on_their_final_digits() {
    assert_eq!(handle_key("+442071234567").as_deref(), Some("2071234567"));
}

#[test]
fn returns_none_for_empty_or_digitless_handles() {
    assert_eq!(handle_key(""), None);
    assert_eq!(handle_key("   "), None);
    assert_eq!(handle_key("---"), None);
}

#[test]
fn finds_people_by_either_name_and_by_address() {
    let index = index().nicknamed("3105551234", "Dee");

    for term in ["Dee", "dee", "Dana Reyes", "reyes"] {
        let found = index.find(term);
        assert_eq!(found.len(), 1, "looking up {term}: {found:?}");
        assert_eq!(found[0].name, "Dee", "looking up {term}");
        assert_eq!(found[0].handle, "3105551234", "looking up {term}");
    }

    let by_address = index.find("+1 (310) 555-1234");
    assert_eq!(by_address.len(), 1);
    assert_eq!(by_address[0].name, "Dee");

    assert!(index.find("nobody").is_empty());
    assert!(index.find("  ").is_empty());
}

#[test]
fn an_address_beats_a_name_that_contains_it() {
    let index = ContactIndex::for_test([
        ("dana@example.com", "test:1", "Dana Reyes"),
        ("+13105551234", "test:2", "dana@example.com is my email"),
    ]);

    let found = index.find("dana@example.com");
    assert_eq!(found.len(), 1, "{found:?}");
    assert_eq!(found[0].name, "Dana Reyes", "{found:?}");
}

#[test]
fn keeps_the_shown_name_and_the_filed_one_apart() {
    let index = index().nicknamed("3105551234", "Dee");

    let dee = index.contact(Some("+13105551234")).unwrap();
    assert_eq!(dee.name, "Dee");
    assert_eq!(dee.filed_as.as_deref(), Some("Dana Reyes"));
    assert_eq!(index.lookup(Some("+13105551234")), Some("Dee"));

    let sam = index.contact(Some("+14155559876")).unwrap();
    assert_eq!(sam.name, "Sam Oyelaran");
    assert_eq!(sam.filed_as, None);
}

#[test]
fn answers_to_both_of_a_contacts_names_whatever_the_case() {
    let index = index().nicknamed("3105551234", "Dee");
    let dana = index.contact(Some("+13105551234")).unwrap();

    assert!(dana.answers_to("dee"), "the nickname");
    assert!(dana.answers_to("reyes"), "part of the name");
    assert!(!dana.answers_to("sam"), "somebody else");

    assert!(dana.is_named("dee") && dana.is_named("dana reyes"));
    assert!(!dana.is_named("de") && !dana.is_named("dana"));
}

#[test]
fn asks_a_whole_conversations_worth_of_handles_at_once() {
    let index = index().nicknamed("4155559876", "Sammy");
    let handles = Some("+13105551234,+14155559876");

    assert!(index.any_answers_to(handles, "sammy"));
    assert!(index.any_named(handles, "sammy"));
    assert!(!index.any_answers_to(handles, "rocket"));
    assert!(!index.any_answers_to(None, "sammy"));
}

#[test]
fn names_every_handle_it_recognizes() {
    assert_eq!(
        name_handles(&index(), Some("+13105551234,+14155559876")).as_deref(),
        Some("Dana Reyes, Sam Oyelaran")
    );
}

#[test]
fn leaves_unknown_handles_as_they_were() {
    assert_eq!(
        name_handles(&index(), Some("+13105551234,+19998887777")).as_deref(),
        Some("Dana Reyes, +19998887777")
    );
}

#[test]
fn passes_none_through() {
    assert_eq!(name_handles(&index(), None), None);
}

#[test]
fn is_a_no_op_against_the_empty_index() {
    let empty = ContactIndex::empty();
    assert_eq!(
        name_handles(&empty, Some("+13105551234")).as_deref(),
        Some("+13105551234")
    );
    assert_eq!(empty.lookup(Some("+13105551234")), None);
}

#[test]
fn resolves_one_person_whole() {
    let index = ContactIndex::for_test([
        ("+1 (310) 555-1234", "a:1", "Dana Reyes"),
        ("dana@example.com", "a:1", "Dana Reyes"),
        ("+14155550000", "a:2", "Sam Oyelaran"),
    ])
    .labeled("+13105551234", "mobile");
    let person = index.person("dana").unwrap();
    assert_eq!(person.id, "a:1");
    assert_eq!(person.name, "Dana Reyes");
    assert_eq!(person.emails.len(), 1);
    assert_eq!(person.emails[0].value, "dana@example.com");
    assert_eq!(person.phones[0].value, "+13105551234");
    assert_eq!(person.phones[0].label.as_deref(), Some("mobile"));
}

#[test]
fn several_people_are_an_error_naming_them() {
    let index = ContactIndex::for_test([
        ("+13105551234", "a:1", "Dana Reyes"),
        ("+14155550000", "a:2", "Dana Smith"),
    ]);
    match index.person("dana") {
        Err(msg::Error::Ambiguous(message)) => {
            assert!(message.contains("2 people match dana"), "{message}");
            assert!(
                message.contains("Dana Reyes") && message.contains("Dana Smith"),
                "{message}"
            );
            assert!(message.contains("+13105551234"), "{message}");
        }
        other => panic!("expected ambiguity, got {other:?}"),
    }
}

#[test]
fn a_whole_name_settles_what_a_fragment_started() {
    let index = ContactIndex::for_test([
        ("+13105551234", "a:1", "Bob"),
        ("+14155550000", "a:2", "Bobby Tables"),
    ]);
    assert_eq!(index.person("bob").unwrap().name, "Bob");
    assert!(matches!(
        index.person("bo"),
        Err(msg::Error::Ambiguous(_))
    ));
}

#[test]
fn an_address_wins_outright() {
    let index = ContactIndex::for_test([
        ("dana@example.com", "a:1", "Dana Reyes"),
        ("+14155550000", "a:2", "Dana Smith"),
    ]);
    assert_eq!(index.person("dana@example.com").unwrap().id, "a:1");
}

#[test]
fn a_partial_load_refuses_to_resolve() {
    let index = ContactIndex::for_test([("+13105551234", "a:1", "Dana Reyes")])
        .with_problem("Sources/x/AddressBook-v22.abcddb: unable to open database file");
    match index.person("dana") {
        Err(msg::Error::AccessDenied(message)) => {
            assert!(message.contains("AddressBook-v22.abcddb"), "{message}");
        }
        other => panic!("expected a refusal, got {other:?}"),
    }
}

#[test]
fn nobody_matching_is_an_ordinary_error() {
    let index = ContactIndex::for_test([("+13105551234", "a:1", "Dana Reyes")]);
    assert!(matches!(index.person("zelda"), Err(msg::Error::Other(_))));
}

#[test]
fn emit_phone_strips_separators_and_never_invents() {
    assert_eq!(emit_phone("+1 (310) 555-1234"), "+13105551234");
    assert_eq!(emit_phone("310.555.1234"), "3105551234");
    assert_eq!(emit_phone("  22000 "), "22000");
    assert_eq!(emit_phone("310-555-1234 x89"), "310-555-1234 x89");
}

/// The rows of one of the Contacts queries.
fn contact_rows(db: &rusqlite::Connection, sql: &str) -> Vec<ContactRow> {
    let mut statement = db.prepare(sql).unwrap();
    let mut rows = statement.query([]).unwrap();
    let mut out = Vec::new();
    while let Some(row) = rows.next().unwrap() {
        let text = |column: &str| row.get::<_, Option<String>>(column).ok().flatten();
        out.push(ContactRow {
            handle: text("handle"),
            label: text("label"),
            record: row.get::<_, i64>("record").ok(),
            first: text("ZFIRSTNAME"),
            last: text("ZLASTNAME"),
            nickname: text("ZNICKNAME"),
            organization: text("ZORGANIZATION"),
        });
    }
    out
}

#[test]
fn shows_the_nickname_and_keeps_the_filed_name_to_be_found_by() {
    let db = rusqlite::Connection::open_in_memory().unwrap();
    db.execute_batch(
        "CREATE TABLE ZABCDRECORD (Z_PK INTEGER PRIMARY KEY, ZFIRSTNAME TEXT,
           ZLASTNAME TEXT, ZNICKNAME TEXT, ZORGANIZATION TEXT);
         CREATE TABLE ZABCDPHONENUMBER (ZOWNER INTEGER, ZFULLNUMBER TEXT, ZLABEL TEXT);
         INSERT INTO ZABCDRECORD VALUES
           (1, 'Robin', 'Adeyemi', 'Rocket', NULL),
           (2, NULL, NULL, 'Rocket', NULL);
         INSERT INTO ZABCDPHONENUMBER (ZOWNER, ZFULLNUMBER, ZLABEL) VALUES
           (1, '+13105551234', '_$!<Mobile>!$_'), (2, '(415) 555-9876', NULL);",
    )
    .unwrap();

    let rows = contact_rows(&db, PHONES_SQL);
    let index = collect(ContactIndex::empty(), "test", &rows);

    let named = index.contact(Some("+13105551234")).unwrap();
    assert_eq!(named.name, "Rocket");
    assert_eq!(named.filed_as.as_deref(), Some("Robin Adeyemi"));
    assert_eq!(named.label.as_deref(), Some("mobile"));
    assert_eq!(index.contact(Some("+14155559876")).unwrap().label, None);

    let unnamed = index.contact(Some("+14155559876")).unwrap();
    assert_eq!(unnamed.name, "Rocket");
    assert_eq!(unnamed.filed_as, None);

    assert!(named.answers_to("rocket") && unnamed.answers_to("rocket"));
    assert!(named.answers_to("adeyemi"));
}
