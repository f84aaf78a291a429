//! Writing onto cards.
use std::sync::Mutex;

use msg::Error;
use msg::contacts::ContactIndex;
use msg::daemon::contacts_app::{ContactStore, TextField, ValueField, add, classify, may_add, update};
use msg::daemon::protocol::{PersonAddRequest, PersonUpdateRequest};


#[derive(Default)]
struct Fake {
    people: Vec<(&'static str, Vec<&'static str>)>,
    held: Vec<((&'static str, ValueField), Vec<&'static str>)>,
    log: Mutex<Vec<String>>,
}

impl Fake {
    fn saw(&self) -> Vec<String> {
        self.log.lock().unwrap().clone()
    }
}

impl ContactStore for Fake {
    fn find(&self, name: &str) -> Result<Vec<String>, Error> {
        self.log.lock().unwrap().push(format!("find {name}"));
        Ok(self
            .people
            .iter()
            .find(|(held, _)| *held == name)
            .map(|(_, ids)| ids.iter().map(ToString::to_string).collect())
            .unwrap_or_default())
    }

    fn create(&self, first: &str, last: &str) -> Result<String, Error> {
        self.log
            .lock()
            .unwrap()
            .push(format!("create {first}|{last}"));
        Ok("new-id".to_string())
    }

    fn values(&self, id: &str, field: ValueField) -> Result<Vec<String>, Error> {
        self.log
            .lock()
            .unwrap()
            .push(format!("values {id} {field:?}"));
        Ok(self
            .held
            .iter()
            .find(|((held, kind), _)| *held == id && *kind == field)
            .map(|(_, values)| values.iter().map(ToString::to_string).collect())
            .unwrap_or_default())
    }

    fn append(&self, id: &str, field: ValueField, value: &str) -> Result<(), Error> {
        self.log
            .lock()
            .unwrap()
            .push(format!("append {id} {field:?} {value}"));
        Ok(())
    }

    fn set(&self, id: &str, field: TextField, value: &str) -> Result<(), Error> {
        self.log
            .lock()
            .unwrap()
            .push(format!("set {id} {field:?} {value}"));
        Ok(())
    }
}

fn index() -> ContactIndex {
    ContactIndex::for_test([
        ("+13105551234", "a:1", "Dana Reyes"),
        ("+14155550000", "a:2", "Dana Smith"),
    ])
}

#[test]
fn add_splits_the_name_and_writes_every_field() {
    let fake = Fake::default();
    let reply = add(
        &fake,
        &PersonAddRequest {
            name: "Dana de la Reyes".into(),
            phones: vec!["(310) 555-1234".into()],
            emails: vec!["dana@example.com".into()],
            title: Some("Principal Engineer".into()),
            org: Some("Example Corp".into()),
            note: Some("referred by Sam".into()),
            duplicate: None,
        },
    )
    .unwrap();

    assert!(reply.created);
    assert_eq!(reply.id, "new-id");
    assert_eq!(reply.name, "Dana de la Reyes");
    assert_eq!(
        reply.changed,
        [
            "phone (310) 555-1234",
            "email dana@example.com",
            "title Principal Engineer",
            "org Example Corp",
            "note referred by Sam",
        ]
    );
    assert!(reply.unchanged.is_empty());
    let saw = fake.saw();
    assert!(
        saw.contains(&"create Dana|de la Reyes".to_string()),
        "{saw:?}"
    );
    assert!(!saw.iter().any(|op| op.starts_with("values")), "{saw:?}");
}

#[test]
fn add_refuses_a_name_that_already_answers() {
    let fake = Fake {
        people: vec![("Dana Reyes", vec!["old-id"])],
        ..Fake::default()
    };
    let ask = PersonAddRequest {
        name: "Dana Reyes".into(),
        ..Default::default()
    };
    match add(&fake, &ask) {
        Err(Error::Other(message)) => {
            assert!(message.contains("already in Contacts"), "{message}");
            assert!(message.contains("--duplicate"), "{message}");
            assert_eq!(may_add(vec!["id".into()], "Dana Reyes").unwrap_err().to_string(), message);
            assert!(may_add(Vec::new(), "Dana Reyes").is_ok());
        }
        other => panic!("expected a refusal, got {other:?}"),
    }
    assert!(!fake.saw().iter().any(|op| op.starts_with("create")));

    let again = add(
        &fake,
        &PersonAddRequest {
            duplicate: Some(true),
            ..ask
        },
    )
    .unwrap();
    assert!(again.created);
}

#[test]
fn add_needs_a_name() {
    assert!(matches!(
        add(
            &Fake::default(),
            &PersonAddRequest {
                name: "  ".into(),
                ..Default::default()
            }
        ),
        Err(Error::Other(_))
    ));
}

#[test]
fn update_appends_what_is_new_and_skips_what_is_held() {
    let fake = Fake {
        people: vec![("Dana Reyes", vec!["card-1"])],
        held: vec![(("card-1", ValueField::Phone), vec!["+1 (310) 555-1234"])],
        ..Fake::default()
    };
    let reply = update(
        &index(),
        &fake,
        &PersonUpdateRequest {
            term: "dana reyes".into(),
            phones: vec!["310-555-1234".into(), "3105559999".into()],
            title: Some("Staff Engineer".into()),
            ..Default::default()
        },
    )
    .unwrap();

    assert!(!reply.created);
    assert_eq!(reply.id, "card-1");
    assert_eq!(reply.name, "Dana Reyes");
    assert_eq!(reply.changed, ["phone 3105559999", "title Staff Engineer"]);
    assert_eq!(reply.unchanged, ["phone 310-555-1234"]);
    let saw = fake.saw();
    assert!(
        saw.contains(&"append card-1 Phone 3105559999".to_string()),
        "{saw:?}"
    );
    assert!(
        !saw.contains(&"append card-1 Phone 310-555-1234".to_string()),
        "{saw:?}"
    );
}

#[test]
fn update_refuses_an_ambiguous_term() {
    let fake = Fake::default();
    let outcome = update(
        &index(),
        &fake,
        &PersonUpdateRequest {
            term: "dana".into(),
            title: Some("Engineer".into()),
            ..Default::default()
        },
    );
    assert!(matches!(outcome, Err(Error::Ambiguous(_))), "{outcome:?}");
    assert!(fake.saw().is_empty(), "nothing may be written");
}

#[test]
fn update_addresses_the_card_by_its_filed_name() {
    let index = ContactIndex::for_test([("+13105551234", "a:1", "Dana Reyes")])
        .nicknamed("+13105551234", "Dee");
    let fake = Fake {
        people: vec![("Dana Reyes", vec!["card-1"])],
        ..Fake::default()
    };
    let reply = update(
        &index,
        &fake,
        &PersonUpdateRequest {
            term: "dee".into(),
            org: Some("Example Corp".into()),
            ..Default::default()
        },
    )
    .unwrap();
    assert_eq!(reply.name, "Dee");
    assert!(fake.saw().contains(&"find Dana Reyes".to_string()));
}

#[test]
fn update_with_nothing_to_write_is_refused_before_resolving() {
    let outcome = update(
        &index(),
        &Fake::default(),
        &PersonUpdateRequest {
            term: "dana".into(),
            ..Default::default()
        },
    );
    match outcome {
        Err(Error::Other(message)) => assert!(message.contains("nothing to write")),
        other => panic!("expected a refusal, got {other:?}"),
    }
}

#[test]
fn update_says_when_the_app_does_not_hold_the_person() {
    let outcome = update(
        &ContactIndex::for_test([("+13105551234", "a:1", "Dana Reyes")]),
        &Fake::default(),
        &PersonUpdateRequest {
            term: "dana".into(),
            note: Some("hello".into()),
            ..Default::default()
        },
    );
    match outcome {
        Err(Error::Other(message)) => {
            assert!(message.contains("nobody named Dana Reyes"), "{message}");
        }
        other => panic!("expected a refusal, got {other:?}"),
    }
}

#[test]
fn a_refused_apple_event_is_access_denied() {
    let refused =
        classify("execution error: Not authorized to send Apple events to Contacts. (-1743)");
    match refused {
        Error::AccessDenied(message) => assert!(message.contains("Automation"), "{message}"),
        other => panic!("{other:?}"),
    }
    assert!(matches!(
        classify("execution error: Contacts got an error (-1728)"),
        Error::Other(_)
    ));
}
