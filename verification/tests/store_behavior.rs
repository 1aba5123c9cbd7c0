//! Behavior of the store models: idempotent message insert, filtered
//! retrieval, the receipt merge rule, and the directory tables.

use courier::directory::Conversation;
use courier::directory::Mailboxes;
use courier::directory::Participant as ParticipantTable;
use courier::directory::StoreError;
use courier::models::InsertConversation;
use courier::models::InsertMessage;
use courier::models::Mailbox;
use courier::models::MessageFilters;
use courier::models::Receipt;
use courier::receipts::MessageReceipt;
use courier::store::Message;
use courier::store::time_now;

fn envelope(id: &str, mbox: &str, source: &str, text: &str, created: i64) -> InsertMessage {
    InsertMessage {
        source: source.to_string(),
        mbox: mbox.to_string(),
        text: text.to_string(),
        reply_to: None,
        created,
        id: id.to_string(),
    }
}

fn no_filters() -> MessageFilters {
    MessageFilters { source: None, created: None, reply_to: None, limit: None, offset: None }
}

#[test]
fn filters_default_limit_and_offset() {
    let f = no_filters();
    assert_eq!(f.limit(), 1000);
    assert_eq!(f.offset(), 0);
    let g = MessageFilters {
        source: None,
        created: None,
        reply_to: None,
        limit: Some(10),
        offset: Some(3),
    };
    assert_eq!(g.limit(), 10);
    assert_eq!(g.offset(), 3);
    // the page-size maximum is enforced; negative requests get the default
    let oversized = MessageFilters {
        source: None,
        created: None,
        reply_to: None,
        limit: Some(5000),
        offset: None,
    };
    assert_eq!(oversized.limit(), 1000);
    let negative = MessageFilters {
        source: None,
        created: None,
        reply_to: None,
        limit: Some(-1),
        offset: None,
    };
    assert_eq!(negative.limit(), 1000);
}

#[test]
fn duplicate_insert_keeps_one_row() {
    let mut store = Message::new();
    let m = envelope("m1", "c1", "alice", "hi", 5);
    let m_again = envelope("m1", "c1", "alice", "hi", 5);
    store.insert_many(vec![m]);
    store.insert_many(vec![m_again]);
    let got = store.retrieve(&"c1".to_string(), &no_filters());
    assert_eq!(got.len(), 1);
    assert_eq!(got[0].id, "m1");
    assert_eq!(got[0].text, "hi");
}

#[test]
fn duplicate_inside_one_batch_collapses() {
    let mut store = Message::new();
    let batch = vec![
        envelope("m1", "c1", "alice", "hi", 5),
        envelope("m1", "c1", "alice", "hi", 5),
        envelope("m2", "c1", "bob", "yo", 6),
    ];
    store.insert_many(batch);
    let got = store.retrieve(&"c1".to_string(), &no_filters());
    assert_eq!(got.len(), 2);
}

#[test]
fn retrieve_sorts_by_created_ascending() {
    let mut store = Message::new();
    store.insert_many(vec![
        envelope("m3", "c1", "a", "third", 30),
        envelope("m1", "c1", "a", "first", 10),
        envelope("m2", "c1", "a", "second", 20),
        envelope("x1", "other", "a", "elsewhere", 1),
    ]);
    let got = store.retrieve(&"c1".to_string(), &no_filters());
    let texts: Vec<&str> = got.iter().map(|m| m.text.as_str()).collect();
    assert_eq!(texts, vec!["first", "second", "third"]);
}

#[test]
fn retrieve_applies_limit_and_offset() {
    let mut store = Message::new();
    store.insert_many(vec![
        envelope("m1", "c1", "a", "one", 1),
        envelope("m2", "c1", "a", "two", 2),
        envelope("m3", "c1", "a", "three", 3),
        envelope("m4", "c1", "a", "four", 4),
    ]);
    let f = MessageFilters {
        source: None,
        created: None,
        reply_to: None,
        limit: Some(2),
        offset: Some(1),
    };
    let got = store.retrieve(&"c1".to_string(), &f);
    let texts: Vec<&str> = got.iter().map(|m| m.text.as_str()).collect();
    assert_eq!(texts, vec!["two", "three"]);
}

#[test]
fn retrieve_filters_by_source_and_created_and_reply_to() {
    let mut store = Message::new();
    let mut reply = envelope("m3", "c1", "bob", "reply", 3);
    reply.reply_to = Some(7);
    store.insert_many(vec![
        envelope("m1", "c1", "alice", "a", 1),
        envelope("m2", "c1", "bob", "b", 2),
        reply,
    ]);
    let by_source = MessageFilters {
        source: Some("alice".to_string()),
        created: None,
        reply_to: None,
        limit: None,
        offset: None,
    };
    let got = store.retrieve(&"c1".to_string(), &by_source);
    assert_eq!(got.len(), 1);
    assert_eq!(got[0].id, "m1");

    let by_created = MessageFilters {
        source: None,
        created: Some(2),
        reply_to: None,
        limit: None,
        offset: None,
    };
    let got = store.retrieve(&"c1".to_string(), &by_created);
    assert_eq!(got.len(), 1);
    assert_eq!(got[0].id, "m2");

    // every provided filter constrains: a reply_to match still fails a
    // conflicting source filter
    let conflicting = MessageFilters {
        source: Some("alice".to_string()),
        created: None,
        reply_to: Some(7),
        limit: None,
        offset: None,
    };
    let got = store.retrieve(&"c1".to_string(), &conflicting);
    assert!(got.is_empty());

    let consistent = MessageFilters {
        source: Some("bob".to_string()),
        created: None,
        reply_to: Some(7),
        limit: None,
        offset: None,
    };
    let got = store.retrieve(&"c1".to_string(), &consistent);
    assert_eq!(got.len(), 1);
    assert_eq!(got[0].id, "m3");
}

#[test]
fn windowed_filtered_retrieve_returns_the_match_in_the_window() {
    // a filtered fetch with a one-element window at offset 1 returns the
    // second match in created order, exactly once
    let mut store = Message::new();
    store.insert_many(vec![
        envelope("a2", "c1", "alice", "second", 20),
        envelope("b1", "c1", "bob", "noise", 15),
        envelope("a1", "c1", "alice", "first", 10),
        envelope("a3", "c1", "alice", "third", 30),
    ]);
    let f = MessageFilters {
        source: Some("alice".to_string()),
        created: None,
        reply_to: None,
        limit: Some(1),
        offset: Some(1),
    };
    let got = store.retrieve(&"c1".to_string(), &f);
    assert_eq!(got.len(), 1);
    assert_eq!(got[0].id, "a2");
    assert_eq!(got[0].text, "second");
}

#[test]
fn is_sender_checks_id_and_source() {
    let mut store = Message::new();
    store.insert_many(vec![envelope("m1", "c1", "alice", "hi", 1)]);
    assert!(store.is_sender(&"m1".to_string(), &"alice".to_string()));
    assert!(!store.is_sender(&"m1".to_string(), &"bob".to_string()));
    assert!(!store.is_sender(&"m9".to_string(), &"alice".to_string()));
}

fn receipt(msg: &str, user: &str, delivered: bool, read: bool, reaction: Option<i64>) -> Receipt {
    Receipt {
        message: msg.to_string(),
        user: user.to_string(),
        delivered,
        read,
        reaction,
    }
}

#[test]
fn receipt_timestamps_never_regress() {
    let mut store = MessageReceipt::new();
    store.upsert(&receipt("m1", "alice", true, false, None), 100);
    store.upsert(&receipt("m1", "alice", true, false, None), 200);
    store.upsert(&receipt("m1", "alice", false, true, None), 300);
    store.upsert(&receipt("m1", "alice", false, true, None), 400);
    let rows = store.retrieve(&"m1".to_string());
    assert_eq!(rows.len(), 1);
    assert_eq!(rows[0].delivered_at, Some(100));
    assert_eq!(rows[0].read_at, Some(300));
    assert_eq!(rows[0].reaction, None);
}

#[test]
fn reaction_is_last_non_null() {
    let mut store = MessageReceipt::new();
    store.upsert(&receipt("m1", "alice", false, false, Some(3)), 100);
    store.upsert(&receipt("m1", "alice", false, false, Some(7)), 200);
    store.upsert(&receipt("m1", "alice", true, false, None), 300);
    let rows = store.retrieve(&"m1".to_string());
    assert_eq!(rows.len(), 1);
    assert_eq!(rows[0].reaction, Some(7));
    assert_eq!(rows[0].delivered_at, Some(300));
}

#[test]
fn receipts_unique_per_message_and_user() {
    let mut store = MessageReceipt::new();
    store.batch_upsert(
        vec![
            receipt("m1", "alice", true, false, None),
            receipt("m1", "bob", true, false, None),
            receipt("m1", "alice", false, true, None),
            receipt("m2", "alice", true, false, None),
        ],
        50,
    );
    let m1_rows = store.retrieve(&"m1".to_string());
    assert_eq!(m1_rows.len(), 2);
    let alice_row = m1_rows.iter().find(|r| r.user == "alice").unwrap();
    assert_eq!(alice_row.delivered_at, Some(50));
    assert_eq!(alice_row.read_at, Some(50));
}

#[test]
fn conversation_name_is_primary_key() {
    let mut convs = Conversation::new();
    let conv = InsertConversation {
        name: "c1".to_string(),
        admin: "alice".to_string(),
        title: Some("t1".to_string()),
    };
    let row = convs.insert(&conv, 99).unwrap();
    assert_eq!(row.name, "c1");
    assert_eq!(row.admin, "alice");
    assert_eq!(row.title, Some("t1".to_string()));
    assert_eq!(row.created, 99);
    assert_eq!(row.mbox, "c1");
    let again = InsertConversation {
        name: "c1".to_string(),
        admin: "bob".to_string(),
        title: None,
    };
    assert!(matches!(convs.insert(&again, 100), Err(StoreError::Conflict)));
}

#[test]
fn participant_edges_are_unique() {
    let mut parts = ParticipantTable::new();
    parts.insert(&"c1".to_string(), &"alice".to_string(), 1).unwrap();
    assert!(matches!(
        parts.insert(&"c1".to_string(), &"alice".to_string(), 2),
        Err(StoreError::Conflict)
    ));
    assert!(parts.is_participant(&"c1".to_string(), &"alice".to_string()));
    assert!(!parts.is_participant(&"c1".to_string(), &"bob".to_string()));
}

#[test]
fn participant_insert_many_ignores_duplicates() {
    let mut parts = ParticipantTable::new();
    parts.insert(&"c1".to_string(), &"alice".to_string(), 1).unwrap();
    let subjects = vec!["alice".to_string(), "bob".to_string(), "bob".to_string()];
    parts.insert_many(&"c1".to_string(), &subjects, 2).unwrap();
    assert!(parts.is_participant(&"c1".to_string(), &"bob".to_string()));
    let edges = parts.retrieve(&"c1".to_string(), 1000, 0);
    assert_eq!(edges.len(), 2);
}

#[test]
fn participant_retrieve_pages() {
    let mut parts = ParticipantTable::new();
    let subjects = vec!["a".to_string(), "b".to_string(), "c".to_string()];
    parts.insert_many(&"c1".to_string(), &subjects, 1).unwrap();
    let page = parts.retrieve(&"c1".to_string(), 2, 1);
    assert_eq!(page.len(), 2);
    assert_eq!(page[0].participant, "b");
    assert_eq!(page[1].participant, "c");
}

#[test]
fn mailboxes_unique_by_id_and_found_by_owner() {
    let mut boxes = Mailboxes::new();
    boxes
        .insert(Mailbox { id: "b1".to_string(), owner: "alice".to_string(), kind: 0 })
        .unwrap();
    assert!(matches!(
        boxes.insert(Mailbox { id: "b1".to_string(), owner: "bob".to_string(), kind: 0 }),
        Err(StoreError::Conflict)
    ));
    assert_eq!(boxes.get_by_owner(&"alice".to_string()), Some("b1".to_string()));
    assert_eq!(boxes.get_by_owner(&"bob".to_string()), None);
}

#[test]
fn listing_is_newest_first_and_gated_by_membership() {
    let mut convs = Conversation::new();
    let mut parts = ParticipantTable::new();
    for (name, created) in [("c1", 10), ("c2", 30), ("c3", 20)] {
        let conv = InsertConversation {
            name: name.to_string(),
            admin: "alice".to_string(),
            title: None,
        };
        convs.insert(&conv, created).unwrap();
    }
    parts.insert(&"c1".to_string(), &"bob".to_string(), 1).unwrap();
    parts.insert(&"c2".to_string(), &"bob".to_string(), 1).unwrap();
    parts.insert(&"c3".to_string(), &"carol".to_string(), 1).unwrap();
    let listed = convs.list_for(&parts, &"bob".to_string());
    let names: Vec<&str> = listed.iter().map(|c| c.name.as_str()).collect();
    assert_eq!(names, vec!["c2", "c1"]);
}

#[test]
fn clock_reads_nonnegative() {
    let t = time_now();
    assert!(t >= 0);
}
