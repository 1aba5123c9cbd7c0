//! End-to-end scenarios over the pipeline models: write path, durable
//! queue, batch workers, session registry and session state machine.

use courier::directory::Mailboxes;
use courier::directory::Participant as ParticipantTable;
use courier::models::CreateConversation;
use courier::models::CreateMessage;
use courier::models::InsertMessage;
use courier::models::MessageFilters;
use courier::models::Participant;
use courier::models::Receipt;
use courier::queue::Stream;
use courier::queue::message_worker_pass;
use courier::queue::receipt_worker_pass;
use courier::receipts::MessageReceipt;
use courier::registry::ChatServer;
use courier::registry::Connect;
use courier::registry::DeliverMessage;
use courier::registry::Disconnect;
use courier::registry::PrivateMessage;
use courier::session::ClientMessage;
use courier::session::SessionAction;
use courier::session::SessionEvent;
use courier::session::WsSession;
use courier::store::Message;
use courier::write_path::ConversationOutcome;
use courier::write_path::FetchOutcome;
use courier::write_path::PostOutcome;
use courier::write_path::ValidationError;
use courier::write_path::create_conversation;
use courier::write_path::delivery_receipts;
use courier::write_path::deliver_plan;
use courier::write_path::fresh_id;
use courier::write_path::get_conversation;
use courier::write_path::get_default_mbox;
use courier::write_path::get_messages;
use courier::write_path::get_pmessages;
use courier::write_path::get_receipts;
use courier::write_path::mark_as_read;
use courier::write_path::peer_message;
use courier::write_path::post_message;
use courier::queue::StreamValue;
use courier::write_path::react;
use courier::wire::encode_envelope;

fn edge(conv: &str, user: &str) -> Participant {
    Participant {
        id: 0,
        conversation: conv.to_string(),
        participant: user.to_string(),
        created: 0,
    }
}

fn limit(n: i32) -> MessageFilters {
    MessageFilters { source: None, created: None, reply_to: None, limit: Some(n), offset: None }
}

#[test]
fn fresh_ids_are_36_characters() {
    let id = fresh_id();
    assert_eq!(id.chars().count(), 36);
}

#[test]
fn post_by_non_participant_is_forbidden() {
    // a rejected post creates no durable state: no queue entry, and after
    // a worker pass no message row
    let participants = vec![edge("c1", "bob")];
    let body = CreateMessage { text: "hi".to_string(), reply_to: None };
    let mut msg_queue: Stream<InsertMessage> = Stream::new();
    let mut messages = Message::new();
    let r = post_message(
        &"alice".to_string(),
        &"c1".to_string(),
        &body,
        &participants,
        "m1".to_string(),
        5,
    );
    match r {
        PostOutcome::Forbidden => {}
        PostOutcome::Accepted { envelope, .. } => {
            msg_queue.publish(envelope).unwrap();
        }
    }
    assert_eq!(msg_queue.unacked_len(), 0);
    message_worker_pass(&mut msg_queue, &mut messages);
    assert!(messages.retrieve(&"c1".to_string(), &limit(10)).is_empty());
}

#[test]
fn accepted_post_stamps_envelope_and_fans_out_to_others() {
    let participants = vec![edge("c1", "alice"), edge("c1", "bob"), edge("c1", "carol")];
    let body = CreateMessage { text: "hi".to_string(), reply_to: Some(4) };
    let r = post_message(
        &"alice".to_string(),
        &"c1".to_string(),
        &body,
        &participants,
        "m1".to_string(),
        5,
    );
    match r {
        PostOutcome::Accepted { envelope, recipients } => {
            assert_eq!(envelope.source, "alice");
            assert_eq!(envelope.mbox, "c1");
            assert_eq!(envelope.text, "hi");
            assert_eq!(envelope.reply_to, Some(4));
            assert_eq!(envelope.created, 5);
            assert_eq!(envelope.id, "m1");
            assert_eq!(recipients, vec!["bob".to_string(), "carol".to_string()]);
            let plan = deliver_plan(&envelope, &recipients);
            assert_eq!(plan.len(), 2);
            assert_eq!(plan[0].to, "bob");
            assert_eq!(plan[0].id, "m1");
            assert_eq!(plan[0].payload, encode_envelope(&envelope));
        }
        PostOutcome::Forbidden => panic!("post was refused"),
    }
}

#[test]
fn peer_message_targets_the_peer_mailbox() {
    let body = CreateMessage { text: "psst".to_string(), reply_to: None };
    let (envelope, deliver) = peer_message(
        &"alice".to_string(),
        &"bob".to_string(),
        "bob-box".to_string(),
        &body,
        "m9".to_string(),
        7,
    );
    assert_eq!(envelope.mbox, "bob-box");
    assert_eq!(envelope.source, "alice");
    assert_eq!(deliver.to, "bob");
    assert_eq!(deliver.id, "m9");
    assert_eq!(deliver.payload, encode_envelope(&envelope));
}

#[test]
fn empty_participants_are_rejected() {
    let body = CreateConversation { participants: vec![], title: None };
    let r = create_conversation(&"alice".to_string(), &body, "c1".to_string());
    assert!(matches!(r, Err(ValidationError::EmptyParticipants)));
}

#[test]
fn creator_joins_ahead_of_named_participants() {
    let body = CreateConversation {
        participants: vec!["alice".to_string(), "bob".to_string()],
        title: Some("t1".to_string()),
    };
    let plan = create_conversation(&"alice".to_string(), &body, "c1".to_string()).unwrap();
    assert_eq!(plan.conversation.name, "c1");
    assert_eq!(plan.conversation.admin, "alice");
    assert_eq!(plan.conversation.title, Some("t1".to_string()));
    assert_eq!(plan.members, vec!["alice".to_string(), "bob".to_string()]);
}

#[test]
fn created_conversation_is_listed_for_its_participants() {
    // alice creates {participants: [alice, bob], title: t1}; the response
    // carries a fresh name, alice as admin and the title; listing as bob
    // returns exactly that entry.
    let mut convs = courier::directory::Conversation::new();
    let mut parts = ParticipantTable::new();
    let body = CreateConversation {
        participants: vec!["alice".to_string(), "bob".to_string()],
        title: Some("t1".to_string()),
    };
    let name = fresh_id();
    let plan = create_conversation(&"alice".to_string(), &body, name.clone()).unwrap();
    let created_at = 12345;
    let response = convs.insert(&plan.conversation, created_at).unwrap();
    parts.insert_many(&plan.conversation.name, &plan.members, created_at).unwrap();
    assert_eq!(response.name, name);
    assert_eq!(response.admin, "alice");
    assert_eq!(response.title, Some("t1".to_string()));
    assert_eq!(response.created, created_at);
    let listed = convs.list_for(&parts, &"bob".to_string());
    assert_eq!(listed.len(), 1);
    assert_eq!(listed[0].name, name);
    assert_eq!(listed[0].admin, "alice");
    assert_eq!(listed[0].title, Some("t1".to_string()));
    assert_eq!(listed[0].created, created_at);
}

#[test]
fn post_then_fetch_returns_the_message_once_acked() {
    // alice posts "hi" to c1; bob is offline; the worker drains the queue;
    // bob later fetches and a delivery receipt becomes visible to alice.
    let mut parts = ParticipantTable::new();
    parts.insert(&"c1".to_string(), &"alice".to_string(), 1).unwrap();
    parts.insert(&"c1".to_string(), &"bob".to_string(), 1).unwrap();
    let mut msg_queue: Stream<InsertMessage> = Stream::new();
    let mut rcpt_queue: Stream<Receipt> = Stream::new();
    let mut messages = Message::new();
    let mut receipts = MessageReceipt::new();

    let participants = parts.retrieve(&"c1".to_string(), 1000, 0);
    let body = CreateMessage { text: "hi".to_string(), reply_to: None };
    let outcome = post_message(
        &"alice".to_string(),
        &"c1".to_string(),
        &body,
        &participants,
        "m1".to_string(),
        50,
    );
    let envelope = match outcome {
        PostOutcome::Accepted { envelope, .. } => envelope,
        PostOutcome::Forbidden => panic!("alice is a participant"),
    };
    msg_queue.publish(envelope).unwrap();
    message_worker_pass(&mut msg_queue, &mut messages);

    let fetched = get_messages(
        &parts,
        &messages,
        &"bob".to_string(),
        &"c1".to_string(),
        &limit(10),
    );
    match fetched {
        FetchOutcome::Messages { messages: page, receipts: events } => {
            assert_eq!(page.len(), 1);
            assert_eq!(page[0].source, "alice");
            assert_eq!(page[0].text, "hi");
            assert_eq!(page[0].mbox, "c1");
            assert_eq!(events.len(), 1);
            assert!(events[0].delivered);
            assert_eq!(events[0].user, "bob");
            for e in events {
                rcpt_queue.publish(e).unwrap();
            }
        }
        FetchOutcome::Forbidden => panic!("bob is a participant"),
    }
    receipt_worker_pass(&mut rcpt_queue, &mut receipts, 60);

    let seen = get_receipts(&messages, &receipts, &"alice".to_string(), &"m1".to_string())
        .expect("alice is the sender");
    assert_eq!(seen.len(), 1);
    assert_eq!(seen[0].user, "bob");
    assert_eq!(seen[0].delivered_at, Some(60));
}

#[test]
fn duplicate_publish_is_persisted_once() {
    let mut msg_queue: Stream<InsertMessage> = Stream::new();
    let mut messages = Message::new();
    let m = InsertMessage {
        source: "alice".to_string(),
        mbox: "c1".to_string(),
        text: "hi".to_string(),
        reply_to: None,
        created: 5,
        id: "m1".to_string(),
    };
    let copy = InsertMessage {
        source: m.source.clone(),
        mbox: m.mbox.clone(),
        text: m.text.clone(),
        reply_to: m.reply_to,
        created: m.created,
        id: m.id.clone(),
    };
    msg_queue.publish(m).unwrap();
    msg_queue.publish(copy).unwrap();
    message_worker_pass(&mut msg_queue, &mut messages);
    let got = messages.retrieve(&"c1".to_string(), &limit(10));
    assert_eq!(got.len(), 1);
    // the duplicate touched no receipt
    let receipts = MessageReceipt::new();
    let seen = get_receipts(&messages, &receipts, &"alice".to_string(), &"m1".to_string())
        .expect("alice is the sender");
    assert!(seen.is_empty());
}

#[test]
fn unacked_entries_survive_and_persist_on_the_next_pass() {
    let mut msg_queue: Stream<InsertMessage> = Stream::new();
    let mut messages = Message::new();
    let m1 = InsertMessage {
        source: "a".to_string(),
        mbox: "c1".to_string(),
        text: "one".to_string(),
        reply_to: None,
        created: 1,
        id: "m1".to_string(),
    };
    msg_queue.publish(m1).unwrap();
    assert_eq!(msg_queue.unacked_len(), 1);
    // the worker crashes here: nothing is acknowledged, the entry stays
    message_worker_pass(&mut msg_queue, &mut messages);
    assert_eq!(msg_queue.unacked_len(), 0);
    let got = messages.retrieve(&"c1".to_string(), &limit(10));
    assert_eq!(got.len(), 1);
    assert_eq!(got[0].id, "m1");
}

#[test]
fn reads_deliver_in_order_and_acks_remove_from_pending() {
    let mut q: Stream<i64> = Stream::new();
    let id1 = q.publish(10).unwrap();
    let id2 = q.publish(20).unwrap();
    let id3 = q.publish(30).unwrap();
    assert!(id1 < id2 && id2 < id3);
    // nothing delivered yet, so nothing pending
    assert!(q.read_pending(100).is_empty());
    // a bounded read delivers the oldest entries first
    assert_eq!(q.read_new(2), vec![id1, id2]);
    // undelivered entries are not pending; delivered unacked ones are
    assert_eq!(q.read_pending(100), vec![id1, id2]);
    // redelivery changes nothing
    assert_eq!(q.read_pending(100), vec![id1, id2]);
    q.ack(&vec![id1]);
    assert_eq!(q.read_pending(100), vec![id2]);
    assert_eq!(q.unacked_len(), 2);
    assert_eq!(q.read_new(100), vec![id3]);
    q.ack(&vec![id2, id3]);
    assert_eq!(q.unacked_len(), 0);
    assert!(q.read_pending(100).is_empty());
    assert!(q.read_new(100).is_empty());
}

#[test]
fn handler_acks_the_whole_batch_and_poison_is_acked_too() {
    // the worker's deserialize step: one payload parses, one is poison;
    // the handler processes the parsed entry, and both ids get acked
    let parses: Vec<(String, Option<InsertMessage>)> = vec![
        (
            "1-0".to_string(),
            Some(InsertMessage {
                source: "a".to_string(),
                mbox: "c1".to_string(),
                text: "ok".to_string(),
                reply_to: None,
                created: 1,
                id: "m1".to_string(),
            }),
        ),
        ("2-0".to_string(), None),
    ];
    let (batch, poison) = courier::queue::split_parsed(parses);
    let mut messages = Message::new();
    let mut ack_ids = courier::queue::message_handler(batch, &mut messages);
    ack_ids.extend(poison);
    assert_eq!(ack_ids, vec!["1-0".to_string(), "2-0".to_string()]);
    let got = messages.retrieve(&"c1".to_string(), &limit(10));
    assert_eq!(got.len(), 1);
    assert_eq!(got[0].id, "m1");
}

#[test]
fn receipt_handler_applies_the_batch_in_order() {
    let mut receipts = MessageReceipt::new();
    let batch: Vec<(String, Receipt)> = vec![
        ("1-0".to_string(), react(&"alice".to_string(), "m1".to_string(), 3)),
        ("2-0".to_string(), react(&"alice".to_string(), "m1".to_string(), 7)),
    ];
    let acked = courier::queue::receipt_handler(batch, &mut receipts, 40);
    assert_eq!(acked, vec!["1-0".to_string(), "2-0".to_string()]);
    let rows = receipts.retrieve(&"m1".to_string());
    assert_eq!(rows.len(), 1);
    assert_eq!(rows[0].reaction, Some(7));
}

#[test]
fn react_twice_keeps_the_last_reaction() {
    let mut rcpt_queue: Stream<Receipt> = Stream::new();
    let mut receipts = MessageReceipt::new();
    let mut messages = Message::new();
    messages.insert_many(vec![InsertMessage {
        source: "alice".to_string(),
        mbox: "c1".to_string(),
        text: "hi".to_string(),
        reply_to: None,
        created: 1,
        id: "m1".to_string(),
    }]);
    rcpt_queue.publish(react(&"alice".to_string(), "m1".to_string(), 3)).unwrap();
    receipt_worker_pass(&mut rcpt_queue, &mut receipts, 10);
    rcpt_queue.publish(react(&"alice".to_string(), "m1".to_string(), 7)).unwrap();
    receipt_worker_pass(&mut rcpt_queue, &mut receipts, 20);
    let seen = get_receipts(&messages, &receipts, &"alice".to_string(), &"m1".to_string())
        .expect("alice is the sender");
    assert_eq!(seen.len(), 1);
    assert_eq!(seen[0].user, "alice");
    assert_eq!(seen[0].reaction, Some(7));
}

#[test]
fn mark_as_read_sets_read_only() {
    let e = mark_as_read(&"alice".to_string(), "m1".to_string());
    assert!(!e.delivered);
    assert!(e.read);
    assert_eq!(e.reaction, None);
    let r = react(&"alice".to_string(), "m1".to_string(), 5);
    assert!(!r.delivered);
    assert!(!r.read);
    assert_eq!(r.reaction, Some(5));
}

#[test]
fn receipts_are_gated_by_sendership() {
    let mut messages = Message::new();
    messages.insert_many(vec![InsertMessage {
        source: "alice".to_string(),
        mbox: "c1".to_string(),
        text: "hi".to_string(),
        reply_to: None,
        created: 1,
        id: "m1".to_string(),
    }]);
    let receipts = MessageReceipt::new();
    assert!(get_receipts(&messages, &receipts, &"bob".to_string(), &"m1".to_string()).is_none());
    assert!(get_receipts(&messages, &receipts, &"alice".to_string(), &"m1".to_string()).is_some());
}

#[test]
fn conversation_fetch_is_gated_then_found_or_missing() {
    let mut parts = ParticipantTable::new();
    let mut convs = courier::directory::Conversation::new();
    parts.insert(&"c1".to_string(), &"alice".to_string(), 1).unwrap();
    parts.insert(&"ghost".to_string(), &"alice".to_string(), 1).unwrap();
    let conv = courier::models::InsertConversation {
        name: "c1".to_string(),
        admin: "alice".to_string(),
        title: None,
    };
    convs.insert(&conv, 9).unwrap();
    assert!(matches!(
        get_conversation(&parts, &convs, &"bob".to_string(), &"c1".to_string()),
        ConversationOutcome::Forbidden
    ));
    assert!(matches!(
        get_conversation(&parts, &convs, &"alice".to_string(), &"ghost".to_string()),
        ConversationOutcome::NotFound
    ));
    match get_conversation(&parts, &convs, &"alice".to_string(), &"c1".to_string()) {
        ConversationOutcome::Found(c) => assert_eq!(c.name, "c1"),
        _ => panic!("expected the conversation"),
    }
}

#[test]
fn inbox_fetch_without_mailbox_is_empty() {
    let messages = Message::new();
    let (page, events) = get_pmessages(&messages, &"alice".to_string(), None, &limit(10));
    assert!(page.is_empty());
    assert!(events.is_empty());
}

#[test]
fn default_mailbox_is_created_once_and_reused() {
    let mut boxes = Mailboxes::new();
    let first = get_default_mbox(&mut boxes, &"bob".to_string(), "fresh-1".to_string());
    assert_eq!(first, "fresh-1");
    let second = get_default_mbox(&mut boxes, &"bob".to_string(), "fresh-2".to_string());
    assert_eq!(second, "fresh-1");
}

#[test]
fn delivery_receipts_cover_every_returned_message() {
    let msgs = vec![
        InsertMessage {
            source: "a".to_string(),
            mbox: "c1".to_string(),
            text: "x".to_string(),
            reply_to: None,
            created: 1,
            id: "m1".to_string(),
        },
        InsertMessage {
            source: "b".to_string(),
            mbox: "c1".to_string(),
            text: "y".to_string(),
            reply_to: None,
            created: 2,
            id: "m2".to_string(),
        },
    ];
    let events = delivery_receipts(&"carol".to_string(), &msgs);
    assert_eq!(events.len(), 2);
    assert_eq!(events[0].message, "m1");
    assert_eq!(events[1].message, "m2");
    assert!(events.iter().all(|e| e.user == "carol" && e.delivered && !e.read));
}

#[test]
fn registry_routes_to_the_latest_sink_only() {
    let mut server = ChatServer::new();
    server.handle_connect(Connect { user_id: "bob".to_string(), addr: 7 });
    server.handle_connect(Connect { user_id: "bob".to_string(), addr: 9 });
    let routed = server.handle_deliver(DeliverMessage {
        to: "bob".to_string(),
        payload: "{}".to_string(),
        id: "m1".to_string(),
    });
    let (sink, sm) = routed.expect("bob is connected");
    assert_eq!(sink, 9);
    assert_eq!(sm.payload, "{}");
    assert_eq!(sm.id, "m1");
    server.handle_disconnect(Disconnect { user_id: "bob".to_string(), addr: 9 });
    let routed = server.handle_deliver(DeliverMessage {
        to: "bob".to_string(),
        payload: "{}".to_string(),
        id: "m2".to_string(),
    });
    assert!(routed.is_none());
}

#[test]
fn stale_disconnect_leaves_a_fresh_reconnect_registered() {
    // bob's old session (sink 7) disconnects after bob has already
    // reconnected with sink 9: compare-and-delete keeps the fresh sink
    let mut server = ChatServer::new();
    server.handle_connect(Connect { user_id: "bob".to_string(), addr: 7 });
    server.handle_connect(Connect { user_id: "bob".to_string(), addr: 9 });
    server.handle_disconnect(Disconnect { user_id: "bob".to_string(), addr: 7 });
    let routed = server.handle_deliver(DeliverMessage {
        to: "bob".to_string(),
        payload: "{}".to_string(),
        id: "m1".to_string(),
    });
    let (sink, _) = routed.expect("the fresh session survives the stale disconnect");
    assert_eq!(sink, 9);
    // the fresh session's own disconnect removes it; repeating it is a no-op
    server.handle_disconnect(Disconnect { user_id: "bob".to_string(), addr: 9 });
    server.handle_disconnect(Disconnect { user_id: "bob".to_string(), addr: 9 });
    let routed = server.handle_deliver(DeliverMessage {
        to: "bob".to_string(),
        payload: "{}".to_string(),
        id: "m2".to_string(),
    });
    assert!(routed.is_none());
}

#[test]
fn private_messages_reach_online_recipients_as_frames() {
    let mut server = ChatServer::new();
    server.handle_connect(Connect { user_id: "bob".to_string(), addr: 4 });
    let routed = server.handle_private(
        PrivateMessage {
            from: "alice".to_string(),
            to: "bob".to_string(),
            content: "hi".to_string(),
        },
        "f1".to_string(),
    );
    let (sink, sm) = routed.expect("bob is connected");
    assert_eq!(sink, 4);
    assert_eq!(sm.payload, "{\"from\":\"alice\",\"content\":\"hi\"}");
    let dropped = server.handle_private(
        PrivateMessage {
            from: "alice".to_string(),
            to: "carol".to_string(),
            content: "hi".to_string(),
        },
        "f2".to_string(),
    );
    assert!(dropped.is_none());
}

#[test]
fn online_fanout_delivers_the_envelope_and_records_delivery() {
    // bob holds a live session; alice posts to a conversation holding bob;
    // bob's session receives the envelope JSON and a delivery receipt for
    // (envelope id, bob) follows.
    let mut server = ChatServer::new();
    server.handle_connect(Connect { user_id: "bob".to_string(), addr: 1 });
    let participants = vec![edge("c1", "alice"), edge("c1", "bob")];
    let body = CreateMessage { text: "hi".to_string(), reply_to: None };
    let outcome = post_message(
        &"alice".to_string(),
        &"c1".to_string(),
        &body,
        &participants,
        "m1".to_string(),
        5,
    );
    let (envelope, recipients) = match outcome {
        PostOutcome::Accepted { envelope, recipients } => (envelope, recipients),
        PostOutcome::Forbidden => panic!("alice is a participant"),
    };
    let expected_payload = encode_envelope(&envelope);
    let mut delivered_receipts: Vec<Receipt> = Vec::new();
    for frame in deliver_plan(&envelope, &recipients) {
        if let Some((sink, sm)) = server.handle_deliver(frame) {
            assert_eq!(sink, 1);
            let (mut session, _connect) = WsSession::started("bob".to_string(), 1, 0);
            let actions = session.handle(SessionEvent::Outbound(sm), 5);
            assert_eq!(actions.len(), 2);
            match &actions[0] {
                SessionAction::SendText(payload) => assert_eq!(payload, &expected_payload),
                _ => panic!("expected the frame first"),
            }
            match &actions[1] {
                SessionAction::PublishReceipt(e) => {
                    assert_eq!(e.message, "m1");
                    assert_eq!(e.user, "bob");
                    assert!(e.delivered);
                    delivered_receipts.push(Receipt {
                        message: e.message.clone(),
                        user: e.user.clone(),
                        delivered: e.delivered,
                        read: e.read,
                        reaction: e.reaction,
                    });
                }
                _ => panic!("expected the receipt second"),
            }
        }
    }
    assert_eq!(delivered_receipts.len(), 1);
    // the receipt flows through the receipt pipeline and becomes visible
    // to the sender
    let mut messages = Message::new();
    let mut rcpt_queue: Stream<Receipt> = Stream::new();
    let mut receipts = MessageReceipt::new();
    let mut msg_queue: Stream<InsertMessage> = Stream::new();
    msg_queue.publish(envelope).unwrap();
    message_worker_pass(&mut msg_queue, &mut messages);
    for e in delivered_receipts {
        rcpt_queue.publish(e).unwrap();
    }
    receipt_worker_pass(&mut rcpt_queue, &mut receipts, 77);
    let seen = get_receipts(&messages, &receipts, &"alice".to_string(), &"m1".to_string())
        .expect("alice is the sender");
    assert_eq!(seen.len(), 1);
    assert_eq!(seen[0].user, "bob");
    assert_eq!(seen[0].delivered_at, Some(77));
}

#[test]
fn session_heartbeat_times_out_silent_peers() {
    let (mut session, connect) = WsSession::started("bob".to_string(), 3, 1000);
    assert_eq!(connect.user_id, "bob");
    assert_eq!(connect.addr, 3);
    let leave = session.stopped();
    assert_eq!(leave.user_id, "bob");
    assert_eq!(leave.addr, 3);
    let actions = session.handle(SessionEvent::Tick, 5000);
    assert!(matches!(actions.as_slice(), [SessionAction::Ping]));
    let actions = session.handle(SessionEvent::Ping("x".to_string()), 6000);
    assert!(matches!(actions.as_slice(), [SessionAction::Pong(_)]));
    let actions = session.handle(SessionEvent::Tick, 16000);
    assert!(matches!(actions.as_slice(), [SessionAction::Ping]));
    let actions = session.handle(SessionEvent::Tick, 16001);
    assert!(matches!(actions.as_slice(), [SessionAction::CloseSession]));
}

#[test]
fn session_forwards_private_frames_and_ignores_the_rest() {
    let (mut session, _) = WsSession::started("alice".to_string(), 3, 0);
    let frame = ClientMessage {
        msg_type: "private".to_string(),
        to: "bob".to_string(),
        content: "hi".to_string(),
    };
    let actions = session.handle(SessionEvent::Text(Some(frame)), 1);
    match actions.as_slice() {
        [SessionAction::Forward(pm)] => {
            assert_eq!(pm.from, "alice");
            assert_eq!(pm.to, "bob");
            assert_eq!(pm.content, "hi");
        }
        _ => panic!("expected one forward"),
    }
    let other = ClientMessage {
        msg_type: "shout".to_string(),
        to: "bob".to_string(),
        content: "hi".to_string(),
    };
    assert!(session.handle(SessionEvent::Text(Some(other)), 2).is_empty());
    assert!(session.handle(SessionEvent::Text(None), 3).is_empty());
    let actions = session.handle(SessionEvent::Close, 4);
    assert!(matches!(actions.as_slice(), [SessionAction::CloseSession]));
}

#[test]
fn stream_replies_parse_into_id_payload_pairs() {
    let entry = |id: &str, payload: &str| {
        StreamValue::Bulk(vec![
            StreamValue::Data(id.to_string()),
            StreamValue::Bulk(vec![
                StreamValue::Data("payload".to_string()),
                StreamValue::Data(payload.to_string()),
            ]),
        ])
    };
    let reply = StreamValue::Bulk(vec![StreamValue::Bulk(vec![
        StreamValue::Data("messages_stream".to_string()),
        StreamValue::Bulk(vec![entry("1-0", "{\"a\":1}"), entry("2-0", "{\"b\":2}")]),
    ])]);
    let pairs = courier::queue::parse_stream_entries(&reply);
    assert_eq!(pairs.len(), 2);
    assert_eq!(pairs[0], ("1-0".to_string(), "{\"a\":1}".to_string()));
    assert_eq!(pairs[1], ("2-0".to_string(), "{\"b\":2}".to_string()));
}

#[test]
fn malformed_stream_nodes_are_skipped() {
    let reply = StreamValue::Bulk(vec![StreamValue::Bulk(vec![
        StreamValue::Data("messages_stream".to_string()),
        StreamValue::Bulk(vec![
            StreamValue::Other,
            StreamValue::Bulk(vec![StreamValue::Data("lonely-id".to_string())]),
            StreamValue::Bulk(vec![
                StreamValue::Data("3-0".to_string()),
                StreamValue::Bulk(vec![
                    StreamValue::Data("payload".to_string()),
                    StreamValue::Data("ok".to_string()),
                ]),
            ]),
        ]),
    ])]);
    let pairs = courier::queue::parse_stream_entries(&reply);
    assert_eq!(pairs, vec![("3-0".to_string(), "ok".to_string())]);
    assert!(courier::queue::parse_stream_entries(&StreamValue::Other).is_empty());
}

#[test]
fn poison_payloads_are_split_out_for_acknowledgment() {
    let entries: Vec<(String, Option<i64>)> = vec![
        ("1-0".to_string(), Some(5)),
        ("2-0".to_string(), None),
        ("3-0".to_string(), Some(9)),
    ];
    let (batch, poison) = courier::queue::split_parsed(entries);
    assert_eq!(batch, vec![("1-0".to_string(), 5), ("3-0".to_string(), 9)]);
    assert_eq!(poison, vec!["2-0".to_string()]);
}

#[test]
fn cache_entries_expire_and_can_be_dropped() {
    let mut cache: courier::cache::Cache<String> = courier::cache::Cache::new(600_000);
    cache.set("c1".to_string(), "value".to_string(), 1_000);
    assert_eq!(cache.get(&"c1".to_string(), 2_000), Some(&"value".to_string()));
    assert_eq!(cache.get(&"c1".to_string(), 601_000), None);
    assert_eq!(cache.get(&"c1".to_string(), 601_001), None);
    assert_eq!(cache.get(&"missing".to_string(), 0), None);
    cache.set("c2".to_string(), "other".to_string(), 1_000);
    cache.remove(&"c1".to_string());
    assert_eq!(cache.get(&"c1".to_string(), 2_000), None);
    assert_eq!(cache.get(&"c2".to_string(), 2_000), Some(&"other".to_string()));
    cache.clear_local();
    assert_eq!(cache.get(&"c2".to_string(), 2_000), None);
}
