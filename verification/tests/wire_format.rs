//! The exact wire forms: envelope, receipt and private-message JSON.

use courier::models::InsertMessage;
use courier::models::Receipt;
use courier::wire::encode_envelope;
use courier::wire::encode_private_frame;
use courier::wire::encode_receipt;

#[test]
fn envelope_wire_form_is_exact() {
    let m = InsertMessage {
        source: "alice".to_string(),
        mbox: "c1".to_string(),
        text: "hi".to_string(),
        reply_to: None,
        created: 1700000000000,
        id: "m1".to_string(),
    };
    assert_eq!(
        encode_envelope(&m),
        "{\"source\":\"alice\",\"mbox\":\"c1\",\"text\":\"hi\",\"reply_to\":null,\
         \"created\":1700000000000,\"id\":\"m1\"}"
    );
}

#[test]
fn envelope_reply_to_is_a_number_when_present() {
    let m = InsertMessage {
        source: "a".to_string(),
        mbox: "b".to_string(),
        text: "t".to_string(),
        reply_to: Some(-5),
        created: 0,
        id: "i".to_string(),
    };
    assert_eq!(
        encode_envelope(&m),
        "{\"source\":\"a\",\"mbox\":\"b\",\"text\":\"t\",\"reply_to\":-5,\
         \"created\":0,\"id\":\"i\"}"
    );
}

#[test]
fn extreme_integers_encode_in_full() {
    let m = InsertMessage {
        source: "a".to_string(),
        mbox: "b".to_string(),
        text: "t".to_string(),
        reply_to: Some(i64::MIN),
        created: i64::MAX,
        id: "i".to_string(),
    };
    let encoded = encode_envelope(&m);
    assert!(encoded.contains("\"reply_to\":-9223372036854775808"));
    assert!(encoded.contains("\"created\":9223372036854775807"));
}

#[test]
fn strings_are_escaped_as_json_requires() {
    let m = InsertMessage {
        source: "a\"b".to_string(),
        mbox: "c\\d".to_string(),
        text: "line\nbreak\ttab\u{1}end".to_string(),
        reply_to: None,
        created: 1,
        id: "m".to_string(),
    };
    assert_eq!(
        encode_envelope(&m),
        "{\"source\":\"a\\\"b\",\"mbox\":\"c\\\\d\",\
         \"text\":\"line\\nbreak\\ttab\\u0001end\",\"reply_to\":null,\
         \"created\":1,\"id\":\"m\"}"
    );
}

#[test]
fn receipt_wire_form_is_exact() {
    let e = Receipt {
        message: "m1".to_string(),
        user: "bob".to_string(),
        delivered: true,
        read: false,
        reaction: Some(7),
    };
    assert_eq!(
        encode_receipt(&e),
        "{\"message\":\"m1\",\"user\":\"bob\",\"delivered\":true,\
         \"read\":false,\"reaction\":7}"
    );
    let quiet = Receipt {
        message: "m1".to_string(),
        user: "bob".to_string(),
        delivered: false,
        read: true,
        reaction: None,
    };
    assert_eq!(
        encode_receipt(&quiet),
        "{\"message\":\"m1\",\"user\":\"bob\",\"delivered\":false,\
         \"read\":true,\"reaction\":null}"
    );
}

#[test]
fn private_frame_is_exact() {
    assert_eq!(
        encode_private_frame(&"alice".to_string(), &"hi there".to_string()),
        "{\"from\":\"alice\",\"content\":\"hi there\"}"
    );
}

#[test]
fn unicode_text_passes_through_unescaped() {
    let m = InsertMessage {
        source: "ü".to_string(),
        mbox: "b".to_string(),
        text: "héllo ✓".to_string(),
        reply_to: None,
        created: 1,
        id: "m".to_string(),
    };
    assert_eq!(
        encode_envelope(&m),
        "{\"source\":\"ü\",\"mbox\":\"b\",\"text\":\"héllo ✓\",\"reply_to\":null,\
         \"created\":1,\"id\":\"m\"}"
    );
}
