use chathub::codec::{decode, encode};
use chathub::envelope::{Envelope, Kind, Payload};

fn chars(s: &str) -> Vec<char> {
    s.chars().collect()
}

fn text(v: &[char]) -> String {
    v.iter().collect()
}

fn payload_text(p: &Payload) -> String {
    match p {
        Payload::Text(t) => text(t),
        Payload::Data(d) => text(d),
    }
}

fn chat(sender: usize, content: &str) -> Envelope {
    Envelope { kind: Kind::Chat, sender, content: Payload::Text(chars(content)) }
}

#[test]
fn encode_canonical_chat() {
    assert_eq!(text(&encode(&chat(2, "hi"))), r#"{"type":"message","id":2,"content":"hi"}"#);
}

#[test]
fn encode_all_tags() {
    let cases = [
        (Kind::Identity, "identity"),
        (Kind::Error, "error"),
        (Kind::EchoLocal, "local"),
        (Kind::Chat, "message"),
        (Kind::ParticipantCount, "nbusers"),
        (Kind::Info, "info"),
    ];
    for (kind, tag) in cases {
        let e = Envelope { kind, sender: 0, content: Payload::Text(chars("x")) };
        let expected = format!(r#"{{"type":"{tag}","id":0,"content":"x"}}"#);
        assert_eq!(text(&encode(&e)), expected);
    }
}

#[test]
fn encode_escapes_content() {
    let e = chat(1, "a\"b\\c\nd\re\tf");
    assert_eq!(
        text(&encode(&e)),
        "{\"type\":\"message\",\"id\":1,\"content\":\"a\\\"b\\\\c\\nd\\re\\tf\"}"
    );
}

#[test]
fn encode_escapes_every_control_character() {
    let e = chat(1, "\u{1}\u{8}\u{b}\u{c}\u{1f}");
    assert_eq!(
        text(&encode(&e)),
        "{\"type\":\"message\",\"id\":1,\"content\":\"\\u0001\\b\\u000b\\f\\u001f\"}"
    );
}

#[test]
fn decode_canonical() {
    let d = decode(&chars(r#"{"type":"identity","id":0,"content":"7"}"#)).expect("decodes");
    assert_eq!(d.kind, Kind::Identity);
    assert_eq!(d.sender, 0);
    assert_eq!(d.content, Payload::Text(chars("7")));
}

#[test]
fn decode_accepts_reordered_fields_and_whitespace() {
    let cases = [
        r#"{"id":2,"type":"message","content":"hi"}"#,
        r#"{"content":"hi","id":2,"type":"message"}"#,
        "{ \"type\" : \"message\" ,\n\t\"id\" : 2 , \"content\" : \"hi\" }",
        "  {\"type\":\"message\",\"id\":2,\"content\":\"hi\"}\r\n",
    ];
    for s in cases {
        let d = decode(&chars(s)).unwrap_or_else(|| panic!("should accept: {s}"));
        assert_eq!(d.kind, Kind::Chat);
        assert_eq!(d.sender, 2);
        assert_eq!(d.content, Payload::Text(chars("hi")));
    }
}

#[test]
fn decode_accepts_unicode_escapes() {
    let d = decode(&chars(r#"{"type":"message","id":2,"content":"AB\u00e9\u266b"}"#)).expect(
        "decodes",
    );
    assert_eq!(d.content, Payload::Text(chars("AB\u{e9}\u{266b}")));
    let d2 = decode(&chars(r#"{"type":"message","id":2,"content":"\ud83d\ude00"}"#)).expect(
        "surrogate pair decodes",
    );
    let d2b = decode(&chars(r#"{"type":"message","id":2,"content":"😀"}"#)).expect(
        "a raw astral character decodes too",
    );
    assert_eq!(d2b.content, Payload::Text(chars("\u{1f600}")));
    assert_eq!(d2.content, Payload::Text(chars("\u{1f600}")));
    let d3 = decode(&chars(r#"{"type":"message","id":2,"content":"a\/b\u0009"}"#)).expect(
        "solidus and tab escapes decode",
    );
    assert_eq!(d3.content, Payload::Text(chars("a/b\t")));
}

#[test]
fn decode_skips_unknown_members() {
    let d = decode(&chars(
        r#"{"extra":[1,{"x":null},true],"type":"info","id":3,"content":"y","more":-1.5e2}"#,
    )).expect("decodes");
    assert_eq!(d.kind, Kind::Info);
    assert_eq!(d.sender, 3);
    assert_eq!(d.content, Payload::Text(chars("y")));
}

#[test]
fn decode_keeps_structured_content_verbatim() {
    let d = decode(&chars(r#"{"type":"info","id":3,"content":{"a":[1,2],"b":null}}"#)).expect(
        "decodes",
    );
    assert_eq!(d.content, Payload::Data(chars(r#"{"a":[1,2],"b":null}"#)));
    let d2 = decode(&chars(r#"{"type":"info","id":3,"content":42}"#)).expect("decodes");
    assert_eq!(d2.content, Payload::Data(chars("42")));
}

#[test]
fn decode_undoes_encode() {
    let contents = ["", "hi", "a\"b\\c\nd", "caf\u{e9} \u{1f600}", "\t\r\u{8}\u{c}\u{1}\u{1f}"];
    let kinds = [
        Kind::Identity,
        Kind::Error,
        Kind::EchoLocal,
        Kind::Chat,
        Kind::ParticipantCount,
        Kind::Info,
    ];
    for kind in kinds {
        for content in contents {
            let e = Envelope { kind, sender: 12345, content: Payload::Text(chars(content)) };
            let wire = encode(&e);
            let back = decode(&wire).expect("round trip decodes");
            assert_eq!(back.kind, kind);
            assert_eq!(back.sender, 12345);
            assert_eq!(payload_text(&back.content), content);
        }
    }
}

#[test]
fn decode_rejects_malformed() {
    let bad = [
        "",
        "{}",
        r#"{"type":"message","id":2,"content":"hi"}x"#,
        r#"{"type":"message","id":2,"content":"hi""#,
        r#"{"type":"shout","id":2,"content":"hi"}"#,
        r#"{"type":"message","id":,"content":"hi"}"#,
        r#"{"type":"message","id":2,"content":hi}"#,
        r#"{"type":"message","id":2,"content":"h\qi"}"#,
        r#"{"type":7,"id":2,"content":"hi"}"#,
        r#"{"type":"message","id":"2","content":"hi"}"#,
        r#"{"type":"message","id":2}"#,
        r#"{"type":"message","id":2,"content":"a","content":"b"}"#,
        r#"{"type":"message","id":2,"content":"hi",}"#,
        r#"{"type":"message" "id":2,"content":"hi"}"#,
    ];
    for s in bad {
        assert!(decode(&chars(s)).is_none(), "should reject: {s}");
    }
}

#[test]
fn decode_rejects_bad_numbers_and_strings() {
    let bad = [
        // leading zero, sign, fraction or exponent in the id
        r#"{"type":"message","id":007,"content":"hi"}"#,
        r#"{"type":"message","id":-2,"content":"hi"}"#,
        r#"{"type":"message","id":2.5,"content":"hi"}"#,
        r#"{"type":"message","id":2e1,"content":"hi"}"#,
        // raw control character in a string
        "{\"type\":\"message\",\"id\":2,\"content\":\"a\u{1}b\"}",
        // lone or malformed surrogate escapes
        r#"{"type":"message","id":2,"content":"\ud83d"}"#,
        r#"{"type":"message","id":2,"content":"\ude00"}"#,
        r#"{"type":"message","id":2,"content":"\u12"}"#,
    ];
    for s in bad {
        assert!(decode(&chars(s)).is_none(), "should reject: {s}");
    }
}

#[test]
fn decode_rejects_overflowing_id() {
    let s = r#"{"type":"message","id":99999999999999999999999999,"content":"hi"}"#;
    assert!(decode(&chars(s)).is_none());
}

#[test]
fn decimal_rendering_is_exact() {
    let cases: [(usize, &str); 5] = [
        (0, "0"),
        (7, "7"),
        (10, "10"),
        (105, "105"),
        (usize::MAX, "18446744073709551615"),
    ];
    for (n, expected) in cases {
        assert_eq!(text(&chathub::decimal::digits_of(n)), expected);
    }
}

#[test]
fn server_envelopes_encode_canonically() {
    assert_eq!(
        text(&encode(&Envelope::identity(1))),
        r#"{"type":"identity","id":0,"content":"1"}"#
    );
    assert_eq!(
        text(&encode(&Envelope::participant_count(3))),
        r#"{"type":"nbusers","id":0,"content":"3"}"#
    );
    assert_eq!(
        text(&encode(&Envelope::capacity_error(100))),
        r#"{"type":"error","id":0,"content":"Maximum number of users reached: 100"}"#
    );
}

#[test]
fn encoded_form_is_json() {
    let e = chat(7, "a\"b\\c\nd\te\u{3}");
    let wire = text(&encode(&e));
    let v: serde_json::Value = serde_json::from_str(&wire).expect("valid JSON");
    assert_eq!(v.get("type").and_then(|t| t.as_str()), Some("message"));
    assert_eq!(v.get("id").and_then(|t| t.as_u64()), Some(7));
    assert_eq!(v.get("content").and_then(|t| t.as_str()), Some("a\"b\\c\nd\te\u{3}"));
}

#[test]
fn decode_agrees_with_reference_parser() {
    let inputs = [
        r#"{"id":2,"type":"message","content":"aA\n"}"#,
        "{ \"type\":\"info\", \"id\":0, \"content\":\"\" }",
    ];
    for s in inputs {
        let mine = decode(&chars(s)).expect("accepted");
        let v: serde_json::Value = serde_json::from_str(s).expect("serde accepts too");
        assert_eq!(Some(mine.sender as u64), v.get("id").and_then(|x| x.as_u64()));
        assert_eq!(
            Some(payload_text(&mine.content).as_str()),
            v.get("content").and_then(|x| x.as_str())
        );
    }
}
