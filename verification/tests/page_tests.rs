use chathub::nonce::generate_nonce_base64;
use chathub::page::{render, Template};

fn chars(s: &str) -> Vec<char> {
    s.chars().collect()
}

fn text(v: &[char]) -> String {
    v.iter().collect()
}

#[test]
fn render_empty_transcript() {
    let t = Template { nbusers: 1, nonce: chars("n0"), messages: Vec::new() };
    assert_eq!(
        text(&render(&t)),
        "<!DOCTYPE html><html><head><meta charset=\"utf-8\"><title>chat</title></head>\
         <body><p>users: 1</p><ul></ul>\
         <script nonce=\"n0\" src=\"/script.js\"></script></body></html>"
    );
}

#[test]
fn render_lists_messages_in_order() {
    let t = Template {
        nbusers: 12,
        nonce: chars("abc"),
        messages: vec![chars("first"), chars("second")],
    };
    let page = text(&render(&t));
    assert!(page.contains("users: 12"));
    let first = page.find("<li>first</li>").expect("first listed");
    let second = page.find("<li>second</li>").expect("second listed");
    assert!(first < second);
}

#[test]
fn render_escapes_markup_in_messages() {
    let t = Template {
        nbusers: 1,
        nonce: chars("abc"),
        messages: vec![chars("<script>&\"'x")],
    };
    let page = text(&render(&t));
    assert!(page.contains("<li>&lt;script&gt;&amp;&quot;&#39;x</li>"));
    assert!(!page.contains("<script>&"));
}

#[test]
fn render_escapes_the_nonce() {
    let t = Template { nbusers: 1, nonce: chars("a\"b"), messages: Vec::new() };
    let page = text(&render(&t));
    assert!(page.contains("nonce=\"a&quot;b\""));
}

#[test]
fn nonce_has_base64_length() {
    assert_eq!(generate_nonce_base64(32).len(), 44);
    assert_eq!(generate_nonce_base64(16).len(), 24);
    assert_eq!(generate_nonce_base64(1).len(), 4);
    assert_eq!(generate_nonce_base64(0).len(), 0);
}

#[test]
fn nonce_decodes_to_fresh_bytes() {
    let a = generate_nonce_base64(32);
    let b = generate_nonce_base64(32);
    let bytes_a = base64::Engine::decode(&base64::engine::general_purpose::STANDARD, &a)
        .expect("valid base64");
    let bytes_b = base64::Engine::decode(&base64::engine::general_purpose::STANDARD, &b)
        .expect("valid base64");
    assert_eq!(bytes_a.len(), 32);
    assert_eq!(bytes_b.len(), 32);
    assert_ne!(bytes_a, bytes_b, "two nonces are not the same bytes");
}
