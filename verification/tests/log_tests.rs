use chathub::message_log::MessageLog;

fn chars(s: &str) -> Vec<char> {
    s.chars().collect()
}

fn text(v: &[char]) -> String {
    v.iter().collect()
}

fn lines(log: &MessageLog) -> Vec<String> {
    log.snapshot().iter().map(|l| text(l)).collect()
}

#[test]
fn append_and_snapshot() {
    let mut log = MessageLog::new();
    assert_eq!(log.len(), 0);
    log.append(chars("one"));
    log.append(chars("two"));
    assert_eq!(lines(&log), vec!["one".to_string(), "two".to_string()]);
}

#[test]
fn round_trip_through_backing_file() {
    let mut log = MessageLog::new();
    log.append(chars("a"));
    log.append(chars("b"));
    log.append(chars("c"));
    let (upto, payload) = log.flush_payload().expect("something pending");
    assert_eq!(upto, 3);
    assert_eq!(text(&payload), "a\nb\nc\n");
    let recovered = MessageLog::recover(&payload);
    assert_eq!(lines(&recovered), vec!["a".to_string(), "b".to_string(), "c".to_string()]);
    assert!(recovered.flush_payload().is_none());
}

#[test]
fn failed_flush_retries_same_delta() {
    let mut log = MessageLog::new();
    log.append(chars("a"));
    log.append(chars("b"));
    let (upto1, payload1) = log.flush_payload().expect("pending");
    assert_eq!(upto1, 2);
    assert_eq!(text(&payload1), "a\nb\n");
    // the write failed: the cursor is not advanced
    assert_eq!(log.durable_len(), 0);
    log.append(chars("c"));
    let (upto2, payload2) = log.flush_payload().expect("still pending");
    assert_eq!(upto2, 3);
    assert_eq!(text(&payload2), "a\nb\nc\n");
    assert!(text(&payload2).starts_with(&text(&payload1)));
    // this write succeeded
    log.advance_cursor(upto2);
    assert_eq!(log.durable_len(), 3);
    assert!(log.flush_payload().is_none());
    // a stale or overlong position leaves the cursor alone
    log.advance_cursor(1);
    log.advance_cursor(99);
    assert_eq!(log.durable_len(), 3);
    log.append(chars("d"));
    let (upto3, payload3) = log.flush_payload().expect("pending again");
    assert_eq!(upto3, 4);
    assert_eq!(text(&payload3), "d\n");
}

#[test]
fn recover_from_absent_file_is_empty() {
    let log = MessageLog::recover(&Vec::new());
    assert_eq!(log.len(), 0);
    assert!(log.flush_payload().is_none());
}

#[test]
fn recover_handles_odd_line_shapes() {
    let log = MessageLog::recover(&chars("a\n\nb"));
    assert_eq!(lines(&log), vec!["a".to_string(), "".to_string(), "b".to_string()]);
    let log2 = MessageLog::recover(&chars("a\nb\n"));
    assert_eq!(lines(&log2), vec!["a".to_string(), "b".to_string()]);
}

#[test]
fn appends_after_recovery_flush_incrementally() {
    let mut log = MessageLog::recover(&chars("a\nb\n"));
    log.append(chars("c"));
    let (upto, payload) = log.flush_payload().expect("only the new entry");
    assert_eq!(upto, 3);
    assert_eq!(text(&payload), "c\n");
}
