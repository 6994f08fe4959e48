use imapfetch::index::{same_bytes, scan_archive, MessageIdMatcher, SeenSet};
use imapfetch::writer::frame_record;

#[test]
fn matcher_finds_header_case_insensitively() {
    let m = MessageIdMatcher::new().unwrap();
    assert_eq!(m.message_id(b"Subject: x\r\nMessage-ID: <a@b>\r\n\r\nbody"), Some(b"<a@b>".to_vec()));
    assert_eq!(m.message_id(b"MESSAGE-ID: <c@d>\r\n"), Some(b"<c@d>".to_vec()));
    assert_eq!(m.message_id(b"Subject: none\r\n\r\nbody\r\n"), None);
}

#[test]
fn scan_collects_ids_and_counts_records() {
    let m = MessageIdMatcher::new().unwrap();
    let mut archive = Vec::new();
    archive.extend_from_slice(&frame_record(b"Message-Id: <1@x>\r\n\r\none\r\n"));
    archive.extend_from_slice(&frame_record(b"Subject: no id\r\n\r\ntwo\r\n"));
    archive.extend_from_slice(&frame_record(b"message-id: <3@x>\r\n\r\nthree\r\n"));
    let (seen, count) = scan_archive(&archive, &m);
    assert_eq!(count, 3);
    assert!(seen.contains(b"<1@x>"));
    assert!(seen.contains(b"<3@x>"));
    assert!(!seen.contains(b"<2@x>"));
}

#[test]
fn scan_of_empty_archive() {
    let m = MessageIdMatcher::new().unwrap();
    let (seen, count) = scan_archive(b"", &m);
    assert_eq!(count, 0);
    assert!(!seen.contains(b""));
}

#[test]
fn seen_set_membership() {
    let mut s = SeenSet::new();
    assert!(!s.contains(b"<a>"));
    s.insert(b"<a>".to_vec());
    assert!(s.contains(b"<a>"));
    assert!(!s.contains(b"<a"));
    assert!(same_bytes(b"ab", b"ab"));
    assert!(!same_bytes(b"ab", b"ba"));
}
