use imapfetch::index::{scan_archive, MessageIdMatcher, SeenSet};
use imapfetch::writer::frame_record;
use imapfetch::sync::{
    envelope_batches, get_filenames, get_hdelim, mailbox_filename, pending_uids,
    EnvelopeInfo, Error, RetryPolicy,
};

fn env(uid: u32, mid: Option<&[u8]>) -> EnvelopeInfo {
    EnvelopeInfo { uid: Some(uid), message_id: mid.map(|m| m.to_vec()) }
}

#[test]
fn filenames_replace_delimiter() {
    let names = vec!["INBOX".to_string(), "INBOX/Sent/2020".to_string()];
    let r = get_filenames(names, "/".to_string()).unwrap();
    assert_eq!(r[0], ("INBOX".to_string(), "INBOX.mbox".to_string()));
    assert_eq!(r[1], ("INBOX/Sent/2020".to_string(), "INBOX.Sent.2020.mbox".to_string()));
}

#[test]
fn filenames_multi_char_delimiter() {
    assert_eq!(mailbox_filename("a::b:c", "::"), "a.b:c.mbox");
    assert_eq!(mailbox_filename("a:::b", "::"), "a.:b.mbox");
}

#[test]
fn filenames_need_a_delimiter() {
    assert!(matches!(get_filenames(vec!["a".to_string()], String::new()), Err(Error::NoDelimiter)));
}

#[test]
fn delimiter_from_listing() {
    assert_eq!(get_hdelim(&vec![Some("/".to_string()), Some(".".to_string())]).unwrap(), "/");
    assert!(matches!(get_hdelim(&vec![]), Err(Error::NoDelimiter)));
    assert!(matches!(get_hdelim(&vec![None, Some(".".to_string())]), Err(Error::NoDelimiter)));
    assert!(matches!(get_hdelim(&vec![Some(String::new())]), Err(Error::NoDelimiter)));
}

#[test]
fn batches_of_a_hundred() {
    assert!(envelope_batches(0).is_empty());
    assert_eq!(envelope_batches(1), vec![(1, 1)]);
    assert_eq!(envelope_batches(100), vec![(1, 100)]);
    assert_eq!(envelope_batches(250), vec![(1, 100), (101, 200), (201, 250)]);
    assert_eq!(envelope_batches(300).len(), 3);
}

#[test]
fn batches_of_largest_mailbox() {
    let b = envelope_batches(u32::MAX);
    assert_eq!(b.len(), 42949673);
    assert_eq!(*b.last().unwrap(), (4294967201, u32::MAX));
}

#[test]
fn pending_skips_seen_and_keeps_unidentified() {
    let mut seen = SeenSet::new();
    seen.insert(b"<old>".to_vec());
    let envs = vec![
        env(7, Some(b"<new>")),
        env(3, Some(b"<old>")),
        env(5, None),
        env(2, Some(b"<other>")),
        EnvelopeInfo { uid: None, message_id: Some(b"<x>".to_vec()) },
        env(7, Some(b"<new>")),
    ];
    assert_eq!(pending_uids(&seen, &envs), vec![2, 5, 7]);
}

#[test]
fn pending_empty_when_all_seen() {
    let mut seen = SeenSet::new();
    seen.insert(b"<a>".to_vec());
    seen.insert(b"<b>".to_vec());
    let envs = vec![env(1, Some(b"<a>")), env(2, Some(b"<b>"))];
    assert!(pending_uids(&seen, &envs).is_empty());
}

#[test]
fn login_retries_three_times() {
    let p = RetryPolicy::standard();
    assert!(p.retry_after(1));
    assert!(p.retry_after(2));
    assert!(!p.retry_after(3));
}

#[test]
fn second_run_fetches_nothing() {
    let m = MessageIdMatcher::new().unwrap();
    let bodies: Vec<&[u8]> = vec![
        b"Message-ID: <1@h>\r\nSubject: one\r\n\r\nhi\r\n",
        b"Message-ID: <2@h>\r\nSubject: two\r\n\r\nno line end",
    ];
    let envs = vec![env(10, Some(b"<1@h>")), env(11, Some(b"<2@h>"))];
    let (seen, _) = scan_archive(b"", &m);
    let first = pending_uids(&seen, &envs);
    assert_eq!(first, vec![10, 11]);
    let mut archive = Vec::new();
    for b in &bodies {
        archive.extend_from_slice(&frame_record(b));
    }
    let (seen, count) = scan_archive(&archive, &m);
    assert_eq!(count, 2);
    assert!(pending_uids(&seen, &envs).is_empty());
}

#[test]
fn unidentified_messages_fetched_every_run() {
    let mut seen = SeenSet::new();
    seen.insert(b"<a>".to_vec());
    let envs = vec![env(4, None), env(9, Some(b"<a>"))];
    assert_eq!(pending_uids(&seen, &envs), vec![4]);
}

#[test]
fn transport_failures_are_not_retried() {
    let p = RetryPolicy::standard();
    assert!(p.retry_after_failure(1, true));
    assert!(p.retry_after_failure(2, true));
    assert!(!p.retry_after_failure(3, true));
    assert!(!p.retry_after_failure(1, false));
}

#[test]
fn second_run_after_appending_fetches_nothing() {
    let m = MessageIdMatcher::new().unwrap();
    let mut archive = frame_record(b"Message-ID: <old@h>\r\n\r\nold\r\n");
    let envs = vec![env(1, Some(b"<old@h>")), env(2, Some(b"<new@h>"))];
    let (seen, count) = scan_archive(&archive, &m);
    assert_eq!(count, 1);
    assert_eq!(pending_uids(&seen, &envs), vec![2]);
    archive.extend_from_slice(&frame_record(b"Message-ID: <new@h>\r\n\r\nnew"));
    let (seen, count) = scan_archive(&archive, &m);
    assert_eq!(count, 2);
    assert!(pending_uids(&seen, &envs).is_empty());
}
