use imapfetch::index::SeenSet;
use imapfetch::session::{MailboxAction, MailboxSync};
use imapfetch::sync::EnvelopeInfo;

fn env(uid: u32, mid: Option<&[u8]>) -> EnvelopeInfo {
    EnvelopeInfo { uid: Some(uid), message_id: mid.map(|m| m.to_vec()) }
}

fn is(a: &MailboxAction, b: &MailboxAction) -> bool {
    match (a, b) {
        (MailboxAction::ScanArchive, MailboxAction::ScanArchive) => true,
        (MailboxAction::Done, MailboxAction::Done) => true,
        (MailboxAction::FetchEnvelopes(a, b), MailboxAction::FetchEnvelopes(c, d)) => a == c && b == d,
        (MailboxAction::FetchBody(a), MailboxAction::FetchBody(b)) => a == b,
        _ => false,
    }
}

#[test]
fn empty_mailbox_needs_no_work() {
    let mut s = MailboxSync::new(0);
    assert!(is(&s.next_action(), &MailboxAction::Done));
    assert!(is(&s.next_action(), &MailboxAction::Done));
}

#[test]
fn mailbox_run_in_order() {
    let mut s = MailboxSync::new(150);
    assert!(is(&s.next_action(), &MailboxAction::ScanArchive));
    let mut seen = SeenSet::new();
    seen.insert(b"<old>".to_vec());
    s.archive_scanned(seen);
    assert!(is(&s.next_action(), &MailboxAction::FetchEnvelopes(1, 100)));
    s.envelopes_fetched(vec![env(30, Some(b"<old>")), env(20, None)]);
    assert!(is(&s.next_action(), &MailboxAction::FetchEnvelopes(101, 150)));
    s.envelopes_fetched(vec![env(140, Some(b"<new>")), env(10, Some(b"<n2>"))]);
    assert_eq!(s.planned_len(), 0);
    assert!(is(&s.next_action(), &MailboxAction::FetchBody(10)));
    assert_eq!(s.planned_len(), 3);
    assert!(is(&s.next_action(), &MailboxAction::FetchBody(20)));
    assert!(is(&s.next_action(), &MailboxAction::FetchBody(140)));
    assert!(is(&s.next_action(), &MailboxAction::Done));
}

#[test]
fn mailbox_run_with_nothing_new() {
    let mut s = MailboxSync::new(2);
    assert!(is(&s.next_action(), &MailboxAction::ScanArchive));
    let mut seen = SeenSet::new();
    seen.insert(b"<a>".to_vec());
    seen.insert(b"<b>".to_vec());
    s.archive_scanned(seen);
    assert!(is(&s.next_action(), &MailboxAction::FetchEnvelopes(1, 2)));
    s.envelopes_fetched(vec![env(1, Some(b"<a>")), env(2, Some(b"<b>"))]);
    assert!(is(&s.next_action(), &MailboxAction::Done));
}
