use imapfetch::file::MboxReader;
use imapfetch::parser::{read_until, Parser};
use imapfetch::writer::frame_record;

fn records(buf: &[u8]) -> Vec<Vec<u8>> {
    let mut reader = MboxReader::new(buf);
    let mut out = Vec::new();
    while let Some(entry) = reader.next() {
        assert_eq!(entry.idx(), out.len());
        out.push(entry.data().to_vec());
    }
    out
}

#[test]
fn read_until_finds_first_occurrence() {
    assert_eq!(read_until(b"abcabc", b"bc"), Ok(2));
    assert_eq!(read_until(b"x\r\n", b"\n"), Ok(3));
    assert_eq!(read_until(b"abc", b"abc"), Ok(1));
}

#[test]
fn read_until_reports_absence() {
    assert_eq!(read_until(b"abc", b"abcd"), Err(()));
    assert_eq!(read_until(b"", b"\n"), Err(()));
    assert_eq!(read_until(b"abcabc", b"cb"), Err(()));
}

#[test]
fn parser_splits_on_blank_line_and_from() {
    let buf = b"From a\r\nBODY1\r\n\r\nFrom b\r\nBODY2\r\n";
    let mut p = Parser::new(buf);
    assert_eq!(p.next(), Some(&b"BODY1"[..]));
    assert_eq!(p.next(), Some(&b"BODY2\r\n"[..]));
    assert_eq!(p.next(), None);
}

#[test]
fn parser_keeps_from_without_blank_line() {
    let buf = b"From a\r\nline\r\nFrom inside\r\n\r\nFrom b\r\nend\r\n";
    assert_eq!(
        records(buf),
        vec![b"line\r\nFrom inside".to_vec(), b"end\r\n".to_vec()]
    );
}

#[test]
fn reader_after_leading_line() {
    let buf = b"x\r\n\r\nFrom a\r\nBODY1\r\n\r\n\r\nFrom b\r\nBODY2\r\n";
    assert_eq!(records(buf), vec![b"BODY1\r\n".to_vec(), b"BODY2\r\n".to_vec()]);
    let mut p = Parser::new(buf);
    assert_eq!(p.next(), Some(&b"BODY1\r\n"[..]));
    assert_eq!(p.next(), Some(&b"BODY2\r\n"[..]));
    assert_eq!(p.next(), None);
}

#[test]
fn reader_skips_every_leading_separator() {
    let buf = b"x\r\n\r\nFrom a\r\n\r\nFrom b\r\nB\r\n";
    assert_eq!(records(buf), vec![b"B\r\n".to_vec()]);
}

#[test]
fn reader_on_empty_buffer() {
    assert!(records(b"").is_empty());
    assert!(records(b"no line end").is_empty());
}

#[test]
fn terminator_after_line_end() {
    assert_eq!(frame_record(b"abc\r\n"), b"From \r\nabc\r\n\r\n".to_vec());
}

#[test]
fn terminator_without_line_end() {
    assert_eq!(frame_record(b"abc"), b"From \r\nabc\r\n\r\n".to_vec());
    assert_eq!(frame_record(b"abc\n"), b"From \r\nabc\n\r\n\r\n".to_vec());
}

#[test]
fn terminator_for_short_bodies() {
    assert_eq!(frame_record(b""), b"From \r\n\r\n\r\n".to_vec());
    assert_eq!(frame_record(b"\n"), b"From \r\n\n\r\n\r\n".to_vec());
}

#[test]
fn written_records_read_back() {
    let bodies: Vec<&[u8]> = vec![b"Subject: a\r\n\r\nhello\r\n", b"Subject: b\r\n\r\nno end", b"x\r\n"];
    let mut archive = Vec::new();
    for b in &bodies {
        archive.extend_from_slice(&frame_record(b));
    }
    let got = records(&archive);
    assert_eq!(got.len(), 3);
    assert_eq!(got[0], b"Subject: a\r\n\r\nhello".to_vec());
    assert_eq!(got[1], b"Subject: b\r\n\r\nno end".to_vec());
    assert_eq!(got[2], b"x\r\n\r\n".to_vec());
}

#[test]
fn short_bodies_read_back() {
    let bodies: Vec<&[u8]> = vec![b"", b"\r\n", b"y", b"z"];
    let mut archive = Vec::new();
    for b in &bodies {
        archive.extend_from_slice(&frame_record(b));
    }
    let got = records(&archive);
    assert_eq!(got, vec![b"".to_vec(), b"".to_vec(), b"y".to_vec(), b"z\r\n\r\n".to_vec()]);
}
