//! Framing of one record for appending to an archive.

use vstd::prelude::*;

verus! {

/// A carriage return and a line feed.
pub open spec fn crlf() -> Seq<u8> {
    seq![13u8, 10u8]
}

/// The separator line written before each record: `From `, an empty sender
/// field and a line terminator.
pub open spec fn separator_line() -> Seq<u8> {
    seq![70u8, 114u8, 111u8, 109u8, 32u8, 13u8, 10u8]
}

pub open spec fn ends_with_crlf(body: Seq<u8>) -> bool {
    body.len() >= 2 && body.subrange(body.len() - 2, body.len() as int) == crlf()
}

/// What follows a body so that exactly one blank line closes the record.
pub open spec fn terminator(body: Seq<u8>) -> Seq<u8> {
    if ends_with_crlf(body) {
        crlf()
    } else {
        crlf() + crlf()
    }
}

/// The bytes appended to an archive for one body.
pub open spec fn framed(body: Seq<u8>) -> Seq<u8> {
    separator_line() + body + terminator(body)
}

/// The archive made by appending the bodies in order.
pub open spec fn archive_of(bodies: Seq<Seq<u8>>) -> Seq<u8>
    decreases bodies.len(),
{
    if bodies.len() == 0 {
        Seq::empty()
    } else {
        framed(bodies[0]) + archive_of(bodies.drop_first())
    }
}

/// Returns the bytes to append for one body, as a single buffer so that one
/// write puts the whole record in place.
pub fn frame_record(body: &[u8]) -> (r: Vec<u8>)
    ensures
        r@ == framed(body@),
        ends_with_crlf(body@) ==> r@ == separator_line() + body@ + crlf(),
        !ends_with_crlf(body@) ==> r@ == separator_line() + body@ + crlf() + crlf(),
{
    let mut out: Vec<u8> = Vec::new();
    out.push(70u8);
    out.push(114u8);
    out.push(111u8);
    out.push(109u8);
    out.push(32u8);
    out.push(13u8);
    out.push(10u8);
    assert(out@ =~= separator_line());
    let n: usize = body.len();
    let mut i: usize = 0;
    while i < n
        invariant
            n == body@.len(),
            i <= n,
            out@ =~= separator_line() + body@.subrange(0, i as int),
        decreases n - i,
    {
        out.push(body[i]);
        i += 1;
    }
    assert(body@.subrange(0, n as int) =~= body@);
    let ends = n >= 2 && body[n - 2] == 13u8 && body[n - 1] == 10u8;
    proof {
        if n >= 2 {
            assert(ends == (body@.subrange(n - 2, n as int) =~= crlf()));
        }
    }
    out.push(13u8);
    out.push(10u8);
    if !ends {
        out.push(13u8);
        out.push(10u8);
    }
    assert(out@ =~= framed(body@));
    out
}

/// Appending to an archive is framing the new bodies after the old ones.
pub proof fn lemma_archive_append(earlier: Seq<Seq<u8>>, later: Seq<Seq<u8>>)
    ensures
        archive_of(earlier + later) == archive_of(earlier) + archive_of(later),
    decreases earlier.len(),
{
    if earlier.len() == 0 {
        assert(earlier + later =~= later);
        assert(archive_of(earlier) + archive_of(later) =~= archive_of(later));
    } else {
        assert((earlier + later).drop_first() =~= earlier.drop_first() + later);
        assert((earlier + later)[0] == earlier[0]);
        lemma_archive_append(earlier.drop_first(), later);
        assert(archive_of(earlier + later) =~= archive_of(earlier) + archive_of(later));
    }
}

} // verus!
