//! What the reader makes of well-formed buffers and of archives that the
//! writer produced.

use vstd::prelude::*;
use crate::parser::{
    newline, from_marker, occurs_at, first_occurrence, next_record, records_of,
    lemma_first_occurrence,
};
use crate::writer::{crlf, ends_with_crlf, terminator, framed, archive_of};

verus! {

/// `From ` alone.
pub open spec fn from_word() -> Seq<u8> {
    seq![70u8, 114u8, 111u8, 109u8, 32u8]
}

/// A line without a line feed: a leading line, or a sender field.
pub open spec fn one_line(line: Seq<u8>) -> bool {
    forall|i: int| 0 <= i < line.len() ==> line[i] != 10u8
}

/// A record that the reader can delimit: followed by a marker, the only
/// marker found after the line terminator before it is that one.
pub open spec fn separated(record: Seq<u8>) -> bool {
    forall|j: int|
        occurs_at(crlf() + record + from_marker(), from_marker(), j) ==> j == record.len() + 2
}

/// Records, each after a blank line, `From `, its sender field and a line
/// terminator.
pub open spec fn sections(senders: Seq<Seq<u8>>, records: Seq<Seq<u8>>) -> Seq<u8>
    decreases records.len(),
{
    if records.len() == 0 || senders.len() == 0 {
        Seq::empty()
    } else {
        from_marker() + senders[0] + crlf() + records[0] + sections(
            senders.drop_first(),
            records.drop_first(),
        )
    }
}

/// A buffer of records after a leading line.
pub open spec fn mbox_of(lead: Seq<u8>, senders: Seq<Seq<u8>>, records: Seq<Seq<u8>>) -> Seq<u8> {
    lead + sections(senders, records)
}

pub open spec fn well_formed_parts(senders: Seq<Seq<u8>>, records: Seq<Seq<u8>>) -> bool {
    &&& senders.len() == records.len()
    &&& forall|i: int| 0 <= i < senders.len() ==> one_line(#[trigger] senders[i])
    &&& forall|i: int| 0 <= i < records.len() ==> separated(#[trigger] records[i])
}

/// The start of a marker, shorter than a whole one (possibly empty).
pub open spec fn marker_prefix(tail: Seq<u8>) -> bool {
    tail.len() < 9 && tail == from_marker().subrange(0, tail.len() as int)
}

/// The records, the last one with `trail` added.
pub open spec fn with_trail(records: Seq<Seq<u8>>, trail: Seq<u8>) -> Seq<Seq<u8>> {
    records.update(records.len() - 1, records.last() + trail)
}

proof fn lemma_occurs_bytes(buf: Seq<u8>, needle: Seq<u8>, j: int)
    requires
        occurs_at(buf, needle, j),
    ensures
        forall|k: int| 0 <= k < needle.len() ==> buf[j + k] == #[trigger] needle[k],
{
    assert forall|k: int| 0 <= k < needle.len() implies buf[j + k] == needle[k] by {
        assert(buf.subrange(j, j + needle.len())[k] == buf[j + k]);
    }
}

proof fn lemma_first_is(buf: Seq<u8>, needle: Seq<u8>, k: int)
    requires
        occurs_at(buf, needle, k),
        forall|j: int| 0 <= j < k ==> !occurs_at(buf, needle, j),
    ensures
        first_occurrence(buf, needle) == Some(k as nat),
{
    lemma_first_occurrence(buf, needle);
    match first_occurrence(buf, needle) {
        Some(f) => {
            if f < k {
                assert(!occurs_at(buf, needle, f as int));
            } else if f > k {
                assert(!occurs_at(buf, needle, k));
            }
        },
        None => {
            assert(!occurs_at(buf, needle, k));
        },
    }
}

proof fn lemma_first_none(buf: Seq<u8>, needle: Seq<u8>)
    requires
        forall|j: int| !occurs_at(buf, needle, j),
    ensures
        first_occurrence(buf, needle) is None,
{
    lemma_first_occurrence(buf, needle);
    match first_occurrence(buf, needle) {
        Some(f) => {
            assert(occurs_at(buf, needle, f as int));
        },
        None => {},
    }
}

/// The bytes of a first line, its terminator, a record and what follows it.
pub open spec fn step_buffer(q: Seq<u8>, record: Seq<u8>, after: Seq<u8>) -> Seq<u8> {
    q + crlf() + record + after
}

proof fn lemma_step_bytes(q: Seq<u8>, record: Seq<u8>, after: Seq<u8>)
    ensures
        ({
            let buf = step_buffer(q, record, after);
            let lr = q.len() + 2 + record.len() as int;
            &&& buf.len() == lr + after.len()
            &&& forall|i: int| 0 <= i < q.len() ==> buf[i] == q[i]
            &&& buf[q.len() as int] == 13u8
            &&& buf[q.len() + 1 as int] == 10u8
            &&& forall|i: int| 0 <= i < record.len() ==> buf[q.len() + 2 + i] == record[i]
            &&& forall|i: int| 0 <= i < after.len() ==> buf[lr + i] == after[i]
        }),
{
}

proof fn lemma_step_newline(q: Seq<u8>, record: Seq<u8>, after: Seq<u8>)
    requires
        one_line(q),
    ensures
        first_occurrence(step_buffer(q, record, after), newline()) == Some(q.len() + 1),
{
    let buf = step_buffer(q, record, after);
    let qn = q.len() as int;
    lemma_step_bytes(q, record, after);
    assert(buf.subrange(qn + 1, qn + 2) =~= newline());
    assert forall|j: int| 0 <= j < qn + 1 implies !occurs_at(buf, newline(), j) by {
        if occurs_at(buf, newline(), j) {
            assert(buf.subrange(j, j + 1)[0] == buf[j]);
        }
    }
    lemma_first_is(buf, newline(), qn + 1);
}

/// Where `after` agrees with a marker on its first `k` bytes, a marker found
/// in the step buffer within that stretch is one found after the first line.
proof fn lemma_step_window(q: Seq<u8>, record: Seq<u8>, after: Seq<u8>, k: int, j: int)
    requires
        one_line(q),
        0 <= k <= 9,
        k <= after.len(),
        after.subrange(0, k) == from_marker().subrange(0, k),
        j + 9 <= q.len() + 2 + record.len() + k,
        occurs_at(step_buffer(q, record, after), from_marker(), j),
    ensures
        j >= q.len(),
        occurs_at(crlf() + record + from_marker(), from_marker(), j - q.len()),
{
    let buf = step_buffer(q, record, after);
    let y = crlf() + record + from_marker();
    let qn = q.len() as int;
    let lr = qn + 2 + record.len();
    lemma_step_bytes(q, record, after);
    lemma_occurs_bytes(buf, from_marker(), j);
    assert(from_marker()[1] == 10u8);
    if j < qn {
        if j + 1 < qn {
            assert(q[j + 1] == 10u8);
        }
        assert(false);
    }
    let w1 = buf.subrange(qn, lr + k);
    let w2 = y.subrange(0, lr - qn + k);
    assert(w1 =~= crlf() + record + after.subrange(0, k));
    assert(w2 =~= crlf() + record + from_marker().subrange(0, k));
    assert(w1 == w2);
    assert(buf.subrange(j, j + 9) =~= w1.subrange(j - qn, j - qn + 9));
    assert(y.subrange(j - qn, j - qn + 9) =~= w2.subrange(j - qn, j - qn + 9));
    assert(y.subrange(j - qn, j - qn + 9) =~= buf.subrange(j, j + 9));
}

/// One reader step on a line without a line feed, its terminator, a
/// delimitable record and what follows it: a whole marker, or the start of one.
proof fn lemma_step(q: Seq<u8>, record: Seq<u8>, after: Seq<u8>)
    requires
        one_line(q),
        separated(record),
        (after.len() >= 9 && after.subrange(0, 9) == from_marker()) || marker_prefix(after),
    ensures
        next_record(step_buffer(q, record, after)) == if after.len() >= 9 {
            Some((record, after.subrange(9, after.len() as int)))
        } else {
            Some((record + after, Seq::<u8>::empty()))
        },
{
    let buf = step_buffer(q, record, after);
    let m = from_marker();
    let qn = q.len() as int;
    let lr = qn + 2 + record.len();
    lemma_step_bytes(q, record, after);
    lemma_step_newline(q, record, after);
    if after.len() >= 9 {
        assert(after.subrange(0, 9) == m.subrange(0, 9)) by {
            assert(m.subrange(0, 9) =~= m);
        }
        assert(buf.subrange(lr, lr + 9) =~= after.subrange(0, 9));
        assert forall|j: int| 0 <= j < lr implies !occurs_at(buf, m, j) by {
            if occurs_at(buf, m, j) {
                lemma_step_window(q, record, after, 9, j);
            }
        }
        lemma_first_is(buf, m, lr);
        assert(buf.subrange(qn + 2, lr) =~= record);
        assert(buf.subrange(lr + 9, buf.len() as int) =~= after.subrange(9, after.len() as int));
    } else {
        assert(after.subrange(0, after.len() as int) =~= after);
        assert forall|j: int| !occurs_at(buf, m, j) by {
            if occurs_at(buf, m, j) {
                lemma_step_window(q, record, after, after.len() as int, j);
            }
        }
        lemma_first_none(buf, m);
        assert(buf.subrange(qn + 2, buf.len() as int) =~= record + after);
    }
}

proof fn lemma_records_from(
    q: Seq<u8>,
    record: Seq<u8>,
    senders: Seq<Seq<u8>>,
    records: Seq<Seq<u8>>,
    trail: Seq<u8>,
)
    requires
        one_line(q),
        separated(record),
        well_formed_parts(senders, records),
        marker_prefix(trail),
    ensures
        records_of(step_buffer(q, record, sections(senders, records) + trail)) == with_trail(
            seq![record] + records,
            trail,
        ),
    decreases records.len(),
{
    let after = sections(senders, records) + trail;
    if records.len() == 0 {
        assert(after =~= trail);
        lemma_step(q, record, after);
        assert(records_of(Seq::<u8>::empty()) == Seq::<Seq<u8>>::empty());
        assert(records_of(step_buffer(q, record, after)) =~= with_trail(
            seq![record] + records,
            trail,
        ));
    } else {
        let ss = senders.drop_first();
        let rs = records.drop_first();
        let inner = step_buffer(senders[0], records[0], sections(ss, rs) + trail);
        assert(after =~= from_marker() + inner);
        assert(after.subrange(0, 9) =~= from_marker());
        lemma_step(q, record, after);
        assert(after.subrange(9, after.len() as int) =~= inner);
        assert(one_line(senders[0]));
        assert(separated(records[0]));
        assert(well_formed_parts(ss, rs)) by {
            assert forall|i: int| 0 <= i < ss.len() implies one_line(#[trigger] ss[i]) by {
                assert(ss[i] == senders[i + 1]);
            }
            assert forall|i: int| 0 <= i < rs.len() implies separated(#[trigger] rs[i]) by {
                assert(rs[i] == records[i + 1]);
            }
        }
        lemma_records_from(senders[0], records[0], ss, rs, trail);
        assert(seq![records[0]] + rs =~= records);
        assert(records_of(step_buffer(q, record, after)) =~= with_trail(
            seq![record] + records,
            trail,
        ));
    }
}

/// A leading line without a line feed followed by delimitable records, each
/// after a blank line and its `From ` line, reads back as exactly those
/// records.
pub proof fn lemma_mbox_records(lead: Seq<u8>, senders: Seq<Seq<u8>>, records: Seq<Seq<u8>>)
    requires
        one_line(lead),
        well_formed_parts(senders, records),
    ensures
        records_of(mbox_of(lead, senders, records)) == records,
{
    let buf = mbox_of(lead, senders, records);
    let ln = lead.len() as int;
    if records.len() == 0 {
        assert(buf =~= lead);
        assert forall|j: int| !occurs_at(buf, newline(), j) by {
            if occurs_at(buf, newline(), j) {
                assert(buf.subrange(j, j + 1)[0] == buf[j]);
            }
        }
        lemma_first_none(buf, newline());
        assert(records_of(buf) =~= records);
    } else {
        let ss = senders.drop_first();
        let rs = records.drop_first();
        let rest = step_buffer(senders[0], records[0], sections(ss, rs) + Seq::empty());
        assert(buf =~= lead + from_marker() + rest);
        assert forall|i: int| 0 <= i < ln implies buf[i] == lead[i] by {}
        assert(buf[ln] == 13u8);
        assert(buf[ln + 1] == 10u8);
        assert(buf.subrange(ln + 1, ln + 2) =~= newline());
        assert forall|j: int| 0 <= j < ln + 1 implies !occurs_at(buf, newline(), j) by {
            if occurs_at(buf, newline(), j) {
                assert(buf.subrange(j, j + 1)[0] == buf[j]);
            }
        }
        lemma_first_is(buf, newline(), ln + 1);
        assert(buf.subrange(ln, ln + 9) =~= from_marker());
        assert forall|j: int| 0 <= j < ln implies !occurs_at(buf, from_marker(), j) by {
            if occurs_at(buf, from_marker(), j) {
                lemma_occurs_bytes(buf, from_marker(), j);
                assert(from_marker()[1] == 10u8);
                if j + 1 < ln {
                    assert(lead[j + 1] == 10u8);
                }
            }
        }
        lemma_first_is(buf, from_marker(), ln);
        assert(buf.subrange(ln + 9, buf.len() as int) =~= rest);
        assert(next_record(buf) == next_record(rest));
        assert(well_formed_parts(ss, rs)) by {
            assert forall|i: int| 0 <= i < ss.len() implies one_line(#[trigger] ss[i]) by {
                assert(ss[i] == senders[i + 1]);
            }
            assert forall|i: int| 0 <= i < rs.len() implies separated(#[trigger] rs[i]) by {
                assert(rs[i] == records[i + 1]);
            }
        }
        assert(one_line(senders[0]));
        assert(separated(records[0]));
        assert(marker_prefix(Seq::<u8>::empty())) by {
            assert(from_marker().subrange(0, 0) =~= Seq::<u8>::empty());
        }
        lemma_records_from(senders[0], records[0], ss, rs, Seq::empty());
        assert(seq![records[0]] + rs =~= records);
        assert(with_trail(records, Seq::empty()) =~= records);
    }
}

/// A body that holds no blank line followed by `From `, not even one that a
/// line terminator before it would complete.
pub open spec fn plain(body: Seq<u8>) -> bool {
    forall|j: int| !occurs_at(crlf() + body, from_marker(), j)
}

/// What the reader gives back for a body that the writer framed, before the
/// last record: the body without its final line terminator.
pub open spec fn read_back(body: Seq<u8>) -> Seq<u8> {
    if ends_with_crlf(body) {
        body.subrange(0, body.len() - 2)
    } else {
        body
    }
}

/// What the reader gives back for an archive of `bodies`: each body as
/// `read_back` has it, the last one followed by the blank line that closes
/// it.
pub open spec fn read_back_all(bodies: Seq<Seq<u8>>) -> Seq<Seq<u8>> {
    with_trail(Seq::new(bodies.len(), |i: int| read_back(bodies[i])), crlf() + crlf())
}

proof fn lemma_read_back_bytes(body: Seq<u8>)
    ensures
        ({
            let y = crlf() + read_back(body) + from_marker();
            let x = crlf() + body;
            let p0 = body.len() + 2 as int;
            &&& y.subrange(0, p0) == x
        }),
{
    let r = read_back(body);
    let m = from_marker();
    let y = crlf() + r + m;
    let p0 = body.len() + 2 as int;
    if ends_with_crlf(body) {
        assert(body.subrange(body.len() - 2, body.len() as int) =~= crlf());
        assert(body =~= r + crlf());
    }
    assert(y.subrange(0, p0) =~= crlf() + body);
}

proof fn lemma_read_back_tail(body: Seq<u8>)
    ensures
        ({
            let y = crlf() + read_back(body) + from_marker();
            let p0 = body.len() + 2 as int;
            &&& ends_with_crlf(body) ==> read_back(body).len() == body.len() - 2 && y.len() == p0
                + 7 && y[p0] == 13u8 && y[p0 + 1] == 10u8 && y[p0 + 2] == 70u8
            &&& !ends_with_crlf(body) ==> read_back(body).len() == body.len() && y.len() == p0 + 9
                && y[p0] == 13u8 && y[p0 + 1] == 10u8 && y[p0 + 2] == 13u8
        }),
{
    let r = read_back(body);
    let m = from_marker();
    let y = crlf() + r + m;
    let p0 = body.len() + 2 as int;
    if ends_with_crlf(body) {
        assert(body.subrange(body.len() - 2, body.len() as int) =~= crlf());
        assert(body =~= r + crlf());
        assert(y =~= crlf() + body + seq![13u8, 10u8, 70u8, 114u8, 111u8, 109u8, 32u8]);
    } else {
        assert(y =~= crlf() + body + m);
    }
}

proof fn lemma_marker_bytes()
    ensures
        from_marker().len() == 9,
        from_marker()[0] == 13u8,
        from_marker()[1] == 10u8,
        from_marker()[2] == 13u8,
        from_marker()[3] == 10u8,
        from_marker()[4] == 70u8,
        forall|k: int| 5 <= k < 9 ==> #[trigger] from_marker()[k] != 13u8,
{
    assert forall|k: int| 5 <= k < 9 implies #[trigger] from_marker()[k] != 13u8 by {
        if k == 5 {} else if k == 6 {} else if k == 7 {} else {}
    }
}

proof fn lemma_read_back_window_inside(body: Seq<u8>, j: int)
    requires
        plain(body),
        j + 9 <= body.len() + 2,
    ensures
        !occurs_at(crlf() + read_back(body) + from_marker(), from_marker(), j),
{
    let y = crlf() + read_back(body) + from_marker();
    let x = crlf() + body;
    let p0 = body.len() + 2 as int;
    lemma_read_back_bytes(body);
    if occurs_at(y, from_marker(), j) {
        assert(y.subrange(0, p0) =~= x);
        assert(y.subrange(j, j + 9) =~= x.subrange(j, j + 9));
        assert(occurs_at(x, from_marker(), j));
    }
}

/// A marker that starts before a carriage return at `p0` and reaches past
/// it starts two bytes before it, with `From ` two bytes after it.
proof fn lemma_marker_across(y: Seq<u8>, p0: int, j: int)
    requires
        p0 - 9 < j < p0,
        y[p0] == 13u8,
        occurs_at(y, from_marker(), j),
    ensures
        j == p0 - 2,
        y[p0 + 2] == 70u8,
{
    lemma_marker_bytes();
    lemma_occurs_bytes(y, from_marker(), j);
    let k = p0 - j;
    assert(y[j + k] == from_marker()[k]);
    assert(k == 2);
    assert(y[j + 4] == from_marker()[4]);
}

proof fn lemma_window_core(y: Seq<u8>, p0: int, rl: int, e: bool, j: int)
    requires
        occurs_at(y, from_marker(), j),
        j + 9 > p0,
        y[p0] == 13u8,
        e ==> rl == p0 - 4 && y.len() == p0 + 7 && y[p0 + 2] == 70u8,
        !e ==> rl == p0 - 2 && y.len() == p0 + 9 && y[p0 + 2] == 13u8,
    ensures
        j == rl + 2,
{
    if j < p0 {
        lemma_marker_across(y, p0, j);
    }
}

proof fn lemma_read_back_window(body: Seq<u8>, j: int)
    requires
        plain(body),
        occurs_at(crlf() + read_back(body) + from_marker(), from_marker(), j),
    ensures
        j == read_back(body).len() + 2,
{
    let y = crlf() + read_back(body) + from_marker();
    let p0 = body.len() + 2 as int;
    if j + 9 <= p0 {
        lemma_read_back_window_inside(body, j);
    } else {
        lemma_read_back_tail(body);
        lemma_window_core(y, p0, read_back(body).len() as int, ends_with_crlf(body), j);
    }
}

proof fn lemma_read_back_separated(body: Seq<u8>)
    requires
        plain(body),
    ensures
        separated(read_back(body)),
{
    assert forall|j: int| occurs_at(crlf() + read_back(body) + from_marker(), from_marker(), j) implies j
        == read_back(body).len() + 2 by {
        lemma_read_back_window(body, j);
    }
}

#[verifier::rlimit(60)]
proof fn lemma_archive_shape(bodies: Seq<Seq<u8>>)
    requires
        bodies.len() >= 1,
    ensures
        archive_of(bodies) == step_buffer(
            from_word(),
            read_back(bodies[0]),
            sections(
                Seq::new((bodies.len() - 1) as nat, |i: int| Seq::<u8>::empty()),
                Seq::new((bodies.len() - 1) as nat, |i: int| read_back(bodies[i + 1])),
            ) + (crlf() + crlf()),
        ),
    decreases bodies.len(),
{
    let b = bodies[0];
    let rest = bodies.drop_first();
    let k = (bodies.len() - 1) as nat;
    let ss = Seq::new(k, |i: int| Seq::<u8>::empty());
    let rs = Seq::new(k, |i: int| read_back(bodies[i + 1]));
    if ends_with_crlf(b) {
        assert(b.subrange(b.len() - 2, b.len() as int) =~= crlf());
        assert(b =~= read_back(b) + crlf());
    }
    assert(framed(b) =~= from_word() + crlf() + read_back(b) + crlf() + crlf());
    if bodies.len() == 1 {
        assert(archive_of(rest) =~= Seq::<u8>::empty());
        assert(sections(ss, rs) =~= Seq::<u8>::empty());
        assert(archive_of(bodies) =~= step_buffer(
            from_word(),
            read_back(b),
            sections(ss, rs) + (crlf() + crlf()),
        ));
    } else {
        lemma_archive_shape(rest);
        let k2 = (rest.len() - 1) as nat;
        let ss2 = Seq::new(k2, |i: int| Seq::<u8>::empty());
        let rs2 = Seq::new(k2, |i: int| read_back(rest[i + 1]));
        assert(ss.drop_first() =~= ss2);
        assert(rs.drop_first() =~= rs2);
        assert(ss[0] =~= Seq::<u8>::empty());
        assert(rs[0] == read_back(rest[0]));
        assert(sections(ss, rs) =~= from_marker() + crlf() + read_back(rest[0]) + sections(
            ss2,
            rs2,
        ));
        assert(archive_of(bodies) =~= step_buffer(
            from_word(),
            read_back(b),
            sections(ss, rs) + (crlf() + crlf()),
        ));
    }
}

/// Appending framed bodies and reading the archive back gives one record per
/// body, in order: each body without its final line terminator, and the last
/// one whole, followed by the blank line that closes it.
pub proof fn lemma_round_trip(bodies: Seq<Seq<u8>>)
    requires
        forall|i: int| 0 <= i < bodies.len() ==> plain(#[trigger] bodies[i]),
    ensures
        records_of(archive_of(bodies)).len() == bodies.len(),
        bodies.len() > 0 ==> records_of(archive_of(bodies)) == read_back_all(bodies),
        forall|i: int|
            0 <= i < bodies.len() - 1 ==> bodies[i] == #[trigger] records_of(archive_of(bodies))[i]
                || bodies[i] == records_of(archive_of(bodies))[i] + crlf(),
        bodies.len() > 0 ==> records_of(archive_of(bodies))[bodies.len() - 1] == bodies.last()
            + terminator(bodies.last()),
{
    if bodies.len() == 0 {
        assert(archive_of(bodies) =~= Seq::<u8>::empty());
        assert(records_of(Seq::<u8>::empty()) =~= Seq::<Seq<u8>>::empty());
    } else {
        let k = (bodies.len() - 1) as nat;
        let ss = Seq::new(k, |i: int| Seq::<u8>::empty());
        let rs = Seq::new(k, |i: int| read_back(bodies[i + 1]));
        lemma_archive_shape(bodies);
        assert(one_line(from_word()));
        lemma_read_back_separated(bodies[0]);
        assert(well_formed_parts(ss, rs)) by {
            assert forall|i: int| 0 <= i < ss.len() implies one_line(#[trigger] ss[i]) by {}
            assert forall|i: int| 0 <= i < rs.len() implies separated(#[trigger] rs[i]) by {
                lemma_read_back_separated(bodies[i + 1]);
            }
        }
        assert(marker_prefix(crlf() + crlf())) by {
            assert(from_marker().subrange(0, 4) =~= crlf() + crlf());
        }
        lemma_records_from(from_word(), read_back(bodies[0]), ss, rs, crlf() + crlf());
        let got = records_of(archive_of(bodies));
        assert(seq![read_back(bodies[0])] + rs =~= Seq::new(
            bodies.len(),
            |i: int| read_back(bodies[i]),
        ));
        assert(got == read_back_all(bodies));
        assert forall|i: int| 0 <= i < bodies.len() - 1 implies bodies[i] == #[trigger] got[i]
            || bodies[i] == got[i] + crlf() by {
            assert(got[i] == read_back(bodies[i]));
            if ends_with_crlf(bodies[i]) {
                assert(bodies[i].subrange(bodies[i].len() - 2, bodies[i].len() as int) =~= crlf());
                assert(bodies[i] =~= read_back(bodies[i]) + crlf());
            }
        }
        let lb = bodies.last();
        if ends_with_crlf(lb) {
            assert(lb.subrange(lb.len() - 2, lb.len() as int) =~= crlf());
            assert(lb =~= read_back(lb) + crlf());
        }
        assert(got[bodies.len() - 1] =~= lb + terminator(lb));
    }
}

} // verus!
