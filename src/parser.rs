//! Boundary detection in an mbox buffer.
//!
//! RFC 4155 notes that separator lines usually start with `From ` and that
//! implementations disagree on escaping body lines that start the same way.
//! This parser only accepts a `From ` line as a separator when a blank line
//! precedes it, which tolerates most unescaped `From ` lines inside bodies.

use vstd::prelude::*;
use vstd::slice::slice_subrange;

verus! {

/// A line feed, the byte that ends every line.
pub open spec fn newline() -> Seq<u8> {
    seq![10u8]
}

/// A blank line followed by `From `: what separates two records.
pub open spec fn from_marker() -> Seq<u8> {
    seq![13u8, 10u8, 13u8, 10u8, 70u8, 114u8, 111u8, 109u8, 32u8]
}

/// `needle` stands in `buf` at position `i`.
pub open spec fn occurs_at(buf: Seq<u8>, needle: Seq<u8>, i: int) -> bool {
    0 <= i && i + needle.len() <= buf.len() && buf.subrange(i, i + needle.len()) == needle
}

/// The first position at or after `i` where `needle` stands in `buf`.
pub open spec fn first_occurrence_from(buf: Seq<u8>, needle: Seq<u8>, i: nat) -> Option<nat>
    decreases buf.len() + 1 - i,
{
    if i + needle.len() > buf.len() {
        None
    } else if occurs_at(buf, needle, i as int) {
        Some(i)
    } else {
        first_occurrence_from(buf, needle, i + 1)
    }
}

/// The first position where `needle` stands in `buf`.
pub open spec fn first_occurrence(buf: Seq<u8>, needle: Seq<u8>) -> Option<nat> {
    first_occurrence_from(buf, needle, 0)
}

/// One step of the reader: the next record and the buffer left after it.
///
/// The record starts after the first line feed and ends where the first
/// blank-line-plus-`From ` marker begins; the rest starts after that marker.
/// A marker that begins in the terminator of the first line is a separator
/// with no record before it: the step goes on after it. Without a marker the
/// record runs to the end of the buffer and nothing is left.
pub open spec fn next_record(buf: Seq<u8>) -> Option<(Seq<u8>, Seq<u8>)>
    decreases buf.len(),
{
    match first_occurrence(buf, newline()) {
        None => None,
        Some(n) => match first_occurrence(buf, from_marker()) {
            Some(m) => if m + 1 == n {
                proof {
                    lemma_first_occurrence(buf, from_marker());
                }
                next_record(buf.subrange(m + from_marker().len() as int, buf.len() as int))
            } else {
                Some(
                    (
                        buf.subrange(n + 1 as int, m as int),
                        buf.subrange(m + from_marker().len() as int, buf.len() as int),
                    ),
                )
            },
            None => Some((buf.subrange(n + 1 as int, buf.len() as int), Seq::empty())),
        },
    }
}

/// Every record of `buf`, in order.
pub open spec fn records_of(buf: Seq<u8>) -> Seq<Seq<u8>>
    decreases buf.len(),
{
    match next_record(buf) {
        None => Seq::empty(),
        Some((record, rest)) => {
            proof {
                lemma_next_record_shrinks(buf);
            }
            seq![record] + records_of(rest)
        },
    }
}

proof fn lemma_first_occurrence_from_found(buf: Seq<u8>, needle: Seq<u8>, i: nat)
    ensures
        match first_occurrence_from(buf, needle, i) {
            Some(k) => i <= k && occurs_at(buf, needle, k as int) && forall|j: int|
                i <= j < k ==> !occurs_at(buf, needle, j),
            None => forall|j: int| i <= j ==> !occurs_at(buf, needle, j),
        },
    decreases buf.len() + 1 - i,
{
    if i + needle.len() > buf.len() {
    } else if occurs_at(buf, needle, i as int) {
    } else {
        lemma_first_occurrence_from_found(buf, needle, i + 1);
    }
}

/// What `first_occurrence` returns, stated by where the needle stands.
pub proof fn lemma_first_occurrence(buf: Seq<u8>, needle: Seq<u8>)
    ensures
        match first_occurrence(buf, needle) {
            Some(k) => occurs_at(buf, needle, k as int) && forall|j: int|
                0 <= j < k ==> !occurs_at(buf, needle, j),
            None => forall|j: int| !occurs_at(buf, needle, j),
        },
{
    lemma_first_occurrence_from_found(buf, needle, 0);
}

/// A reader step leaves a shorter buffer, and its record lies inside it.
pub proof fn lemma_next_record_shrinks(buf: Seq<u8>)
    ensures
        next_record(buf) matches Some((record, rest)) ==> rest.len() < buf.len() && record.len()
            < buf.len(),
    decreases buf.len(),
{
    lemma_first_occurrence(buf, newline());
    lemma_first_occurrence(buf, from_marker());
    match first_occurrence(buf, newline()) {
        None => {},
        Some(n) => match first_occurrence(buf, from_marker()) {
            Some(m) => {
                lemma_marker_after_newline(buf, n as int, m as int);
                if m + 1 == n {
                    lemma_next_record_shrinks(buf.subrange(m + 9 as int, buf.len() as int));
                }
            },
            None => {},
        },
    }
}

/// The marker holds a line feed, so the first line feed comes no later than
/// it; and it starts with a carriage return, so not where the line feed is.
proof fn lemma_marker_after_newline(buf: Seq<u8>, n: int, m: int)
    requires
        occurs_at(buf, newline(), n),
        forall|j: int| 0 <= j < n ==> !occurs_at(buf, newline(), j),
        occurs_at(buf, from_marker(), m),
    ensures
        n <= m + 1,
        n != m,
{
    assert(buf.subrange(m, m + 9)[1] == 10u8);
    assert(buf.subrange(m + 1, m + 2) =~= newline());
    assert(occurs_at(buf, newline(), m + 1));
    assert(buf.subrange(m, m + 9)[0] == 13u8);
    assert(buf.subrange(n, n + 1)[0] == 10u8);
}

/// Finds `needle` in `buf` and returns the position just after its first
/// byte, or `Err(())` where it does not occur. A buffer shorter than the
/// needle is searched like any other and gives `Err(())`.
pub fn read_until(buf: &[u8], needle: &[u8]) -> (r: Result<usize, ()>)
    ensures
        r matches Ok(k) ==> 1 <= k && occurs_at(buf@, needle@, k - 1) && forall|j: int|
            0 <= j < k - 1 ==> !occurs_at(buf@, needle@, j),
        r is Err ==> forall|j: int| !occurs_at(buf@, needle@, j),
        r matches Ok(k) ==> first_occurrence(buf@, needle@) == Some((k - 1) as nat),
        r is Err <==> first_occurrence(buf@, needle@) is None,
{
    proof {
        lemma_first_occurrence(buf@, needle@);
    }
    if needle.len() > buf.len() {
        return Err(());
    }
    if needle.len() == 0 {
        assert(buf@.subrange(0, 0) =~= needle@);
        return Ok(1);
    }
    let len: usize = buf.len();
    let last: usize = len - needle.len();
    let mut i: usize = 0;
    while i <= last
        invariant
            0 < needle@.len() <= buf@.len(),
            len == buf@.len(),
            last == buf@.len() - needle@.len(),
            i <= last + 1,
            forall|j: int| 0 <= j < i ==> !occurs_at(buf@, needle@, j),
        decreases last + 1 - i,
    {
        let mut same = true;
        let mut k: usize = 0;
        while k < needle.len()
            invariant
                0 < needle@.len() <= buf@.len(),
                len == buf@.len(),
                i <= last,
                last == buf@.len() - needle@.len(),
                k <= needle@.len(),
                same == forall|t: int| 0 <= t < k ==> buf@[i + t] == needle@[t],
            decreases needle@.len() - k,
        {
            if buf[i + k] != needle[k] {
                same = false;
            }
            k += 1;
        }
        if same {
            assert(buf@.subrange(i as int, i + needle@.len()) =~= needle@);
            proof {
                lemma_first_occurrence(buf@, needle@);
                assert(occurs_at(buf@, needle@, i as int));
                match first_occurrence(buf@, needle@) {
                    Some(k) => {
                        if k < i {
                            assert(!occurs_at(buf@, needle@, k as int));
                        }
                    },
                    None => {},
                }
            }
            return Ok(i + 1);
        }
        proof {
            let t = choose|t: int| 0 <= t < needle@.len() && buf@[i + t] != needle@[t];
            assert(buf@.subrange(i as int, i + needle@.len())[t] != needle@[t]);
        }
        i += 1;
    }
    proof {
        assert forall|j: int| !occurs_at(buf@, needle@, j) by {
            if 0 <= j < i {
            }
        }
    }
    Err(())
}

/// A forward-only reader of the records of one buffer.
pub struct Parser<'a> {
    buf: &'a [u8],
}

impl<'a> View for Parser<'a> {
    type V = Seq<u8>;

    /// The part of the buffer not read yet.
    closed spec fn view(&self) -> Seq<u8> {
        self.buf@
    }
}

impl<'a> Parser<'a> {
    pub fn new(buf: &'a [u8]) -> (r: Parser<'a>)
        ensures
            r@ == buf@,
    {
        Parser { buf }
    }

    /// Returns the next record, or `None` once no record is left.
    pub fn next(&mut self) -> (r: Option<&'a [u8]>)
        ensures
            match next_record(old(self)@) {
                None => r is None && final(self)@ == old(self)@,
                Some((record, rest)) => r matches Some(s) && s@ == record && final(self)@ == rest,
            },
    {
        let nl: [u8; 1] = [10u8];
        let marker: [u8; 9] = [13u8, 10u8, 13u8, 10u8, 70u8, 114u8, 111u8, 109u8, 32u8];
        assert(nl@ =~= newline());
        assert(marker@ =~= from_marker());
        let mut cur: &'a [u8] = self.buf;
        loop
            invariant
                nl@ == newline(),
                marker@ == from_marker(),
                self@ == old(self)@,
                next_record(cur@) == next_record(old(self)@),
            decreases cur@.len(),
        {
            let start = match read_until(cur, &nl) {
                Ok(p) => p,
                Err(()) => {
                    return None;
                },
            };
            proof {
                lemma_first_occurrence(cur@, newline());
                lemma_first_occurrence(cur@, from_marker());
            }
            let len: usize = cur.len();
            match read_until(cur, &marker) {
                Ok(end) => {
                    proof {
                        lemma_marker_after_newline(cur@, start - 1, end - 1);
                    }
                    if end + 1 == start {
                        cur = slice_subrange(cur, end + 8, len);
                    } else {
                        let res = slice_subrange(cur, start, end - 1);
                        self.buf = slice_subrange(cur, end + 8, len);
                        return Some(res);
                    }
                },
                Err(()) => {
                    let res = slice_subrange(cur, start, len);
                    self.buf = slice_subrange(cur, start, start);
                    assert(self.buf@ =~= Seq::<u8>::empty());
                    return Some(res);
                },
            }
        }
    }
}

} // verus!
