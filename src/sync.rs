//! The decisions of a synchronisation run: which files the mailboxes go to,
//! which envelope batches to request, which messages to fetch, and when to
//! stop asking for credentials.

use vstd::prelude::*;
use vstd::string::{StrSliceExecFns, StringExecFns};
use crate::index::{SeenSet, ids_in};
use crate::index::message_id_capture;
use crate::layout::{plain, read_back_all, lemma_round_trip};
use crate::parser::records_of;
use crate::writer::{archive_of, lemma_archive_append};

verus! {

/// Why a run stopped.
#[derive(Debug)]
pub enum Error {
    /// The server named no usable hierarchy delimiter.
    NoDelimiter,
    /// A password was needed and no terminal could be asked for it.
    NotATTY,
    /// The mail server or the protocol failed, with its message.
    Imap(String),
    /// A file or the transport failed, with its message.
    Io(String),
    /// The TLS layer failed, with its message.
    NativeTLS(String),
}

/// The delimiter of the first entry of a root listing, if it names a usable one.
pub open spec fn delimiter_spec(delimiters: Seq<Option<String>>) -> Option<Seq<char>> {
    if delimiters.len() == 0 {
        None
    } else {
        match delimiters[0] {
            Some(d) => if d@.len() > 0 {
                Some(d@)
            } else {
                None
            },
            None => None,
        }
    }
}

/// Picks the hierarchy delimiter from the delimiters of a root listing, in
/// the listing's order.
pub fn get_hdelim(delimiters: &Vec<Option<String>>) -> (r: Result<String, Error>)
    ensures
        r matches Ok(d) ==> delimiter_spec(delimiters@) == Some(d@),
        r is Err <==> delimiter_spec(delimiters@) is None,
        r matches Err(e) ==> e is NoDelimiter,
{
    if delimiters.len() == 0 {
        return Err(Error::NoDelimiter);
    }
    match &delimiters[0] {
        Some(d) => {
            if d.as_str().unicode_len() == 0 {
                Err(Error::NoDelimiter)
            } else {
                Ok(d.clone())
            }
        },
        None => Err(Error::NoDelimiter),
    }
}

/// `name` with each occurrence of `delim`, taken from the left without
/// overlap, replaced by a dot.
pub open spec fn dotted(name: Seq<char>, delim: Seq<char>) -> Seq<char>
    decreases name.len(),
{
    if name.len() == 0 {
        Seq::empty()
    } else if 0 < delim.len() <= name.len() && name.subrange(0, delim.len() as int) == delim {
        seq!['.'] + dotted(name.subrange(delim.len() as int, name.len() as int), delim)
    } else {
        seq![name[0]] + dotted(name.drop_first(), delim)
    }
}

/// The local file name of a mailbox.
pub open spec fn filename_of(name: Seq<char>, delim: Seq<char>) -> Seq<char> {
    dotted(name, delim) + seq!['.', 'm', 'b', 'o', 'x']
}

/// `delim` stands in `s` at character position `i`.
fn stands_at(s: &str, delim: &str, i: usize) -> (r: bool)
    requires
        i <= s@.len(),
    ensures
        r == (i + delim@.len() <= s@.len() && s@.subrange(i as int, i + delim@.len()) == delim@),
{
    let n: usize = s.unicode_len();
    let m: usize = delim.unicode_len();
    if m > n - i {
        return false;
    }
    let mut k: usize = 0;
    while k < m
        invariant
            n == s@.len(),
            m == delim@.len(),
            i + m <= n,
            k <= m,
            forall|t: int| 0 <= t < k ==> s@[i + t] == delim@[t],
        decreases m - k,
    {
        if s.get_char(i + k) != delim.get_char(k) {
            assert(s@.subrange(i as int, i + m)[k as int] != delim@[k as int]);
            return false;
        }
        k += 1;
    }
    assert(s@.subrange(i as int, i + m) =~= delim@);
    true
}

proof fn lemma_dotted_step(name: Seq<char>, delim: Seq<char>, i: int)
    requires
        0 <= i < name.len(),
    ensures
        dotted(name.subrange(i, name.len() as int), delim) == if 0 < delim.len() && i
            + delim.len() <= name.len() && name.subrange(i, i + delim.len()) == delim {
            seq!['.'] + dotted(name.subrange(i + delim.len(), name.len() as int), delim)
        } else {
            seq![name[i]] + dotted(name.subrange(i + 1, name.len() as int), delim)
        },
{
    let rest = name.subrange(i, name.len() as int);
    if 0 < delim.len() && i + delim.len() <= name.len() {
        assert(rest.subrange(0, delim.len() as int) =~= name.subrange(i, i + delim.len()));
        assert(rest.subrange(delim.len() as int, rest.len() as int) =~= name.subrange(
            i + delim.len(),
            name.len() as int,
        ));
    }
    assert(rest.drop_first() =~= name.subrange(i + 1, name.len() as int));
}

/// The file name of one mailbox: each delimiter replaced by a dot, then
/// `.mbox`.
pub fn mailbox_filename(name: &str, delim: &str) -> (r: String)
    ensures
        r@ == filename_of(name@, delim@),
{
    let n: usize = name.unicode_len();
    let m: usize = delim.unicode_len();
    let mut out = String::from_str("");
    let mut seg: usize = 0;
    let mut i: usize = 0;
    proof {
        reveal_strlit("");
        assert(name@.subrange(0, 0) =~= Seq::<char>::empty());
        assert(out@ + name@.subrange(0, 0) =~= Seq::<char>::empty());
        assert(name@.subrange(0, n as int) =~= name@);
    }
    while i < n
        invariant
            n == name@.len(),
            m == delim@.len(),
            seg <= i <= n,
            dotted(name@, delim@) == out@ + name@.subrange(seg as int, i as int) + dotted(
                name@.subrange(i as int, n as int),
                delim@,
            ),
        decreases n - i,
    {
        proof {
            lemma_dotted_step(name@, delim@, i as int);
        }
        if m > 0 && stands_at(name, delim, i) {
            out.append(name.substring_char(seg, i));
            out.append(".");
            proof {
                reveal_strlit(".");
            }
            i = i + m;
            seg = i;
            assert(name@.subrange(seg as int, i as int) =~= Seq::<char>::empty());
            assert(out@ + name@.subrange(seg as int, i as int) =~= out@);
        } else {
            assert(name@.subrange(seg as int, i + 1) =~= name@.subrange(seg as int, i as int)
                + seq![name@[i as int]]);
            i = i + 1;
        }
    }
    out.append(name.substring_char(seg, n));
    out.append(".mbox");
    proof {
        reveal_strlit(".mbox");
        assert(name@.subrange(n as int, n as int) =~= Seq::<char>::empty());
        assert(dotted(Seq::<char>::empty(), delim@) == Seq::<char>::empty());
        assert(".mbox"@ =~= seq!['.', 'm', 'b', 'o', 'x']);
    }
    out
}

/// Pairs each mailbox name with its local file name. An empty delimiter is
/// no usable delimiter.
pub fn get_filenames(mailboxes: Vec<String>, hdelim: String) -> (r: Result<
    Vec<(String, String)>,
    Error,
>)
    ensures
        r is Err <==> hdelim@.len() == 0,
        r matches Err(e) ==> e is NoDelimiter,
        r matches Ok(v) ==> {
            &&& v@.len() == mailboxes@.len()
            &&& forall|i: int|
                0 <= i < v@.len() ==> (#[trigger] v@[i]).0@ == mailboxes@[i]@ && v@[i].1@
                    == filename_of(mailboxes@[i]@, hdelim@)
        },
{
    if hdelim.as_str().unicode_len() == 0 {
        return Err(Error::NoDelimiter);
    }
    let mut res: Vec<(String, String)> = Vec::new();
    let n: usize = mailboxes.len();
    let mut i: usize = 0;
    while i < n
        invariant
            n == mailboxes@.len(),
            i <= n,
            res@.len() == i,
            forall|j: int|
                0 <= j < i ==> (#[trigger] res@[j]).0@ == mailboxes@[j]@ && res@[j].1@
                    == filename_of(mailboxes@[j]@, hdelim@),
        decreases n - i,
    {
        let filename = mailbox_filename(mailboxes[i].as_str(), hdelim.as_str());
        res.push((mailboxes[i].clone(), filename));
        i += 1;
    }
    Ok(res)
}

/// Messages asked for in one envelope request.
pub const BATCH_SIZE: u32 = 100;

/// The `k`-th envelope batch of a mailbox of `count` messages, as a range of
/// sequence numbers from one: full batches of a hundred, the last one ending
/// at `count`.
pub open spec fn batch_spec(count: nat, k: nat) -> (nat, nat) {
    (100 * k + 1, if 100 * (k + 1) <= count { 100 * (k + 1) } else { count })
}

/// How many batches a mailbox of `count` messages takes.
pub open spec fn batch_count(count: nat) -> nat {
    ((count + 99) / 100) as nat
}

/// The envelope batches of a mailbox of `count` messages, in order; none for
/// an empty mailbox.
pub fn envelope_batches(count: u32) -> (r: Vec<(u32, u32)>)
    ensures
        count == 0 ==> r@.len() == 0,
        r@.len() == batch_count(count as nat),
        forall|k: int|
            0 <= k < r@.len() ==> (#[trigger] r@[k]).0 == batch_spec(count as nat, k as nat).0
                && r@[k].1 == batch_spec(count as nat, k as nat).1,
{
    let mut res: Vec<(u32, u32)> = Vec::new();
    let mut start: u64 = 1;
    assert(batch_count(0) == 0);
    let total: u64 = count as u64;
    while start <= total
        invariant
            total == count,
            res@.len() * 100 + 1 == start,
            start <= total + 1 + 99,
            forall|k: int|
                0 <= k < res@.len() ==> (#[trigger] res@[k]).0 == batch_spec(count as nat, k as nat).0
                    && res@[k].1 == batch_spec(count as nat, k as nat).1,
        decreases total + 100 - start,
    {
        let full: u64 = start + 99;
        let end: u64 = if full <= total {
            full
        } else {
            total
        };
        res.push((start as u32, end as u32));
        start = start + 100;
    }
    assert(res@.len() == batch_count(count as nat)) by (nonlinear_arith)
        requires
            res@.len() * 100 + 1 == start,
            start > total,
            start <= total + 100,
            total == count,
    ;
    res
}

/// What the run learned of one message from its envelope batch.
pub struct EnvelopeInfo {
    pub uid: Option<u32>,
    pub message_id: Option<Vec<u8>>,
}

/// A message is fetched where it has a UID and its identifier is not in the
/// archive; one without an identifier cannot be matched and is always fetched.
pub open spec fn is_pending(seen: Set<Seq<u8>>, e: EnvelopeInfo) -> bool {
    e.uid is Some && match e.message_id {
        Some(m) => !seen.contains(m@),
        None => true,
    }
}

/// `u` is the UID of a message that has to be fetched.
pub open spec fn pending_uid(seen: Set<Seq<u8>>, envelopes: Seq<EnvelopeInfo>, u: u32) -> bool {
    exists|i: int|
        0 <= i < envelopes.len() && is_pending(seen, #[trigger] envelopes[i]) && envelopes[i].uid
            == Some(u)
}

pub open spec fn strictly_increasing(s: Seq<u32>) -> bool {
    forall|i: int, j: int| 0 <= i < j < s.len() ==> s[i] < s[j]
}

/// Adds `x` to an increasing sequence of UIDs, unless it is there.
fn insert_sorted(v: &mut Vec<u32>, x: u32)
    requires
        strictly_increasing(old(v)@),
    ensures
        strictly_increasing(final(v)@),
        forall|u: u32| final(v)@.contains(u) <==> (old(v)@.contains(u) || u == x),
{
    let n: usize = v.len();
    let mut p: usize = 0;
    while p < n && v[p] < x
        invariant
            n == v@.len(),
            p <= n,
            forall|j: int| 0 <= j < p ==> v@[j] < x,
        decreases n - p,
    {
        p += 1;
    }
    if p < n && v[p] == x {
        assert(v@[p as int] == x);
        return;
    }
    let ghost before = v@;
    v.insert(p, x);
    proof {
        assert forall|i: int, j: int| 0 <= i < j < v@.len() implies v@[i] < v@[j] by {
            if j < p {
            } else if j == p {
            } else if i < p {
                assert(v@[j] == before[j - 1]);
                assert(before[p as int] > x);
                if j - 1 > p {
                }
            } else if i == p {
                assert(before[p as int] > x);
                if j - 1 > p {
                }
            } else {
            }
        }
        assert forall|u: u32| #[trigger] v@.contains(u) <==> (old(v)@.contains(u) || u == x) by {
            if v@.contains(u) {
                let i = choose|i: int| 0 <= i < v@.len() && v@[i] == u;
                if i < p {
                    assert(before[i] == u);
                } else if i > p {
                    assert(before[i - 1] == u);
                }
            }
            if before.contains(u) {
                let i = choose|i: int| 0 <= i < before.len() && before[i] == u;
                if i < p {
                    assert(v@[i] == u);
                } else {
                    assert(v@[i + 1] == u);
                }
            }
            if u == x {
                assert(v@[p as int] == x);
            }
        }
        assert(before == old(v)@);
    }
}

/// The UIDs to fetch, ascending and each once: those of messages whose
/// identifier is not in `seen`, and of all messages without an identifier.
pub fn pending_uids(seen: &SeenSet, envelopes: &Vec<EnvelopeInfo>) -> (r: Vec<u32>)
    ensures
        strictly_increasing(r@),
        forall|u: u32| r@.contains(u) <==> pending_uid(seen@, envelopes@, u),
        forall|i: int|
            0 <= i < envelopes@.len() && (#[trigger] envelopes@[i]).message_id is None
                && envelopes@[i].uid is Some ==> r@.contains(envelopes@[i].uid->Some_0),
{
    let mut res: Vec<u32> = Vec::new();
    let n: usize = envelopes.len();
    let mut i: usize = 0;
    while i < n
        invariant
            n == envelopes@.len(),
            i <= n,
            strictly_increasing(res@),
            forall|u: u32| res@.contains(u) <==> pending_uid(seen@, envelopes@.take(i as int), u),
        decreases n - i,
    {
        let e = &envelopes[i];
        let ghost prev = res@;
        let wanted = match &e.message_id {
            Some(m) => !seen.contains(m.as_slice()),
            None => true,
        };
        if wanted {
            match e.uid {
                Some(u) => insert_sorted(&mut res, u),
                None => {},
            }
        }
        proof {
            let before = envelopes@.take(i as int);
            let after = envelopes@.take(i + 1);
            assert(wanted == (match e.message_id {
                Some(m) => !seen@.contains(m@),
                None => true,
            }));
            assert forall|u: u32| res@.contains(u) <==> pending_uid(seen@, after, u) by {
                if pending_uid(seen@, after, u) {
                    let k = choose|k: int| 0 <= k < after.len() && is_pending(seen@, #[trigger] after[k]) && after[k].uid == Some(u);
                    if k < i {
                        assert(before[k] == after[k]);
                        assert(pending_uid(seen@, before, u));
                    }
                }
                if pending_uid(seen@, before, u) {
                    let k = choose|k: int| 0 <= k < before.len() && is_pending(seen@, #[trigger] before[k]) && before[k].uid == Some(u);
                    assert(after[k] == before[k]);
                }
                if res@.contains(u) && !prev.contains(u) {
                    assert(after[i as int] == *e);
                }
            }
        }
        i += 1;
    }
    proof {
        assert(envelopes@.take(n as int) =~= envelopes@);
    }
    res
}

/// How many times credentials may be tried before the run gives up.
pub struct RetryPolicy {
    pub max_attempts: u32,
}

impl RetryPolicy {
    /// Three attempts in all, with a new prompt after each rejection.
    pub fn standard() -> (r: RetryPolicy)
        ensures
            r.max_attempts == 3,
    {
        RetryPolicy { max_attempts: 3 }
    }

    /// After `rejected` rejected logins, whether to ask again.
    pub fn retry_after(&self, rejected: u32) -> (r: bool)
        ensures
            r == (rejected < self.max_attempts),
    {
        rejected < self.max_attempts
    }

    /// After a failed login, the `failures`-th in a row, whether to prompt and
    /// try again: only where the server rejected the credentials, and while
    /// attempts are left. A failure of the transport is never retried.
    pub fn retry_after_failure(&self, failures: u32, credentials_rejected: bool) -> (r: bool)
        ensures
            r == (credentials_rejected && failures < self.max_attempts),
    {
        credentials_rejected && self.retry_after(failures)
    }
}

/// A message whose identifier the archive already holds is never fetched,
/// where UIDs are unique in the mailbox.
pub proof fn lemma_seen_never_fetched(seen: Set<Seq<u8>>, envelopes: Seq<EnvelopeInfo>, i: int)
    requires
        0 <= i < envelopes.len(),
        envelopes[i].uid is Some,
        envelopes[i].message_id is Some,
        seen.contains(envelopes[i].message_id->Some_0@),
        forall|a: int, b: int|
            0 <= a < envelopes.len() && 0 <= b < envelopes.len() && a != b
                && (#[trigger] envelopes[a]).uid is Some ==> envelopes[a].uid != (
            #[trigger] envelopes[b]).uid,
    ensures
        !pending_uid(seen, envelopes, envelopes[i].uid->Some_0),
{
    let u = envelopes[i].uid->Some_0;
    assert forall|k: int|
        0 <= k < envelopes.len() && #[trigger] envelopes[k].uid == Some(u) implies !is_pending(
        seen,
        envelopes[k],
    ) by {
        if k != i {
            assert(envelopes[i].uid != envelopes[k].uid);
        }
    }
}

/// After a run that appended the fetched bodies to an archive written
/// earlier in the same way, a second run against the unchanged mailbox
/// fetches nothing, provided every message carries an identifier and some
/// stored record shows it in its header.
pub proof fn lemma_second_run_fetches_nothing(
    earlier: Seq<Seq<u8>>,
    fetched: Seq<Seq<u8>>,
    envelopes: Seq<EnvelopeInfo>,
)
    requires
        forall|i: int| 0 <= i < earlier.len() ==> plain(#[trigger] earlier[i]),
        forall|i: int| 0 <= i < fetched.len() ==> plain(#[trigger] fetched[i]),
        forall|i: int|
            0 <= i < envelopes.len() ==> (#[trigger] envelopes[i]).message_id is Some && exists|
                k: int,
            |
                0 <= k < earlier.len() + fetched.len() && message_id_capture(
                    #[trigger] read_back_all(earlier + fetched)[k],
                ) == Some(envelopes[i].message_id->Some_0@),
    ensures
        forall|u: u32|
            !pending_uid(
                ids_in(records_of(archive_of(earlier) + archive_of(fetched))),
                envelopes,
                u,
            ),
{
    let bodies = earlier + fetched;
    lemma_archive_append(earlier, fetched);
    assert forall|i: int| 0 <= i < bodies.len() implies plain(#[trigger] bodies[i]) by {
        if i < earlier.len() {
            assert(bodies[i] == earlier[i]);
        } else {
            assert(bodies[i] == fetched[i - earlier.len()]);
        }
    }
    lemma_round_trip(bodies);
    let records = records_of(archive_of(bodies));
    assert forall|u: u32| !pending_uid(ids_in(records), envelopes, u) by {
        assert forall|i: int| 0 <= i < envelopes.len() implies !is_pending(
            ids_in(records),
            #[trigger] envelopes[i],
        ) by {
            let m = envelopes[i].message_id->Some_0;
            let k = choose|k: int|
                0 <= k < bodies.len() && message_id_capture(#[trigger] read_back_all(bodies)[k])
                    == Some(m@);
            assert(records[k] == read_back_all(bodies)[k]);
            assert(ids_in(records).contains(m@));
        }
    }
}

} // verus!
