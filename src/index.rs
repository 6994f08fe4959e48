//! The set of message identifiers already stored in an archive.

use vstd::prelude::*;
use crate::file::MboxReader;
use crate::parser::records_of;

verus! {

/// The text that the message-id header search captures in a record: the
/// value of its first `message-id:` header, up to the next carriage return.
pub uninterp spec fn message_id_capture(data: Seq<u8>) -> Option<Seq<u8>>;

#[verifier::external_type_specification]
#[verifier::external_body]
pub struct ExRegex(regex::bytes::Regex);

/// The header search, case-insensitive, with the value as its one group.
pub const MESSAGE_ID_PATTERN: &'static str = "(?i)message-id: ([^\\r]*)";

/// Relies on regex::bytes::Regex::new: compiles a pattern, `None` where the
/// engine refuses it.
#[verifier::external_body]
fn compile(pattern: &str) -> (r: Option<regex::bytes::Regex>) {
    regex::bytes::Regex::new(pattern).ok()
}

/// Finds message identifiers in records.
pub struct MessageIdMatcher {
    /// Always compiled from `MESSAGE_ID_PATTERN`.
    re: regex::bytes::Regex,
}

impl MessageIdMatcher {
    /// Compiles the header search; `None` where the regex engine refuses it.
    pub fn new() -> (r: Option<MessageIdMatcher>) {
        match compile(MESSAGE_ID_PATTERN) {
            Some(re) => Some(MessageIdMatcher { re }),
            None => None,
        }
    }

    /// Relies on regex::bytes::Regex::captures and Captures::get: the bytes of
    /// the first group of the leftmost match, which for the one pattern this
    /// matcher holds depend on `data` alone.
    #[verifier::external_body]
    fn capture(&self, data: &[u8]) -> (r: Option<Vec<u8>>)
        ensures
            match r {
                Some(v) => message_id_capture(data@) == Some(v@),
                None => message_id_capture(data@) is None,
            },
    {
        self.re.captures(data).and_then(|c| c.get(1)).map(|m| m.as_bytes().to_vec())
    }

    /// The message identifier of one record, if it has one.
    pub fn message_id(&self, data: &[u8]) -> (r: Option<Vec<u8>>)
        ensures
            r matches Some(v) ==> message_id_capture(data@) == Some(v@),
            r is None <==> message_id_capture(data@) is None,
    {
        self.capture(data)
    }
}

/// Compares two byte strings.
pub fn same_bytes(a: &[u8], b: &[u8]) -> (r: bool)
    ensures
        r == (a@ == b@),
{
    if a.len() != b.len() {
        return false;
    }
    let n: usize = a.len();
    let mut i: usize = 0;
    while i < n
        invariant
            n == a@.len(),
            n == b@.len(),
            i <= n,
            forall|j: int| 0 <= j < i ==> a@[j] == b@[j],
        decreases n - i,
    {
        if a[i] != b[i] {
            return false;
        }
        i += 1;
    }
    assert(a@ =~= b@);
    true
}

/// A set of message identifiers.
pub struct SeenSet {
    ids: Vec<Vec<u8>>,
}

impl View for SeenSet {
    type V = Set<Seq<u8>>;

    closed spec fn view(&self) -> Set<Seq<u8>> {
        Set::new(|id: Seq<u8>| exists|i: int| 0 <= i < self.ids@.len() && self.ids@[i]@ == id)
    }
}

impl SeenSet {
    pub fn new() -> (r: SeenSet)
        ensures
            r@ == Set::<Seq<u8>>::empty(),
    {
        let r = SeenSet { ids: Vec::new() };
        assert(r@ =~= Set::<Seq<u8>>::empty());
        r
    }

    pub fn insert(&mut self, id: Vec<u8>)
        ensures
            final(self)@ == old(self)@.insert(id@),
    {
        let ghost before = self.ids@;
        self.ids.push(id);
        proof {
            assert forall|x: Seq<u8>| #[trigger] self@.contains(x) == old(self)@.insert(id@).contains(x) by {
                if old(self)@.contains(x) {
                    let i = choose|i: int| 0 <= i < before.len() && before[i]@ == x;
                    assert(self.ids@[i] == before[i]);
                }
                if x == id@ {
                    assert(self.ids@[before.len() as int]@ == x);
                }
                if self@.contains(x) {
                    let i = choose|i: int| 0 <= i < self.ids@.len() && self.ids@[i]@ == x;
                    if i < before.len() {
                        assert(before[i]@ == x);
                    }
                }
            }
            assert(self@ =~= old(self)@.insert(id@));
        }
    }

    pub fn contains(&self, id: &[u8]) -> (r: bool)
        ensures
            r == self@.contains(id@),
    {
        let n: usize = self.ids.len();
        let mut i: usize = 0;
        while i < n
            invariant
                n == self.ids@.len(),
                i <= n,
                forall|j: int| 0 <= j < i ==> self.ids@[j]@ != id@,
            decreases n - i,
        {
            if same_bytes(self.ids[i].as_slice(), id) {
                return true;
            }
            i += 1;
        }
        false
    }
}

/// The identifiers that the records hold, each record counted once.
pub open spec fn ids_in(records: Seq<Seq<u8>>) -> Set<Seq<u8>> {
    Set::new(
        |id: Seq<u8>|
            exists|i: int| 0 <= i < records.len() && message_id_capture(records[i]) == Some(id),
    )
}

/// Reads an archive buffer and returns the message identifiers of its records
/// and how many records it holds. Records without an identifier are counted
/// and otherwise skipped.
pub fn scan_archive(buf: &[u8], matcher: &MessageIdMatcher) -> (r: (SeenSet, usize))
    ensures
        r.0@ == ids_in(records_of(buf@)),
        r.1 == records_of(buf@).len(),
{
    let ghost all = records_of(buf@);
    let mut seen = SeenSet::new();
    let mut reader = MboxReader::new(buf);
    let mut count: usize = 0;
    assert(ids_in(all.take(0)) =~= Set::<Seq<u8>>::empty());
    loop
        invariant
            all == records_of(buf@),
            reader.wf(),
            reader.read_so_far() + reader.remaining().len() <= usize::MAX,
            count == reader.read_so_far(),
            count <= all.len(),
            reader.remaining() == all.skip(count as int),
            seen@ == ids_in(all.take(count as int)),
        ensures
            count == all.len(),
            seen@ == ids_in(all),
        decreases reader.remaining().len(),
    {
        match reader.next() {
            Some(entry) => {
                let ghost before = seen@;
                proof {
                    assert(all.skip(count as int).len() > 0);
                    assert(reader.remaining() =~= all.skip(count + 1));
                }
                match matcher.message_id(entry.data()) {
                    Some(id) => {
                        seen.insert(id);
                    },
                    None => {},
                }
                proof {
                    let rec = all[count as int];
                    assert(entry.content() == rec);
                    assert forall|x: Seq<u8>| #[trigger] ids_in(all.take(count + 1)).contains(x)
                        == (before.contains(x) || message_id_capture(rec) == Some(x)) by {
                        if ids_in(all.take(count + 1)).contains(x) {
                            let i = choose|i: int| 0 <= i < count + 1 && message_id_capture(#[trigger] all.take(count + 1)[i]) == Some(x);
                            if i < count {
                                assert(all.take(count as int)[i] == all[i]);
                            }
                        }
                        if before.contains(x) {
                            let i = choose|i: int| 0 <= i < count && message_id_capture(#[trigger] all.take(count as int)[i]) == Some(x);
                            assert(all.take(count + 1)[i] == all[i]);
                        }
                        if message_id_capture(rec) == Some(x) {
                            assert(all.take(count + 1)[count as int] == rec);
                        }
                    }
                    assert(seen@ =~= ids_in(all.take(count + 1)));
                }
                count = count + 1;
            },
            None => {
                proof {
                    assert(all.skip(count as int).len() == 0);
                    assert(count == all.len());
                    assert(all.take(count as int) =~= all);
                }
                break;
            },
        }
    }
    (seen, count)
}

} // verus!
