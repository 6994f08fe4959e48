//! Records of an archive buffer, numbered in the order they are read.

use vstd::prelude::*;
use crate::parser::{Parser, records_of, next_record, lemma_next_record_shrinks};

verus! {

/// A record of an archive and its position among the records.
pub struct Entry<'a> {
    data: &'a [u8],
    idx: usize,
}

impl<'a> Entry<'a> {
    /// The bytes of the record.
    pub closed spec fn content(&self) -> Seq<u8> {
        self.data@
    }

    /// The position of the record, counted from zero.
    pub closed spec fn index(&self) -> nat {
        self.idx as nat
    }

    pub fn new(data: &'a [u8], idx: usize) -> (r: Entry<'a>)
        ensures
            r.content() == data@,
            r.index() == idx,
    {
        Entry { data, idx }
    }

    pub fn data(&self) -> (r: &'a [u8])
        ensures
            r@ == self.content(),
    {
        self.data
    }

    pub fn idx(&self) -> (r: usize)
        ensures
            r == self.index(),
    {
        self.idx
    }
}

/// A buffer has no more records than bytes.
pub proof fn lemma_records_len(buf: Seq<u8>)
    ensures
        records_of(buf).len() <= buf.len(),
    decreases buf.len(),
{
    lemma_next_record_shrinks(buf);
    match next_record(buf) {
        None => {},
        Some((record, rest)) => {
            lemma_records_len(rest);
        },
    }
}

/// Reads the records of an archive buffer one by one, numbering them.
pub struct MboxReader<'a> {
    parser: Parser<'a>,
    count: usize,
}

impl<'a> MboxReader<'a> {
    /// The records not read yet.
    pub closed spec fn remaining(&self) -> Seq<Seq<u8>> {
        records_of(self.parser@)
    }

    /// How many records were read so far.
    pub closed spec fn read_so_far(&self) -> nat {
        self.count as nat
    }

    pub closed spec fn wf(&self) -> bool {
        self.count + records_of(self.parser@).len() <= usize::MAX
    }

    pub fn new(buf: &'a [u8]) -> (r: MboxReader<'a>)
        ensures
            r.wf(),
            r.read_so_far() + r.remaining().len() <= usize::MAX,
            r.remaining() == records_of(buf@),
            r.read_so_far() == 0,
    {
        let len: usize = buf.len();
        proof {
            lemma_records_len(buf@);
            assert(records_of(buf@).len() <= len);
        }
        MboxReader { parser: Parser::new(buf), count: 0 }
    }

    /// Returns the next record with its position, or `None` at the end.
    pub fn next(&mut self) -> (r: Option<Entry<'a>>)
        requires
            old(self).wf(),
        ensures
            final(self).wf(),
            final(self).read_so_far() + final(self).remaining().len() <= usize::MAX,
            r is None <==> old(self).remaining().len() == 0,
            r is None ==> final(self).remaining() == old(self).remaining(),
            r is None ==> final(self).read_so_far() == old(self).read_so_far(),
            r matches Some(e) ==> {
                &&& e.content() == old(self).remaining()[0]
                &&& e.index() == old(self).read_so_far()
                &&& final(self).remaining() == old(self).remaining().drop_first()
                &&& final(self).read_so_far() == old(self).read_so_far() + 1
            },
    {
        proof {
            lemma_next_record_shrinks(self.parser@);
        }
        match self.parser.next() {
            Some(item) => {
                proof {
                    assert(self.remaining() =~= old(self).remaining().drop_first());
                }
                let e = Entry::new(item, self.count);
                self.count = self.count + 1;
                Some(e)
            },
            None => None,
        }
    }
}

} // verus!
