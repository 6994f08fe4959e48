//! The order of work for one mailbox, as a machine that the program drives:
//! it asks for the next action, performs it, and reports what came back.

use vstd::prelude::*;
use crate::index::SeenSet;
use crate::sync::{
    batch_count, batch_spec, envelope_batches, pending_uid, pending_uids, strictly_increasing,
    EnvelopeInfo,
};

verus! {

/// What the program does next for a mailbox.
pub enum MailboxAction {
    /// Read the archive and report its message identifiers.
    ScanArchive,
    /// Ask for the UIDs and envelopes of this range of sequence numbers.
    FetchEnvelopes(u32, u32),
    /// Fetch the body of this UID and append it to the archive.
    FetchBody(u32),
    /// Nothing is left to do.
    Done,
}

/// The progress of one mailbox through its run.
pub struct MailboxSync {
    count: u32,
    seen: Option<SeenSet>,
    batches: Vec<(u32, u32)>,
    batches_sent: usize,
    envelopes: Vec<EnvelopeInfo>,
    pending: Option<Vec<u32>>,
    bodies_sent: usize,
}

impl MailboxSync {
    /// The number of messages the mailbox holds.
    pub closed spec fn count(&self) -> nat {
        self.count as nat
    }

    /// The identifiers of the archive, once it was read.
    pub closed spec fn seen(&self) -> Option<Set<Seq<u8>>> {
        match self.seen {
            Some(s) => Some(s@),
            None => None,
        }
    }

    /// How many envelope batches were asked for.
    pub closed spec fn batches_sent(&self) -> nat {
        self.batches_sent as nat
    }

    /// The envelopes reported so far.
    pub closed spec fn envelopes(&self) -> Seq<EnvelopeInfo> {
        self.envelopes@
    }

    /// The UIDs to fetch, once all envelope batches were asked for.
    pub closed spec fn planned(&self) -> Option<Seq<u32>> {
        match self.pending {
            Some(p) => Some(p@),
            None => None,
        }
    }

    /// How many bodies were asked for.
    pub closed spec fn bodies_sent(&self) -> nat {
        self.bodies_sent as nat
    }

    pub closed spec fn wf(&self) -> bool {
        &&& self.batches@.len() == batch_count(self.count as nat)
        &&& forall|k: int|
            0 <= k < self.batches@.len() ==> (#[trigger] self.batches@[k]).0 == batch_spec(
                self.count as nat,
                k as nat,
            ).0 && self.batches@[k].1 == batch_spec(self.count as nat, k as nat).1
        &&& self.batches_sent <= self.batches@.len()
        &&& self.batches_sent > 0 ==> self.seen is Some
        &&& match self.pending {
            Some(p) => {
                &&& self.seen is Some
                &&& self.batches_sent == self.batches@.len()
                &&& self.bodies_sent <= p@.len()
                &&& strictly_increasing(p@)
                &&& forall|u: u32|
                    p@.contains(u) <==> pending_uid(self.seen->Some_0@, self.envelopes@, u)
            },
            None => self.bodies_sent == 0,
        }
    }

    /// A mailbox of `count` messages, before any work.
    pub fn new(count: u32) -> (r: MailboxSync)
        ensures
            r.wf(),
            r.count() == count,
            r.seen() is None,
            r.batches_sent() == 0,
            r.envelopes() == Seq::<EnvelopeInfo>::empty(),
            r.planned() is None,
            r.bodies_sent() == 0,
    {
        MailboxSync {
            count,
            seen: None,
            batches: envelope_batches(count),
            batches_sent: 0,
            envelopes: Vec::new(),
            pending: None,
            bodies_sent: 0,
        }
    }

    /// How many bodies are planned; none before the plan is made.
    pub fn planned_len(&self) -> (r: usize)
        ensures
            r == match self.planned() {
                Some(p) => p.len(),
                None => 0,
            },
    {
        match &self.pending {
            Some(p) => p.len(),
            None => 0,
        }
    }

    /// Records the identifiers read from the archive.
    pub fn archive_scanned(&mut self, seen: SeenSet)
        requires
            old(self).wf(),
            old(self).seen() is None,
        ensures
            final(self).wf(),
            final(self).seen() == Some(seen@),
            final(self).count() == old(self).count(),
            final(self).batches_sent() == old(self).batches_sent(),
            final(self).envelopes() == old(self).envelopes(),
            final(self).planned() == old(self).planned(),
            final(self).bodies_sent() == old(self).bodies_sent(),
    {
        self.seen = Some(seen);
    }

    /// Records the envelopes of a batch; they all come before the bodies are
    /// planned.
    pub fn envelopes_fetched(&mut self, batch: Vec<EnvelopeInfo>)
        requires
            old(self).wf(),
            old(self).planned() is None,
        ensures
            final(self).wf(),
            final(self).envelopes() == old(self).envelopes() + batch@,
            final(self).count() == old(self).count(),
            final(self).seen() == old(self).seen(),
            final(self).batches_sent() == old(self).batches_sent(),
            final(self).planned() == old(self).planned(),
            final(self).bodies_sent() == old(self).bodies_sent(),
    {
        let mut batch = batch;
        self.envelopes.append(&mut batch);
    }

    /// Decides the next action. An empty mailbox needs none and its archive is
    /// never read nor written; otherwise the archive is read, the envelope
    /// batches are asked for in order, and then the bodies of the messages to
    /// fetch, by ascending UID, each once.
    pub fn next_action(&mut self) -> (r: MailboxAction)
        requires
            old(self).wf(),
        ensures
            final(self).wf(),
            final(self).count() == old(self).count(),
            final(self).seen() == old(self).seen(),
            final(self).envelopes() == old(self).envelopes(),
            old(self).count() == 0 ==> r is Done && final(self).batches_sent() == 0
                && final(self).planned() == old(self).planned(),
            old(self).count() > 0 && old(self).seen() is None ==> r is ScanArchive
                && final(self).batches_sent() == old(self).batches_sent()
                && final(self).planned() == old(self).planned(),
            old(self).count() > 0 && old(self).seen() is Some && old(self).batches_sent()
                < batch_count(old(self).count()) ==> {
                let b = batch_spec(old(self).count(), old(self).batches_sent());
                &&& r matches MailboxAction::FetchEnvelopes(lo, hi) && lo == b.0 && hi == b.1
                &&& final(self).batches_sent() == old(self).batches_sent() + 1
                &&& final(self).planned() == old(self).planned()
                &&& final(self).bodies_sent() == old(self).bodies_sent()
            },
            old(self).count() > 0 && old(self).seen() is Some && old(self).batches_sent()
                == batch_count(old(self).count()) ==> {
                let p = final(self).planned()->Some_0;
                &&& final(self).planned() is Some
                &&& old(self).planned() is Some ==> p == old(self).planned()->Some_0
                &&& strictly_increasing(p)
                &&& forall|u: u32|
                    p.contains(u) <==> pending_uid(
                        old(self).seen()->Some_0,
                        old(self).envelopes(),
                        u,
                    )
                &&& final(self).batches_sent() == old(self).batches_sent()
                &&& old(self).bodies_sent() < p.len() ==> r == MailboxAction::FetchBody(
                    p[old(self).bodies_sent() as int],
                ) && final(self).bodies_sent() == old(self).bodies_sent() + 1
                &&& old(self).bodies_sent() >= p.len() ==> r is Done && final(self).bodies_sent()
                    == old(self).bodies_sent()
            },
    {
        if self.count == 0 {
            return MailboxAction::Done;
        }
        if self.seen.is_none() {
            return MailboxAction::ScanArchive;
        }
        if self.batches_sent < self.batches.len() {
            let b = self.batches[self.batches_sent];
            self.batches_sent = self.batches_sent + 1;
            return MailboxAction::FetchEnvelopes(b.0, b.1);
        }
        if self.pending.is_none() {
            let p = match &self.seen {
                Some(s) => pending_uids(s, &self.envelopes),
                None => Vec::new(),
            };
            self.pending = Some(p);
        }
        match &self.pending {
            Some(p) => {
                if self.bodies_sent < p.len() {
                    let u = p[self.bodies_sent];
                    self.bodies_sent = self.bodies_sent + 1;
                    MailboxAction::FetchBody(u)
                } else {
                    MailboxAction::Done
                }
            },
            None => MailboxAction::Done,
        }
    }
}

} // verus!
