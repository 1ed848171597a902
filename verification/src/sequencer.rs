use std::collections::HashMap;
use vstd::prelude::*;

verus! {

broadcast use vstd::std_specs::hash::group_hash_axioms;

/// The rows of one page, as delivered by the worker that fetched it.
#[derive(Debug, Clone)]
pub struct PageResult {
    /// 1-based sequence number of the page.
    pub page: u64,
    /// The page's rows, in the order the remote service returned them.
    pub rows: Vec<Vec<String>>,
}

/// Why the sequencer refused a page.
#[derive(Debug, Clone, Copy, PartialEq, Eq, Structural)]
pub enum SequencerError {
    /// The page number is zero or was already written.
    Stale,
    /// A page with this number is already waiting in the buffer.
    Duplicate,
}

/// Buffered pages, keyed by page number.
pub type Pending = Map<u64, Vec<Vec<String>>>;

/// Mathematical state of a sequencer: how many pages have been written, and
/// which later pages are held back until their turn.
pub ghost struct SequencerState {
    pub written: nat,
    pub pending: Pending,
}

/// The last page of the unbroken run of buffered pages that starts right
/// after `written`; `written` itself where the next page is missing.
pub open spec fn drained_through(pending: Pending, written: nat) -> nat
    decreases u64::MAX - written,
{
    if written < u64::MAX && pending.contains_key((written + 1) as u64) {
        drained_through(pending, written + 1)
    } else {
        written
    }
}

/// Rows of the pages `lo + 1 ..= hi`, in ascending page order.
pub open spec fn rows_between(pending: Pending, lo: nat, hi: nat) -> Seq<Vec<String>>
    decreases hi,
{
    if hi <= lo {
        Seq::empty()
    } else {
        rows_between(pending, lo, (hi - 1) as nat) + pending[hi as u64]@
    }
}

/// The buffered pages whose number is greater than `written`.
pub open spec fn keep_above(pending: Pending, written: nat) -> Pending {
    Map::new(|k: u64| pending.contains_key(k) && k > written, |k: u64| pending[k])
}

impl SequencerState {
    /// Nothing written, nothing buffered: page 1 is expected next.
    pub open spec fn initial() -> Self {
        SequencerState { written: 0, pending: Map::empty() }
    }

    /// Number of the page that is written next.
    pub open spec fn next_expected(self) -> nat {
        self.written + 1
    }

    /// The buffer is finite and holds only pages beyond the next expected
    /// one: the next expected page is never left waiting.
    pub open spec fn wf(self) -> bool {
        &&& self.written <= u64::MAX
        &&& self.pending.dom().finite()
        &&& forall|k: u64| #[trigger] self.pending.contains_key(k) ==> k > self.next_expected()
    }

    /// A page is accepted when it was neither written nor buffered before.
    pub open spec fn accepts(self, msg: PageResult) -> bool {
        msg.page > self.written && !self.pending.contains_key(msg.page)
    }

    /// The error a refused page gets.
    pub open spec fn rejection(self, msg: PageResult) -> SequencerError {
        if msg.page <= self.written {
            SequencerError::Stale
        } else {
            SequencerError::Duplicate
        }
    }

    /// The buffer with the arriving page added.
    pub open spec fn offered(self, msg: PageResult) -> Pending {
        self.pending.insert(msg.page, msg.rows)
    }

    /// Last page written once `msg` has arrived.
    pub open spec fn written_after(self, msg: PageResult) -> nat {
        drained_through(self.offered(msg), self.written)
    }

    /// State after an accepted page: every page of the unbroken run that
    /// now starts at the next expected page has left the buffer.
    pub open spec fn after(self, msg: PageResult) -> Self {
        SequencerState {
            written: self.written_after(msg),
            pending: keep_above(self.offered(msg), self.written_after(msg)),
        }
    }

    /// Rows handed to the sink when `msg` is accepted: those of the pages
    /// that leave the buffer, in ascending page order.
    pub open spec fn emitted(self, msg: PageResult) -> Seq<Vec<String>> {
        rows_between(self.offered(msg), self.written, self.written_after(msg))
    }
}

/// Receives pages in any order and releases their rows in ascending page
/// order.
pub struct Sequencer {
    written: u64,
    buffer: HashMap<u64, Vec<Vec<String>>>,
}

impl View for Sequencer {
    type V = SequencerState;

    closed spec fn view(&self) -> SequencerState {
        SequencerState { written: self.written as nat, pending: self.buffer@ }
    }
}

impl Sequencer {
    /// A sequencer that expects page 1.
    pub fn new() -> (s: Self)
        ensures
            s@ == SequencerState::initial(),
            s@.wf(),
    {
        Sequencer { written: 0, buffer: HashMap::new() }
    }

    /// Number of pages written so far; the next expected page is one more.
    pub fn pages_written(&self) -> (n: u64)
        ensures
            n == self@.written,
    {
        self.written
    }

    /// Number of pages waiting in the buffer.
    pub fn buffered(&self) -> (n: usize)
        ensures
            n == self@.pending.len(),
    {
        self.buffer.len()
    }

    /// Whether no page is waiting for an earlier one.
    pub fn is_drained(&self) -> (b: bool)
        ensures
            b == (self@.pending.len() == 0),
            b == (self@.pending =~= Map::empty()),
    {
        let n: usize = self.buffer.len();
        proof {
            if n == 0 {
                assert(self.buffer@.dom().finite());
                assert(self.buffer@.dom().len() == 0);
                assert(self.buffer@.dom() =~= Set::empty());
            }
        }
        n == 0
    }

    /// Takes one page. A page that was written or buffered before is
    /// refused and changes nothing. Otherwise the page joins the buffer,
    /// and the rows of every page whose turn has come are returned, in
    /// ascending page order and in their order inside each page.
    pub fn receive(&mut self, msg: PageResult) -> (result: Result<Vec<Vec<String>>, SequencerError>)
        requires
            old(self)@.wf(),
        ensures
            final(self)@.wf(),
            match result {
                Ok(rows) => {
                    &&& old(self)@.accepts(msg)
                    &&& final(self)@ == old(self)@.after(msg)
                    &&& rows@ == old(self)@.emitted(msg)
                },
                Err(e) => {
                    &&& !old(self)@.accepts(msg)
                    &&& e == old(self)@.rejection(msg)
                    &&& final(self)@ == old(self)@
                },
            },
            result is Ok ==> final(self)@.pending.len() + final(self)@.written == old(
                self,
            )@.pending.len() + old(self)@.written + 1,
    {
        let ghost before = self@;
        let ghost offered = self@.offered(msg);
        let PageResult { page, rows } = msg;
        if page <= self.written {
            return Err(SequencerError::Stale);
        }
        if self.buffer.contains_key(&page) {
            return Err(SequencerError::Duplicate);
        }
        self.buffer.insert(page, rows);
        let ghost start = before.written;
        assert(self.buffer@ =~= keep_above(offered, start));
        let mut out: Vec<Vec<String>> = Vec::new();
        while self.written < u64::MAX && self.buffer.contains_key(&(self.written + 1))
            invariant
                start <= self.written,
                offered.dom().finite(),
                self.buffer@ =~= keep_above(offered, self.written as nat),
                drained_through(offered, self.written as nat) == drained_through(offered, start),
                out@ == rows_between(offered, start, self.written as nat),
                self.buffer@.len() + self.written == offered.len() + start,
            decreases u64::MAX - self.written,
        {
            let next: u64 = self.written + 1;
            let taken = self.buffer.remove(&next);
            let mut rows = taken.unwrap();
            assert(rows == offered[next]);
            out.append(&mut rows);
            self.written = next;
            assert(self.buffer@ =~= keep_above(offered, next as nat));
        }
        proof {
            let w = self.written as nat;
            assert(drained_through(offered, w) == w);
            assert(self@.pending =~= before.after(msg).pending);
        }
        Ok(out)
    }
}

} // verus!
