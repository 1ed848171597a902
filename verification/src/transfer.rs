use crate::arrival::{all_accepted, rows_after, state_after};
use crate::sequencer::{PageResult, Sequencer, SequencerError, SequencerState};
use vstd::prelude::*;

verus! {

/// What can make a transfer fail.
#[derive(Debug, Clone, Copy, PartialEq, Eq, Structural)]
pub enum TransferError {
    /// The remote service failed on a page.
    Remote { page: u64 },
    /// A record of a page could not be turned into a row.
    Transform { page: u64 },
    /// The sink could not be written.
    Sink,
    /// A worker or the sequencer could not be joined.
    Coordination,
}

/// All outcomes before position `i` are successes.
pub open spec fn all_ok_before<T>(outcomes: Seq<Result<T, TransferError>>, i: int) -> bool {
    forall|j: int| 0 <= j < i ==> (#[trigger] outcomes[j]) is Ok
}

/// The values of outcomes that are all successes.
pub open spec fn ok_values<T>(outcomes: Seq<Result<T, TransferError>>) -> Seq<T> {
    Seq::new(outcomes.len(), |i: int| outcomes[i]->Ok_0)
}

/// `e` is the first failure among the outcomes.
pub open spec fn is_first_failure<T>(outcomes: Seq<Result<T, TransferError>>, e: TransferError) -> bool {
    exists|i: int|
        0 <= i < outcomes.len() && #[trigger] outcomes[i] == Err::<T, TransferError>(e)
            && all_ok_before(outcomes, i)
}

/// Builds the result of one page from the outcomes of transforming its
/// records. A page is delivered whole or not at all: if every record gave
/// a row, the result holds all rows in the order of the records; otherwise
/// the first failure is returned and no rows.
pub fn assemble_page(page: u64, outcomes: Vec<Result<Vec<String>, TransferError>>) -> (result: Result<
    PageResult,
    TransferError,
>)
    ensures
        match result {
            Ok(delivered) => {
                &&& all_ok_before(outcomes@, outcomes@.len() as int)
                &&& delivered.page == page
                &&& delivered.rows@ == ok_values(outcomes@)
            },
            Err(e) => is_first_failure(outcomes@, e),
        },
{
    let mut rows: Vec<Vec<String>> = Vec::new();
    let ghost all = outcomes@;
    for outcome in iter: outcomes
        invariant
            iter.seq() == all,
            rows@.len() == iter.index(),
            all_ok_before(all, iter.index() as int),
            forall|j: int| 0 <= j < iter.index() ==> #[trigger] rows@[j] == all[j]->Ok_0,
    {
        match outcome {
            Ok(row) => {
                rows.push(row);
            },
            Err(e) => {
                return Err(e);
            },
        }
    }
    assert(rows@ =~= ok_values(all));
    Ok(PageResult { page, rows })
}

/// The overall outcome of a transfer: the first failure among the page
/// workers, in page order; if none failed, the outcome of the sequencer.
/// One failed page fails the whole transfer.
pub fn overall_outcome(
    workers: &Vec<Result<(), TransferError>>,
    sequencer: Result<(), TransferError>,
) -> (result: Result<(), TransferError>)
    ensures
        match result {
            Ok(_) => all_ok_before(workers@, workers@.len() as int) && sequencer is Ok,
            Err(e) => is_first_failure(workers@, e) || (all_ok_before(
                workers@,
                workers@.len() as int,
            ) && sequencer == Err::<(), TransferError>(e)),
        },
{
    let n: usize = workers.len();
    let mut i: usize = 0;
    while i < n
        invariant
            n == workers@.len(),
            i <= n,
            all_ok_before(workers@, i as int),
        decreases n - i,
    {
        match workers[i] {
            Ok(_) => {},
            Err(e) => {
                return Err(e);
            },
        }
        i = i + 1;
    }
    sequencer
}

/// Position of the first page that the sequencer refuses, if there is one.
pub open spec fn is_first_refusal(arrivals: Seq<PageResult>, i: int) -> bool {
    &&& 0 <= i < arrivals.len()
    &&& all_accepted(SequencerState::initial(), arrivals.take(i))
    &&& !state_after(SequencerState::initial(), arrivals.take(i)).accepts(arrivals[i])
}

/// Everything the sink receives for pages that arrive in the given order:
/// the header row once, at the front, then the rows that the sequencer
/// releases, arrival after arrival. With no pages at all the header is the
/// only row. Fails at the first page that the sequencer refuses, with that
/// page's error.
pub fn sequence_rows(header: Vec<String>, arrivals: Vec<PageResult>) -> (result: Result<
    Vec<Vec<String>>,
    SequencerError,
>)
    ensures
        match result {
            Ok(rows) => {
                &&& all_accepted(SequencerState::initial(), arrivals@)
                &&& rows@ == seq![header] + rows_after(SequencerState::initial(), arrivals@)
            },
            Err(e) => exists|i: int| #[trigger]
                is_first_refusal(arrivals@, i) && e == state_after(
                    SequencerState::initial(),
                    arrivals@.take(i),
                ).rejection(arrivals@[i]),
        },
{
    let ghost all = arrivals@;
    let ghost init = SequencerState::initial();
    let mut sequencer = Sequencer::new();
    let mut out: Vec<Vec<String>> = Vec::new();
    out.push(header);
    proof {
        assert(all.take(0) =~= Seq::<PageResult>::empty());
        assert(out@ =~= seq![header] + rows_after(init, all.take(0)));
    }
    for msg in iter: arrivals
        invariant
            iter.seq() == all,
            init == SequencerState::initial(),
            sequencer@.wf(),
            sequencer@ == state_after(init, all.take(iter.index() as int)),
            out@ == seq![header] + rows_after(init, all.take(iter.index() as int)),
            all_accepted(init, all.take(iter.index() as int)),
    {
        let ghost i = iter.index() as int;
        let ghost emitted_before = rows_after(init, all.take(i));
        proof {
            assert(all.take(i + 1).drop_last() =~= all.take(i));
            assert(all.take(i + 1).last() == all[i]);
        }
        match sequencer.receive(msg) {
            Ok(mut rows) => {
                proof {
                    assert forall|j: int| 0 <= j < i + 1 implies (#[trigger] state_after(
                        init,
                        all.take(i + 1).take(j),
                    )).accepts(all.take(i + 1)[j]) by {
                        assert(all.take(i + 1).take(j) =~= all.take(j));
                        if j < i {
                            assert(all.take(i).take(j) =~= all.take(j));
                            assert(state_after(init, all.take(i).take(j)).accepts(all.take(i)[j]));
                        }
                    }
                    assert((seq![header] + emitted_before) + rows@ =~= seq![header] + (
                    emitted_before + rows@));
                }
                out.append(&mut rows);
            },
            Err(e) => {
                proof {
                    assert(is_first_refusal(all, i));
                }
                return Err(e);
            },
        }
    }
    proof {
        assert(all.take(all.len() as int) =~= all);
    }
    Ok(out)
}

} // verus!
