use crate::sequencer::{drained_through, keep_above, rows_between, PageResult, Pending, SequencerState};
use crate::plan::{lemma_page_count_bounds, lemma_plan_covers_total, planned_rows, spec_page, spec_page_count, spec_plan};
use vstd::prelude::*;

verus! {

/// State reached from `s` once the pages `msgs` have arrived in that
/// order; a refused page changes nothing.
pub open spec fn state_after(s: SequencerState, msgs: Seq<PageResult>) -> SequencerState
    decreases msgs.len(),
{
    if msgs.len() == 0 {
        s
    } else {
        let prev = state_after(s, msgs.drop_last());
        if prev.accepts(msgs.last()) {
            prev.after(msgs.last())
        } else {
            prev
        }
    }
}

/// All rows handed to the sink while the pages `msgs` arrive in that order.
pub open spec fn rows_after(s: SequencerState, msgs: Seq<PageResult>) -> Seq<Vec<String>>
    decreases msgs.len(),
{
    if msgs.len() == 0 {
        Seq::empty()
    } else {
        let prev = state_after(s, msgs.drop_last());
        if prev.accepts(msgs.last()) {
            rows_after(s, msgs.drop_last()) + prev.emitted(msgs.last())
        } else {
            rows_after(s, msgs.drop_last())
        }
    }
}

/// Every page of `msgs` is accepted when it arrives.
pub open spec fn all_accepted(s: SequencerState, msgs: Seq<PageResult>) -> bool {
    forall|i: int|
        0 <= i < msgs.len() ==> (#[trigger] state_after(s, msgs.take(i))).accepts(msgs[i])
}

/// The rows of all pages, page after page.
pub open spec fn in_page_order(pages: Seq<Vec<Vec<String>>>) -> Seq<Vec<String>>
    decreases pages.len(),
{
    if pages.len() == 0 {
        Seq::empty()
    } else {
        in_page_order(pages.drop_last()) + pages.last()@
    }
}

/// `order` lists each index below `n` exactly once.
pub open spec fn is_permutation(order: Seq<int>, n: nat) -> bool {
    &&& order.len() == n
    &&& forall|i: int| 0 <= i < n ==> 0 <= #[trigger] order[i] < n
    &&& forall|i: int, j: int| 0 <= i < j < n ==> order[i] != order[j]
    &&& forall|p: int| 1 <= p <= n ==> #[trigger] arrived(order, n as int, p)
}

/// The pages as they arrive: the `k`-th arrival is page `order[k] + 1`,
/// with the rows `pages[order[k]]`.
pub open spec fn arrivals(pages: Seq<Vec<Vec<String>>>, order: Seq<int>) -> Seq<PageResult> {
    Seq::new(
        order.len(),
        |k: int| (PageResult { page: (order[k] + 1) as u64, rows: pages[order[k]] }),
    )
}

/// Page `p` is among the first `k` arrivals.
pub open spec fn arrived(order: Seq<int>, k: int, p: int) -> bool {
    exists|i: int| 0 <= i < k && #[trigger] order[i] + 1 == p
}

/// `drained_through` stops at the first gap: every page up to its result
/// is buffered, and the page after it is not.
pub proof fn lemma_drained_through(pending: Pending, written: nat)
    requires
        written <= u64::MAX,
    ensures
        written <= drained_through(pending, written) <= u64::MAX,
        forall|j: u64|
            written < j <= drained_through(pending, written) ==> #[trigger] pending.contains_key(j),
        drained_through(pending, written) < u64::MAX ==> !pending.contains_key(
            (drained_through(pending, written) + 1) as u64,
        ),
    decreases u64::MAX - written,
{
    if written < u64::MAX && pending.contains_key((written + 1) as u64) {
        lemma_drained_through(pending, written + 1);
    }
}

/// Each accepted page is afterwards either written or buffered: the sum
/// of both counts grows by exactly one.
pub proof fn lemma_accepted_page_is_counted(s: SequencerState, msg: PageResult)
    requires
        s.wf(),
        s.accepts(msg),
    ensures
        s.after(msg).wf(),
        s.after(msg).pending.len() + s.after(msg).written == s.pending.len() + s.written + 1,
{
    let offered = s.offered(msg);
    lemma_drained_through(offered, s.written);
    lemma_keep_above_len(offered, s.written);
    assert(keep_above(offered, s.written) =~= offered);
    lemma_keep_above_finite(offered, s.written_after(msg));
}

proof fn lemma_keep_above_finite(pending: Pending, written: nat)
    requires
        pending.dom().finite(),
    ensures
        keep_above(pending, written).dom().finite(),
        keep_above(pending, written).len() <= pending.len(),
{
    vstd::set_lib::lemma_len_subset(keep_above(pending, written).dom(), pending.dom());
}

proof fn lemma_keep_above_len(pending: Pending, written: nat)
    requires
        pending.dom().finite(),
        written <= u64::MAX,
    ensures
        keep_above(pending, drained_through(pending, written)).len() + drained_through(
            pending,
            written,
        ) == keep_above(pending, written).len() + written,
    decreases u64::MAX - written,
{
    if written < u64::MAX && pending.contains_key((written + 1) as u64) {
        lemma_keep_above_len(pending, written + 1);
        lemma_keep_above_finite(pending, written);
        assert(keep_above(pending, written + 1) =~= keep_above(pending, written).remove(
            (written + 1) as u64,
        ));
    }
}

/// The buffer holds exactly the pages that were accepted and are not yet
/// written: never more than the number of pages that have arrived less
/// the number written, and exactly as many where none was refused.
pub proof fn lemma_buffer_is_bounded(msgs: Seq<PageResult>)
    ensures
        state_after(SequencerState::initial(), msgs).wf(),
        state_after(SequencerState::initial(), msgs).pending.len() + state_after(
            SequencerState::initial(),
            msgs,
        ).written <= msgs.len(),
        all_accepted(SequencerState::initial(), msgs) ==> state_after(
            SequencerState::initial(),
            msgs,
        ).pending.len() + state_after(SequencerState::initial(), msgs).written == msgs.len(),
    decreases msgs.len(),
{
    let init = SequencerState::initial();
    if msgs.len() > 0 {
        let head = msgs.drop_last();
        lemma_buffer_is_bounded(head);
        if state_after(init, head).accepts(msgs.last()) {
            lemma_accepted_page_is_counted(state_after(init, head), msgs.last());
        }
        if all_accepted(init, msgs) {
            assert forall|i: int| 0 <= i < head.len() implies (#[trigger] state_after(
                init,
                head.take(i),
            )).accepts(head[i]) by {
                assert(head.take(i) =~= msgs.take(i));
            }
            assert(msgs.take(msgs.len() - 1) =~= head);
            assert(state_after(init, msgs.take(msgs.len() - 1)).accepts(msgs[msgs.len() - 1]));
        }
    }
}

proof fn lemma_rows_in_page_order(
    pages: Seq<Vec<Vec<String>>>,
    pending: Pending,
    lo: nat,
    hi: nat,
)
    requires
        lo <= hi <= pages.len(),
        hi <= u64::MAX,
        forall|j: u64| lo < j <= hi ==> #[trigger] pending[j] == pages[j - 1],
    ensures
        in_page_order(pages.take(lo as int)) + rows_between(pending, lo, hi) == in_page_order(
            pages.take(hi as int),
        ),
    decreases hi,
{
    if hi <= lo {
        assert(in_page_order(pages.take(lo as int)) + Seq::<Vec<String>>::empty()
            =~= in_page_order(pages.take(lo as int)));
    } else {
        lemma_rows_in_page_order(pages, pending, lo, (hi - 1) as nat);
        assert(pages.take(hi as int).drop_last() =~= pages.take(hi - 1));
        assert(pages.take(hi as int).last() == pages[hi - 1]);
        assert(pending[hi as u64] == pages[hi - 1]);
        assert(in_page_order(pages.take(lo as int)) + (rows_between(
            pending,
            lo,
            (hi - 1) as nat,
        ) + pending[hi as u64]@) =~= (in_page_order(pages.take(lo as int)) + rows_between(
            pending,
            lo,
            (hi - 1) as nat,
        )) + pending[hi as u64]@);
    }
}

/// Page `p` is among the first `k` pages of `msgs`.
pub open spec fn arrived_in(msgs: Seq<PageResult>, k: int, p: int) -> bool {
    exists|i: int| 0 <= i < k && (#[trigger] msgs[i]).page == p
}

/// Every page of `msgs` is one of `pages` and carries its rows: page
/// `i + 1` has the rows `pages[i]`.
pub open spec fn from_source(pages: Seq<Vec<Vec<String>>>, msgs: Seq<PageResult>) -> bool {
    forall|i: int|
        0 <= i < msgs.len() ==> 1 <= (#[trigger] msgs[i]).page <= pages.len() && msgs[i].rows
            == pages[msgs[i].page - 1]
}

/// What holds after the first `k` arrivals: the pages up to `written`
/// have all arrived and their rows are out, in page order; the buffer
/// holds the later pages that have arrived.
spec fn prefix_holds(pages: Seq<Vec<Vec<String>>>, msgs: Seq<PageResult>, k: int) -> bool {
    let s = state_after(SequencerState::initial(), msgs.take(k));
    &&& s.wf()
    &&& s.written <= pages.len()
    &&& forall|p: int| 1 <= p <= s.written ==> #[trigger] arrived_in(msgs, k, p)
    &&& forall|q: u64| #[trigger]
        s.pending.contains_key(q) <==> (q > s.written && arrived_in(msgs, k, q as int))
    &&& forall|q: u64| #[trigger] s.pending.contains_key(q) ==> s.pending[q] == pages[q - 1]
    &&& rows_after(SequencerState::initial(), msgs.take(k)) == in_page_order(
        pages.take(s.written as int),
    )
}

proof fn lemma_prefix(pages: Seq<Vec<Vec<String>>>, msgs: Seq<PageResult>, k: int)
    requires
        pages.len() <= u64::MAX,
        from_source(pages, msgs),
        0 <= k <= msgs.len(),
    ensures
        prefix_holds(pages, msgs, k),
    decreases k,
{
    let init = SequencerState::initial();
    if k == 0 {
        assert(msgs.take(0) =~= Seq::<PageResult>::empty());
        assert(pages.take(0) =~= Seq::<Vec<Vec<String>>>::empty());
    } else {
        lemma_prefix(pages, msgs, k - 1);
        let msg = msgs[k - 1];
        let s = state_after(init, msgs.take(k - 1));
        assert(msgs.take(k).drop_last() =~= msgs.take(k - 1));
        assert(msgs.take(k).last() == msg);
        let p = msg.page;
        assert forall|q: int| arrived_in(msgs, k, q) <==> (arrived_in(msgs, k - 1, q) || q == p) by {
            if arrived_in(msgs, k - 1, q) {
                let i = choose|i: int| 0 <= i < k - 1 && (#[trigger] msgs[i]).page == q;
                assert(0 <= i < k && msgs[i].page == q);
            }
            if q == p {
                assert(0 <= k - 1 < k && msgs[k - 1].page == q);
            }
            if arrived_in(msgs, k, q) {
                let i = choose|i: int| 0 <= i < k && (#[trigger] msgs[i]).page == q;
                if i < k - 1 {
                    assert(0 <= i < k - 1 && msgs[i].page == q);
                }
            }
        }
        if s.accepts(msg) {
            let offered = s.offered(msg);
            let w = s.written_after(msg);
            let t = s.after(msg);
            assert(state_after(init, msgs.take(k)) == t);
            lemma_drained_through(offered, s.written);
            lemma_accepted_page_is_counted(s, msg);
            assert forall|q: int| 1 <= q <= t.written implies #[trigger] arrived_in(msgs, k, q) by {
                if q > s.written {
                    assert(offered.contains_key(q as u64));
                }
            }
            assert(t.written <= pages.len()) by {
                if t.written > s.written {
                    assert(offered.contains_key(t.written as u64));
                    assert(arrived_in(msgs, k, t.written as int));
                    let i = choose|i: int| 0 <= i < k && (#[trigger] msgs[i]).page == t.written;
                    assert(msgs[i].page <= pages.len());
                }
            }
            assert forall|q: u64| #[trigger]
                t.pending.contains_key(q) implies t.pending[q] == pages[q - 1] by {
                if q != p {
                    assert(s.pending.contains_key(q));
                }
            }
            assert forall|j: u64| s.written < j <= w implies #[trigger] offered[j] == pages[j
                - 1] by {
                assert(offered.contains_key(j));
                if j != p {
                    assert(s.pending.contains_key(j));
                }
            }
            lemma_rows_in_page_order(pages, offered, s.written, w);
        } else {
            assert(state_after(init, msgs.take(k)) == s);
        }
    }
}

/// Whatever arrives, in whatever order, with pages missing or sent twice:
/// what has been handed to the sink is always the rows of the pages
/// `1..=written`, page after page, where `written` is the length of the
/// unbroken run of pages that have arrived. The sink never sees a row out
/// of order, and never a row of a page behind a missing one.
pub proof fn lemma_output_is_ordered_prefix(pages: Seq<Vec<Vec<String>>>, msgs: Seq<PageResult>)
    requires
        pages.len() <= u64::MAX,
        from_source(pages, msgs),
    ensures
        state_after(SequencerState::initial(), msgs).wf(),
        state_after(SequencerState::initial(), msgs).written <= pages.len(),
        rows_after(SequencerState::initial(), msgs) == in_page_order(
            pages.take(state_after(SequencerState::initial(), msgs).written as int),
        ),
        forall|p: int|
            1 <= p <= state_after(SequencerState::initial(), msgs).written ==> #[trigger] arrived_in(
                msgs,
                msgs.len() as int,
                p,
            ),
        !arrived_in(
            msgs,
            msgs.len() as int,
            (state_after(SequencerState::initial(), msgs).written + 1) as int,
        ),
{
    let s = state_after(SequencerState::initial(), msgs);
    lemma_prefix(pages, msgs, msgs.len() as int);
    assert(msgs.take(msgs.len() as int) =~= msgs);
    if arrived_in(msgs, msgs.len() as int, (s.written + 1) as int) {
        let i = choose|i: int| 0 <= i < msgs.len() && (#[trigger] msgs[i]).page == s.written + 1;
        assert(s.pending.contains_key(msgs[i].page));
    }
}

/// Whatever the order in which the pages `1..=n` arrive, every one of them
/// is accepted, the rows come out page after page exactly as if the pages
/// had arrived in ascending order, and in the end all `n` pages are
/// written and the buffer is empty.
pub proof fn lemma_any_arrival_order(pages: Seq<Vec<Vec<String>>>, order: Seq<int>)
    requires
        pages.len() <= u64::MAX,
        is_permutation(order, pages.len()),
    ensures
        all_accepted(SequencerState::initial(), arrivals(pages, order)),
        rows_after(SequencerState::initial(), arrivals(pages, order)) == in_page_order(pages),
        state_after(SequencerState::initial(), arrivals(pages, order)).written == pages.len(),
        state_after(SequencerState::initial(), arrivals(pages, order)).pending == Map::<
            u64,
            Vec<Vec<String>>,
        >::empty(),
{
    let n = pages.len() as int;
    let init = SequencerState::initial();
    let all = arrivals(pages, order);
    let s = state_after(init, all);
    assert(from_source(pages, all));
    assert forall|i: int| 0 <= i < n implies (#[trigger] state_after(init, all.take(i))).accepts(
        all[i],
    ) by {
        lemma_prefix(pages, all, i);
        let p = all[i].page;
        if arrived_in(all, i, p as int) {
            let j = choose|j: int| 0 <= j < i && (#[trigger] all[j]).page == p;
            assert(order[j] == order[i]);
        }
    }
    lemma_prefix(pages, all, n);
    assert(all.take(n) =~= all);
    if s.written < n {
        assert(arrived(order, n, (s.written + 1) as int));
        let i = choose|i: int| 0 <= i < n && #[trigger] order[i] + 1 == s.written + 1;
        assert(all[i].page == s.written + 1);
        assert(arrived_in(all, n, (s.written + 1) as int));
        assert(s.pending.contains_key((s.written + 1) as u64));
    }
    assert(pages.take(s.written as int) =~= pages);
    assert forall|q: u64| !s.pending.contains_key(q) by {
        if s.pending.contains_key(q) {
            assert(arrived_in(all, n, q as int));
            let i = choose|i: int| 0 <= i < n && (#[trigger] all[i]).page == q;
            assert(all[i].page <= n);
        }
    }
    assert(s.pending =~= Map::<u64, Vec<Vec<String>>>::empty());
}

proof fn lemma_row_count(pages: Seq<Vec<Vec<String>>>, plan: Seq<crate::plan::Page>, k: int)
    requires
        pages.len() == plan.len(),
        0 <= k <= pages.len(),
        forall|i: int| 0 <= i < pages.len() ==> (#[trigger] pages[i])@.len() == plan[i].len,
    ensures
        in_page_order(pages.take(k)).len() == planned_rows(plan.take(k)),
    decreases k,
{
    if k > 0 {
        lemma_row_count(pages, plan, k - 1);
        assert(pages.take(k).drop_last() =~= pages.take(k - 1));
        assert(plan.take(k).drop_last() =~= plan.take(k - 1));
        assert(pages.take(k).last() == pages[k - 1]);
    }
}

/// A transfer without failures is complete: when `total` records are cut
/// into pages of `size` and every page delivers as many rows as it has
/// records, then the rows that come out are `total` in number, whatever
/// the order in which the pages arrive.
pub proof fn lemma_every_record_is_emitted(
    total: u64,
    size: u64,
    pages: Seq<Vec<Vec<String>>>,
    order: Seq<int>,
)
    requires
        size >= 1,
        pages.len() == spec_page_count(total as int, size as int),
        forall|i: int|
            0 <= i < pages.len() ==> (#[trigger] pages[i])@.len() == spec_page(
                total as int,
                size as int,
                i + 1,
            ).len,
        is_permutation(order, pages.len()),
    ensures
        rows_after(SequencerState::initial(), arrivals(pages, order)).len() == total,
{
    lemma_page_count_bounds(total as int, size as int);
    lemma_plan_covers_total(total, size);
    lemma_any_arrival_order(pages, order);
    let plan = spec_plan(total as int, size as int);
    lemma_row_count(pages, plan, pages.len() as int);
    assert(pages.take(pages.len() as int) =~= pages);
    assert(plan.take(plan.len() as int) =~= plan);
}

} // verus!
