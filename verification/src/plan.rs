use vstd::prelude::*;

verus! {

/// Largest page size the remote service accepts.
pub const MAX_PAGE_SIZE: u64 = 500;

/// One unit of concurrent work: a contiguous range of records.
#[derive(Debug, Clone, Copy, PartialEq, Eq, Structural)]
pub struct Page {
    /// 1-based sequence number, in emission order.
    pub number: u64,
    /// Number of records that lie before this page.
    pub offset: u64,
    /// Number of records in this page.
    pub len: u64,
}

/// Why no plan could be made.
#[derive(Debug, Clone, Copy, PartialEq, Eq, Structural)]
pub enum PlanError {
    /// There are records to transfer, but the configured limit allows none
    /// per page.
    ZeroPageSize,
}

/// The smaller of two numbers.
pub open spec fn spec_min(a: int, b: int) -> int {
    if a <= b {
        a
    } else {
        b
    }
}

/// Page size used for a transfer: the service maximum, capped by the
/// configured limit (if any) and by the total number of records.
pub open spec fn spec_effective_page_size(limit: Option<u64>, total: u64) -> int {
    let cap: int = match limit {
        Some(l) => spec_min(MAX_PAGE_SIZE as int, l as int),
        None => MAX_PAGE_SIZE as int,
    };
    spec_min(cap, total as int)
}

/// Number of pages needed for `total` records: `total / size`, rounded up.
pub open spec fn spec_page_count(total: int, size: int) -> int {
    if size <= 0 {
        0
    } else {
        (total + size - 1) / size
    }
}

/// The page with the given 1-based number: full-sized unless it is the
/// last one, which holds what is left.
pub open spec fn spec_page(total: int, size: int, number: int) -> Page {
    Page {
        number: number as u64,
        offset: ((number - 1) * size) as u64,
        len: spec_min(size, total - (number - 1) * size) as u64,
    }
}

/// All pages of a transfer, in ascending order.
pub open spec fn spec_plan(total: int, size: int) -> Seq<Page> {
    Seq::new(spec_page_count(total, size) as nat, |i: int| spec_page(total, size, i + 1))
}

/// Number of records that the pages cover together.
pub open spec fn planned_rows(pages: Seq<Page>) -> int
    decreases pages.len(),
{
    if pages.len() == 0 {
        0
    } else {
        planned_rows(pages.drop_last()) + pages.last().len
    }
}

/// The page size of a transfer of `total` records under the configured
/// limit. It is 0 only where there are no records or the limit is 0.
pub fn effective_page_size(limit: Option<u64>, total: u64) -> (size: u64)
    ensures
        size == spec_effective_page_size(limit, total),
        size <= MAX_PAGE_SIZE,
        size <= total,
{
    let cap: u64 = match limit {
        Some(l) => if l < MAX_PAGE_SIZE {
            l
        } else {
            MAX_PAGE_SIZE
        },
        None => MAX_PAGE_SIZE,
    };
    if cap < total {
        cap
    } else {
        total
    }
}

proof fn lemma_count_step(done: int, rest: int, size: int)
    requires
        size >= 1,
        done >= 0,
        1 <= rest <= size,
    ensures
        spec_page_count(done * size, size) == done,
        spec_page_count(done * size + rest, size) == done + 1,
        (done + 1) * size == done * size + size,
{
    assert((done + 1) * size == done * size + size) by (nonlinear_arith);
    vstd::arithmetic::div_mod::lemma_fundamental_div_mod_converse(
        done * size + rest + size - 1,
        size,
        done + 1,
        rest - 1,
    );
    if done == 0 {
        assert(done * size == 0) by (nonlinear_arith)
            requires
                done == 0,
        ;
        vstd::arithmetic::div_mod::lemma_fundamental_div_mod_converse(size - 1, size, 0, size - 1);
    } else {
        assert(done * size + size - 1 == (done - 1) * size + size + size - 1) by (nonlinear_arith);
        vstd::arithmetic::div_mod::lemma_fundamental_div_mod_converse(
            done * size + size - 1,
            size,
            done,
            size - 1,
        );
    }
}

/// Number of pages for `total` records in pages of `page_size`.
pub fn page_count(total: u64, page_size: u64) -> (count: u64)
    requires
        page_size >= 1,
    ensures
        count == spec_page_count(total as int, page_size as int),
{
    let full: u64 = total / page_size;
    let rest: u64 = total % page_size;
    proof {
        vstd::arithmetic::div_mod::lemma_fundamental_div_mod(total as int, page_size as int);
        assert(page_size * full == full * page_size) by (nonlinear_arith);
        assert(full <= full * page_size) by (nonlinear_arith)
            requires
                page_size >= 1,
                full >= 0,
        ;
        if rest == 0 {
            lemma_count_step(full as int, 1, page_size as int);
        } else {
            lemma_count_step(full as int, rest as int, page_size as int);
        }
    }
    if rest == 0 {
        full
    } else {
        full + 1
    }
}

/// Splits `total` records into consecutive pages of the effective page
/// size, numbered from 1; only the last page may be shorter. No records
/// give no pages. Fails exactly when there are records but the limit
/// allows none per page.
pub fn plan_pages(total: u64, limit: Option<u64>) -> (result: Result<Vec<Page>, PlanError>)
    ensures
        match result {
            Ok(pages) => {
                &&& total == 0 || spec_effective_page_size(limit, total) >= 1
                &&& pages@ == spec_plan(total as int, spec_effective_page_size(limit, total))
                &&& planned_rows(pages@) == total
            },
            Err(e) => e == PlanError::ZeroPageSize && total > 0 && limit == Some(0u64),
        },
{
    let size: u64 = effective_page_size(limit, total);
    let mut pages: Vec<Page> = Vec::new();
    if total == 0 {
        proof {
            if size >= 1 {
                lemma_count_step(0, 1, size as int);
            }
            assert(pages@ =~= spec_plan(total as int, size as int));
        }
        return Ok(pages);
    }
    if size == 0 {
        return Err(PlanError::ZeroPageSize);
    }
    let mut counter: u64 = 0;
    let mut done: u64 = 0;
    proof {
        lemma_count_step(0, 1, size as int);
    }
    while counter < total
        invariant
            size >= 1,
            counter <= total,
            done <= counter,
            counter < total ==> counter == done * size,
            done == spec_page_count(counter as int, size as int),
            pages@.len() == done,
            forall|i: int|
                0 <= i < done ==> #[trigger] pages@[i] == spec_page(
                    total as int,
                    size as int,
                    i + 1,
                ),
            planned_rows(pages@) == counter,
        decreases total - counter,
    {
        let left: u64 = total - counter;
        let len: u64 = if left < size {
            left
        } else {
            size
        };
        let page = Page { number: done + 1, offset: counter, len };
        proof {
            lemma_count_step(done as int, len as int, size as int);
            assert(pages@.push(page).drop_last() =~= pages@);
        }
        pages.push(page);
        counter = counter + len;
        done = done + 1;
    }
    proof {
        assert(pages@ =~= spec_plan(total as int, size as int));
    }
    Ok(pages)
}

/// The page count is the least number of pages of `size` that hold `total`
/// records.
pub proof fn lemma_page_count_bounds(total: int, size: int)
    requires
        total >= 0,
        size >= 1,
    ensures
        0 <= spec_page_count(total, size) <= total,
        spec_page_count(total, size) * size >= total,
        total > 0 ==> (spec_page_count(total, size) - 1) * size < total,
{
    let c = spec_page_count(total, size);
    vstd::arithmetic::div_mod::lemma_fundamental_div_mod(total + size - 1, size);
    vstd::arithmetic::div_mod::lemma_mod_bound(total + size - 1, size);
    assert(size * c == c * size) by (nonlinear_arith);
    assert((c - 1) * size == c * size - size) by (nonlinear_arith);
    if total == 0 {
        vstd::arithmetic::div_mod::lemma_fundamental_div_mod_converse(size - 1, size, 0, size - 1);
    } else {
        assert(c >= 1) by (nonlinear_arith)
            requires
                c * size >= total,
                total > 0,
                size >= 1,
        ;
        assert(c - 1 <= (c - 1) * size) by (nonlinear_arith)
            requires
                c >= 1,
                size >= 1,
        ;
    }
}

proof fn lemma_plan_prefix(total: u64, size: u64, k: int)
    requires
        size >= 1,
        0 <= k <= spec_page_count(total as int, size as int),
    ensures
        planned_rows(spec_plan(total as int, size as int).take(k)) == spec_min(k * size, total as int),
    decreases k,
{
    let plan = spec_plan(total as int, size as int);
    lemma_page_count_bounds(total as int, size as int);
    if k == 0 {
        assert(k * size == 0) by (nonlinear_arith)
            requires
                k == 0,
        ;
    } else {
        lemma_plan_prefix(total, size, k - 1);
        assert(plan.take(k).drop_last() =~= plan.take(k - 1));
        assert(plan.take(k).last() == spec_page(total as int, size as int, k));
        let c = spec_page_count(total as int, size as int);
        assert((k - 1) * size <= (c - 1) * size) by (nonlinear_arith)
            requires
                k <= c,
                size >= 1,
        ;
        assert(k * size == (k - 1) * size + size) by (nonlinear_arith);
    }
}

/// Completeness of a plan: it has `total / size` pages, rounded up, and
/// the pages together cover every record exactly once.
pub proof fn lemma_plan_covers_total(total: u64, size: u64)
    requires
        size >= 1,
    ensures
        spec_plan(total as int, size as int).len() == spec_page_count(total as int, size as int),
        planned_rows(spec_plan(total as int, size as int)) == total,
{
    let plan = spec_plan(total as int, size as int);
    lemma_page_count_bounds(total as int, size as int);
    lemma_plan_prefix(total, size, plan.len() as int);
    assert(plan.take(plan.len() as int) =~= plan);
}

} // verus!
