use sw_sync::plan::{effective_page_size, page_count, plan_pages, Page, PlanError, MAX_PAGE_SIZE};
use sw_sync::transfer::{assemble_page, overall_outcome, TransferError};

#[test]
fn page_size_is_the_smallest_of_maximum_limit_and_total() {
    assert_eq!(MAX_PAGE_SIZE, 500);
    assert_eq!(effective_page_size(None, 1200), 500);
    assert_eq!(effective_page_size(Some(100), 1200), 100);
    assert_eq!(effective_page_size(Some(700), 1200), 500);
    assert_eq!(effective_page_size(None, 42), 42);
    assert_eq!(effective_page_size(Some(100), 42), 42);
    assert_eq!(effective_page_size(Some(0), 42), 0);
    assert_eq!(effective_page_size(None, 0), 0);
}

#[test]
fn page_count_rounds_up() {
    assert_eq!(page_count(1200, 500), 3);
    assert_eq!(page_count(1000, 500), 2);
    assert_eq!(page_count(1001, 500), 3);
    assert_eq!(page_count(1, 500), 1);
    assert_eq!(page_count(0, 500), 0);
    assert_eq!(page_count(u64::MAX, 1), u64::MAX);
    assert_eq!(page_count(u64::MAX, u64::MAX), 1);
}

#[test]
fn twelve_hundred_records_make_three_pages() {
    let pages = plan_pages(1200, None).unwrap();
    assert_eq!(
        pages,
        vec![
            Page { number: 1, offset: 0, len: 500 },
            Page { number: 2, offset: 500, len: 500 },
            Page { number: 3, offset: 1000, len: 200 },
        ]
    );
}

#[test]
fn plan_covers_every_record_once() {
    for total in [0u64, 1, 7, 499, 500, 501, 999, 1000, 1001, 1200, 2500] {
        for limit in [None, Some(1u64), Some(7), Some(500), Some(9999)] {
            if total > 200 && limit == Some(1) {
                continue;
            }
            let size = effective_page_size(limit, total);
            let pages = plan_pages(total, limit).unwrap();
            if total > 0 {
                assert_eq!(pages.len() as u64, (total + size - 1) / size);
                assert_eq!(pages.len() as u64, page_count(total, size));
            } else {
                assert!(pages.is_empty());
            }
            let mut offset = 0u64;
            for (i, p) in pages.iter().enumerate() {
                assert_eq!(p.number, i as u64 + 1);
                assert_eq!(p.offset, offset);
                assert!(p.len >= 1 && p.len <= size);
                if i + 1 < pages.len() {
                    assert_eq!(p.len, size);
                }
                offset += p.len;
            }
            assert_eq!(offset, total);
        }
    }
}

#[test]
fn no_records_need_no_pages() {
    assert_eq!(plan_pages(0, None), Ok(vec![]));
    assert_eq!(plan_pages(0, Some(0)), Ok(vec![]));
    assert_eq!(plan_pages(0, Some(10)), Ok(vec![]));
}

#[test]
fn zero_limit_with_records_is_refused() {
    assert_eq!(plan_pages(5, Some(0)), Err(PlanError::ZeroPageSize));
}

#[test]
fn limit_caps_the_page_size_not_the_total() {
    let pages = plan_pages(5, Some(2)).unwrap();
    assert_eq!(
        pages,
        vec![
            Page { number: 1, offset: 0, len: 2 },
            Page { number: 2, offset: 2, len: 2 },
            Page { number: 3, offset: 4, len: 1 },
        ]
    );
}

#[test]
fn page_is_delivered_whole() {
    let outcomes = vec![Ok(vec!["a".to_string()]), Ok(vec!["b".to_string()])];
    let delivered = assemble_page(7, outcomes).unwrap();
    assert_eq!(delivered.page, 7);
    assert_eq!(delivered.rows, vec![vec!["a".to_string()], vec!["b".to_string()]]);
    let empty = assemble_page(1, vec![]).unwrap();
    assert_eq!(empty.page, 1);
    assert!(empty.rows.is_empty());
}

#[test]
fn page_with_a_failed_record_delivers_nothing() {
    let outcomes = vec![
        Ok(vec!["a".to_string()]),
        Err(TransferError::Transform { page: 7 }),
        Ok(vec!["c".to_string()]),
        Err(TransferError::Remote { page: 7 }),
    ];
    assert_eq!(assemble_page(7, outcomes).err(), Some(TransferError::Transform { page: 7 }));
}

#[test]
fn one_failed_page_fails_the_transfer() {
    let workers = vec![Ok(()), Ok(()), Err(TransferError::Remote { page: 3 }), Ok(()), Ok(())];
    assert_eq!(overall_outcome(&workers, Ok(())), Err(TransferError::Remote { page: 3 }));
    assert_eq!(
        overall_outcome(&workers, Err(TransferError::Sink)),
        Err(TransferError::Remote { page: 3 })
    );
}

#[test]
fn first_failure_in_page_order_is_reported() {
    let workers = vec![
        Ok(()),
        Err(TransferError::Transform { page: 2 }),
        Err(TransferError::Remote { page: 3 }),
        Err(TransferError::Coordination),
    ];
    assert_eq!(overall_outcome(&workers, Ok(())), Err(TransferError::Transform { page: 2 }));
}

#[test]
fn sequencer_failure_fails_the_transfer() {
    let workers = vec![Ok(()), Ok(())];
    assert_eq!(overall_outcome(&workers, Err(TransferError::Sink)), Err(TransferError::Sink));
    assert_eq!(overall_outcome(&vec![], Err(TransferError::Coordination)), Err(TransferError::Coordination));
}

#[test]
fn transfer_succeeds_when_nothing_failed() {
    assert_eq!(overall_outcome(&vec![Ok(()), Ok(()), Ok(())], Ok(())), Ok(()));
    assert_eq!(overall_outcome(&vec![], Ok(())), Ok(()));
}
