use sw_sync::sequencer::{PageResult, Sequencer, SequencerError};
use sw_sync::transfer::sequence_rows;

fn row(cells: &[&str]) -> Vec<String> {
    cells.iter().map(|c| c.to_string()).collect()
}

fn page(number: u64, first: u64, len: u64) -> PageResult {
    let rows = (first..first + len).map(|r| vec![format!("id-{}", r), format!("name-{}", r)]).collect();
    PageResult { page: number, rows }
}

fn expected(total: u64) -> Vec<Vec<String>> {
    let mut all = vec![row(&["id", "name"])];
    all.extend((1..=total).map(|r| vec![format!("id-{}", r), format!("name-{}", r)]));
    all
}

#[test]
fn new_sequencer_expects_page_one() {
    let s = Sequencer::new();
    assert_eq!(s.pages_written(), 0);
    assert_eq!(s.buffered(), 0);
    assert!(s.is_drained());
}

#[test]
fn in_order_pages_are_released_at_once() {
    let mut s = Sequencer::new();
    let out = s.receive(PageResult { page: 1, rows: vec![row(&["a"]), row(&["b"])] }).unwrap();
    assert_eq!(out, vec![row(&["a"]), row(&["b"])]);
    assert_eq!(s.pages_written(), 1);
    let out = s.receive(PageResult { page: 2, rows: vec![row(&["c"])] }).unwrap();
    assert_eq!(out, vec![row(&["c"])]);
    assert_eq!(s.pages_written(), 2);
    assert!(s.is_drained());
}

#[test]
fn early_page_waits_for_its_turn() {
    let mut s = Sequencer::new();
    let out = s.receive(PageResult { page: 2, rows: vec![row(&["c"])] }).unwrap();
    assert!(out.is_empty());
    assert_eq!(s.pages_written(), 0);
    assert_eq!(s.buffered(), 1);
    assert!(!s.is_drained());
    let out = s.receive(PageResult { page: 1, rows: vec![row(&["a"]), row(&["b"])] }).unwrap();
    assert_eq!(out, vec![row(&["a"]), row(&["b"]), row(&["c"])]);
    assert_eq!(s.pages_written(), 2);
    assert_eq!(s.buffered(), 0);
}

#[test]
fn reverse_arrival_releases_everything_with_the_first_page() {
    let mut s = Sequencer::new();
    for n in (2..=5u64).rev() {
        let out = s.receive(PageResult { page: n, rows: vec![row(&[&n.to_string()])] }).unwrap();
        assert!(out.is_empty());
        assert_eq!(s.buffered() as u64, 6 - n);
    }
    let out = s.receive(PageResult { page: 1, rows: vec![row(&["1"])] }).unwrap();
    assert_eq!(out, vec![row(&["1"]), row(&["2"]), row(&["3"]), row(&["4"]), row(&["5"])]);
    assert_eq!(s.pages_written(), 5);
    assert!(s.is_drained());
}

#[test]
fn drain_stops_at_the_first_gap() {
    let mut s = Sequencer::new();
    assert!(s.receive(PageResult { page: 2, rows: vec![row(&["2"])] }).unwrap().is_empty());
    assert!(s.receive(PageResult { page: 4, rows: vec![row(&["4"])] }).unwrap().is_empty());
    let out = s.receive(PageResult { page: 1, rows: vec![row(&["1"])] }).unwrap();
    assert_eq!(out, vec![row(&["1"]), row(&["2"])]);
    assert_eq!(s.pages_written(), 2);
    assert_eq!(s.buffered(), 1);
    let out = s.receive(PageResult { page: 3, rows: vec![row(&["3"])] }).unwrap();
    assert_eq!(out, vec![row(&["3"]), row(&["4"])]);
    assert_eq!(s.pages_written(), 4);
    assert!(s.is_drained());
}

#[test]
fn buffer_holds_arrived_minus_written() {
    let mut s = Sequencer::new();
    let order = [3u64, 5, 1, 2, 4];
    for (k, n) in order.iter().enumerate() {
        s.receive(PageResult { page: *n, rows: vec![] }).unwrap();
        assert_eq!(s.buffered() as u64 + s.pages_written(), k as u64 + 1);
    }
    assert_eq!(s.pages_written(), 5);
    assert_eq!(s.buffered(), 0);
}

#[test]
fn written_page_is_stale() {
    let mut s = Sequencer::new();
    s.receive(PageResult { page: 1, rows: vec![row(&["a"])] }).unwrap();
    let r = s.receive(PageResult { page: 1, rows: vec![row(&["x"])] });
    assert_eq!(r, Err(SequencerError::Stale));
    assert_eq!(s.pages_written(), 1);
    assert_eq!(s.buffered(), 0);
}

#[test]
fn page_zero_is_stale() {
    let mut s = Sequencer::new();
    assert_eq!(s.receive(PageResult { page: 0, rows: vec![] }), Err(SequencerError::Stale));
    assert_eq!(s.pages_written(), 0);
}

#[test]
fn buffered_page_is_a_duplicate() {
    let mut s = Sequencer::new();
    s.receive(PageResult { page: 3, rows: vec![row(&["c"])] }).unwrap();
    let r = s.receive(PageResult { page: 3, rows: vec![row(&["x"])] });
    assert_eq!(r, Err(SequencerError::Duplicate));
    assert_eq!(s.buffered(), 1);
    s.receive(PageResult { page: 2, rows: vec![row(&["b"])] }).unwrap();
    let out = s.receive(PageResult { page: 1, rows: vec![row(&["a"])] }).unwrap();
    assert_eq!(out, vec![row(&["a"]), row(&["b"]), row(&["c"])]);
}

#[test]
fn last_possible_page_number_is_buffered() {
    let mut s = Sequencer::new();
    let out = s.receive(PageResult { page: u64::MAX, rows: vec![row(&["z"])] }).unwrap();
    assert!(out.is_empty());
    assert_eq!(s.buffered(), 1);
}

#[test]
fn output_is_the_same_for_every_arrival_order() {
    let orders: [[u64; 4]; 5] = [[1, 2, 3, 4], [4, 3, 2, 1], [2, 4, 1, 3], [3, 1, 4, 2], [2, 1, 4, 3]];
    for order in orders.iter() {
        let arrivals = order.iter().map(|n| page(*n, (n - 1) * 3 + 1, 3)).collect();
        let out = sequence_rows(row(&["id", "name"]), arrivals).unwrap();
        assert_eq!(out, expected(12));
    }
}

#[test]
fn twelve_hundred_records_arriving_out_of_order() {
    let arrivals = vec![page(2, 501, 500), page(3, 1001, 200), page(1, 1, 500)];
    let out = sequence_rows(row(&["id", "name"]), arrivals).unwrap();
    assert_eq!(out.len(), 1201);
    assert_eq!(out, expected(1200));
    assert_eq!(out[0], row(&["id", "name"]));
    assert_eq!(out[1], row(&["id-1", "name-1"]));
    assert_eq!(out[1200], row(&["id-1200", "name-1200"]));
}

#[test]
fn no_records_give_only_the_header() {
    let out = sequence_rows(row(&["id", "name"]), vec![]).unwrap();
    assert_eq!(out, vec![row(&["id", "name"])]);
}

#[test]
fn header_is_written_once_whatever_the_page_count() {
    for pages in 0..6u64 {
        let arrivals = (1..=pages).rev().map(|n| page(n, (n - 1) * 2 + 1, 2)).collect();
        let out = sequence_rows(row(&["id", "name"]), arrivals).unwrap();
        let headers = out.iter().filter(|r| **r == row(&["id", "name"])).count();
        assert_eq!(headers, 1);
        assert_eq!(out[0], row(&["id", "name"]));
        assert_eq!(out.len() as u64, 1 + 2 * pages);
    }
}

#[test]
fn missing_page_holds_back_the_later_ones() {
    let arrivals = vec![page(1, 1, 2), page(2, 3, 2), page(4, 7, 2), page(5, 9, 2)];
    let out = sequence_rows(row(&["id", "name"]), arrivals).unwrap();
    assert_eq!(out, expected(4));
}

#[test]
fn sequence_rows_fails_at_the_first_refused_page() {
    let arrivals = vec![page(2, 3, 2), page(2, 3, 2), page(1, 1, 2)];
    assert_eq!(sequence_rows(row(&["id"]), arrivals), Err(SequencerError::Duplicate));
    let arrivals = vec![page(1, 1, 2), page(1, 1, 2)];
    assert_eq!(sequence_rows(row(&["id"]), arrivals), Err(SequencerError::Stale));
}
