use status_feed::pagination::{PageError, PaginationCursor, Window};
use status_feed::partition::{Bounds, OrderedItem, Partition};

fn item(id: u64) -> OrderedItem<String> {
    OrderedItem { id, payload: format!("status {}", id) }
}

fn partition_of(ids: &[u64]) -> Partition<String> {
    let mut partition = Partition::new();
    for id in ids {
        assert_eq!(partition.insert(item(*id)), Ok(()));
    }
    partition
}

fn ids_of(items: &[OrderedItem<String>]) -> Vec<u64> {
    items.iter().map(|record| record.id).collect()
}

fn ids_in(window: &Window<'_, String>) -> Vec<u64> {
    ids_of(window.items)
}

#[test]
fn insert_keeps_the_newest_first() {
    let partition = partition_of(&[30, 10, 50, 20, 40]);
    assert_eq!(partition.len(), 5);
    assert_eq!(ids_of(partition.as_slice()), vec![50, 40, 30, 20, 10]);
    assert_eq!(partition.as_slice()[2].payload, "status 30");
}

#[test]
fn insert_hands_back_a_record_whose_identifier_is_taken() {
    let mut partition = partition_of(&[30, 10, 50]);
    let second = OrderedItem { id: 30, payload: String::from("again") };
    assert_eq!(partition.insert(second.clone()), Err(second));
    assert_eq!(ids_of(partition.as_slice()), vec![50, 30, 10]);
    assert_eq!(partition.as_slice()[1].payload, "status 30");
}

#[test]
fn get_finds_a_record_by_its_identifier() {
    let partition = partition_of(&[50, 40, 30, 20, 10]);
    assert_eq!(partition.get(30), Some(&item(30)));
    assert_eq!(partition.get(50), Some(&item(50)));
    assert_eq!(partition.get(10), Some(&item(10)));
    assert_eq!(partition.get(35), None);
    assert_eq!(partition.get(0), None);
    assert_eq!(partition.get(u64::MAX), None);
    assert_eq!(Partition::<String>::new().get(30), None);
}

#[test]
fn read_ordered_takes_the_newest_under_the_bound() {
    let partition = partition_of(&[50, 40, 30, 20, 10]);
    assert_eq!(ids_of(partition.read_ordered(None, 2)), vec![50, 40]);
    assert_eq!(ids_of(partition.read_ordered(None, 9)), vec![50, 40, 30, 20, 10]);
    assert_eq!(ids_of(partition.read_ordered(Some(40), 2)), vec![30, 20]);
    assert_eq!(ids_of(partition.read_ordered(Some(41), 2)), vec![40, 30]);
    assert_eq!(ids_of(partition.read_ordered(Some(35), 1)), vec![30]);
    assert_eq!(ids_of(partition.read_ordered(Some(u64::MAX), 1)), vec![50]);
    assert_eq!(ids_of(partition.read_ordered(Some(10), 2)), Vec::<u64>::new());
    assert_eq!(ids_of(partition.read_ordered(Some(0), 2)), Vec::<u64>::new());
    assert_eq!(ids_of(partition.read_ordered(None, 0)), Vec::<u64>::new());
}

#[test]
fn read_ordered_keeps_a_record_with_the_greatest_identifier() {
    let partition = partition_of(&[u64::MAX, 7]);
    assert_eq!(ids_of(partition.read_ordered(None, 5)), vec![u64::MAX, 7]);
    assert_eq!(ids_of(partition.read_ordered(Some(u64::MAX), 5)), vec![7]);
}

#[test]
fn read_bounds_names_the_oldest_and_the_newest() {
    assert_eq!(Partition::<String>::new().read_bounds(), None);
    assert_eq!(partition_of(&[30]).read_bounds(), Some(Bounds { min_id: 30, max_id: 30 }));
    assert_eq!(
        partition_of(&[30, 10, 50, 20, 40]).read_bounds(),
        Some(Bounds { min_id: 10, max_id: 50 })
    );
}

#[test]
fn walk_of_five_records_in_pages_of_two() {
    let partition = partition_of(&[50, 40, 30, 20, 10]);

    let first = PaginationCursor::page(&partition, None, 2);
    assert_eq!(ids_in(&first), vec![50, 40]);
    assert_eq!(first.previous_page_id, Some(40));

    let second = PaginationCursor::page(&partition, first.previous_page_id, 2);
    assert_eq!(ids_in(&second), vec![30, 20]);
    assert_eq!(second.previous_page_id, Some(20));

    let third = PaginationCursor::page(&partition, second.previous_page_id, 2);
    assert_eq!(ids_in(&third), vec![10]);
    assert_eq!(third.previous_page_id, None);
}

#[test]
fn a_cursor_is_an_exclusive_bound() {
    let partition = partition_of(&[50, 40, 30, 20, 10]);

    let under_thirty = PaginationCursor::page(&partition, Some(30), 2);
    assert_eq!(ids_in(&under_thirty), vec![20, 10]);
    assert_eq!(under_thirty.previous_page_id, None);

    let under_ten = PaginationCursor::page(&partition, Some(10), 2);
    assert_eq!(ids_in(&under_ten), Vec::<u64>::new());
    assert_eq!(under_ten.previous_page_id, None);

    let between = PaginationCursor::page(&partition, Some(45), 1);
    assert_eq!(ids_in(&between), vec![40]);
    assert_eq!(between.previous_page_id, Some(40));
}

#[test]
fn an_empty_partition_has_an_empty_page() {
    let partition = Partition::<String>::new();
    let page = PaginationCursor::page(&partition, None, 10);
    assert!(page.items.is_empty());
    assert_eq!(page.previous_page_id, None);
    let page = PaginationCursor::page(&partition, Some(5), 10);
    assert!(page.items.is_empty());
    assert_eq!(page.previous_page_id, None);
}

#[test]
fn a_page_of_size_zero_is_empty() {
    let partition = partition_of(&[50, 40, 30]);
    let page = PaginationCursor::page(&partition, None, 0);
    assert!(page.items.is_empty());
    assert_eq!(page.previous_page_id, None);
}

#[test]
fn a_full_last_page_names_no_older_page() {
    let partition = partition_of(&[60, 50, 40, 30, 20, 10]);
    let first = PaginationCursor::page(&partition, None, 3);
    assert_eq!(ids_in(&first), vec![60, 50, 40]);
    assert_eq!(first.previous_page_id, Some(40));
    let last = PaginationCursor::page(&partition, first.previous_page_id, 3);
    assert_eq!(ids_in(&last), vec![30, 20, 10]);
    assert_eq!(last.previous_page_id, None);

    let whole = PaginationCursor::page(&partition, None, 6);
    assert_eq!(whole.items.len(), 6);
    assert_eq!(whole.previous_page_id, None);
}

#[test]
fn a_walk_returns_every_record_once_in_the_fewest_calls() {
    for total in 0u64..=13 {
        let ids: Vec<u64> = (1..=total).map(|n| n * 10).collect();
        let partition = partition_of(&ids);
        let newest_first: Vec<u64> = ids.iter().rev().copied().collect();
        for page_size in 1u32..=6 {
            let mut seen: Vec<u64> = Vec::new();
            let mut cursor: Option<u64> = None;
            let mut calls: u64 = 0;
            loop {
                let page = PaginationCursor::page(&partition, cursor, page_size);
                calls += 1;
                assert!(page.items.len() <= page_size as usize);
                seen.extend(ids_in(&page));
                match page.previous_page_id {
                    Some(next) => {
                        assert_eq!(page.items.len(), page_size as usize);
                        cursor = Some(next);
                    }
                    None => break,
                }
            }
            assert_eq!(seen, newest_first);
            let needed = (total + page_size as u64 - 1) / page_size as u64;
            assert_eq!(calls, needed.max(1));
        }
    }
}

#[test]
fn a_newer_record_does_not_move_the_older_pages() {
    let mut partition = partition_of(&[50, 40, 30, 20, 10]);
    let first = PaginationCursor::page(&partition, None, 2);
    assert_eq!(ids_in(&first), vec![50, 40]);
    let cursor = first.previous_page_id;
    assert_eq!(cursor, Some(40));

    assert_eq!(partition.insert(item(60)), Ok(()));
    assert_eq!(partition.insert(item(45)), Ok(()));

    let second = PaginationCursor::page(&partition, cursor, 2);
    assert_eq!(ids_in(&second), vec![30, 20]);
    assert_eq!(second.previous_page_id, Some(20));
    let third = PaginationCursor::page(&partition, second.previous_page_id, 2);
    assert_eq!(ids_in(&third), vec![10]);
    assert_eq!(third.previous_page_id, None);
}

#[test]
fn window_holds_the_oldest_record_against_the_bounds() {
    let records = vec![item(50), item(40)];
    let bounds = Some(Bounds { min_id: 10, max_id: 50 });
    assert!(PaginationCursor::agree(bounds, &records));
    let window = PaginationCursor::window(&records, bounds);
    assert_eq!(ids_in(&window), vec![50, 40]);
    assert_eq!(window.previous_page_id, Some(40));

    let tight = Some(Bounds { min_id: 40, max_id: 50 });
    assert!(PaginationCursor::agree(tight, &records));
    assert_eq!(PaginationCursor::window(&records, tight).previous_page_id, None);
}

#[test]
fn window_finds_the_oldest_record_wherever_it_stands() {
    let records = vec![item(40), item(20), item(50)];
    let bounds = Some(Bounds { min_id: 10, max_id: 50 });
    assert!(PaginationCursor::agree(bounds, &records));
    assert_eq!(PaginationCursor::window(&records, bounds).previous_page_id, Some(20));
}

#[test]
fn window_of_nothing_names_no_older_page() {
    let records: Vec<OrderedItem<String>> = Vec::new();
    assert!(!PaginationCursor::needs_bounds(&records));
    assert!(PaginationCursor::agree(None, &records));
    assert_eq!(PaginationCursor::window(&records, None).previous_page_id, None);
    let bounds = Some(Bounds { min_id: 10, max_id: 50 });
    assert!(PaginationCursor::agree(bounds, &records));
    assert_eq!(PaginationCursor::window(&records, bounds).previous_page_id, None);
}

#[test]
fn agree_tells_bounds_that_leave_a_record_out() {
    let records = vec![item(50), item(40)];
    assert!(PaginationCursor::needs_bounds(&records));
    assert!(!PaginationCursor::agree(None, &records));
    assert!(!PaginationCursor::agree(Some(Bounds { min_id: 45, max_id: 50 }), &records));
    assert!(!PaginationCursor::agree(Some(Bounds { min_id: 10, max_id: 49 }), &records));
    assert!(PaginationCursor::agree(Some(Bounds { min_id: 40, max_id: 50 }), &records));
}

#[test]
fn accepts_tells_what_a_read_may_answer() {
    let records = vec![item(50), item(40), item(30)];
    assert!(PaginationCursor::accepts(&records, None, 3));
    assert!(PaginationCursor::accepts(&records, Some(51), 10));
    assert!(!PaginationCursor::accepts(&records, Some(50), 10));
    assert!(!PaginationCursor::accepts(&records, None, 2));
    assert!(!PaginationCursor::accepts(&[item(40), item(50)], None, 10));
    assert!(!PaginationCursor::accepts(&[item(40), item(40)], None, 10));
    assert!(PaginationCursor::accepts::<String>(&[], Some(0), 0));
}

#[test]
fn settle_passes_on_a_store_that_cannot_be_read() {
    let records = vec![item(50), item(40)];
    let bounds = Some(Bounds { min_id: 10, max_id: 50 });

    let page = PaginationCursor::settle::<String>(Err(PageError::StorageUnavailable), Ok(bounds));
    assert_eq!(page.err(), Some(PageError::StorageUnavailable));

    let page = PaginationCursor::settle(Ok(&records[..]), Err(PageError::StorageUnavailable));
    assert_eq!(page.err(), Some(PageError::StorageUnavailable));

    let page = PaginationCursor::settle::<String>(
        Err(PageError::StorageUnavailable),
        Err(PageError::StorageUnavailable),
    );
    assert_eq!(page.err(), Some(PageError::StorageUnavailable));
}

#[test]
fn settle_decides_on_what_was_read() {
    let records = vec![item(50), item(40)];
    let bounds = Some(Bounds { min_id: 10, max_id: 50 });
    let page = PaginationCursor::settle(Ok(&records[..]), Ok(bounds)).ok().unwrap();
    assert_eq!(ids_in(&page), vec![50, 40]);
    assert_eq!(page.previous_page_id, Some(40));

    let last = vec![item(20), item(10)];
    let page = PaginationCursor::settle(Ok(&last[..]), Ok(bounds)).ok().unwrap();
    assert_eq!(ids_in(&page), vec![20, 10]);
    assert_eq!(page.previous_page_id, None);
}

#[test]
fn settle_does_not_need_bounds_beside_an_empty_window() {
    let nothing: Vec<OrderedItem<String>> = Vec::new();
    let page = PaginationCursor::settle(Ok(&nothing[..]), Err(PageError::StorageUnavailable));
    let page = page.ok().unwrap();
    assert!(page.items.is_empty());
    assert_eq!(page.previous_page_id, None);
    let page = PaginationCursor::settle(Ok(&nothing[..]), Ok(None)).ok().unwrap();
    assert!(page.items.is_empty());
    assert_eq!(page.previous_page_id, None);
}
