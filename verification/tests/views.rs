use std::collections::HashMap;

use reading_log::structs::{Bookmark, Reading, Readings, Timestamp};
use reading_log::views::{
    can_flatten_with, daily_pages, day_gaps_of, flatten_bookmarks, flatten_with_gaps, listing,
    oldest_reading, order_by_keys, pages_read_since, random_reading, reading_at, sorted_ids, Shelf,
};

const DAY: i64 = 86400;

fn mark(page: u32, secs: i64) -> Bookmark {
    Bookmark { page, date: Timestamp { secs, nanos: 0 } }
}

fn book(id: u32, deleted: bool, marks: Vec<Bookmark>) -> Reading {
    Reading {
        id,
        deleted,
        finished: false,
        title: format!("t{}", id),
        author: "a".to_string(),
        bookmarks: marks,
        previous: vec![],
        pages: 100,
    }
}

#[test]
fn flatten_adds_up_each_reading_day() {
    let t = 1_700_000_000;
    let days = flatten_bookmarks(&vec![mark(0, t), mark(10, t + 3600), mark(30, t + 2 * DAY)]);
    assert_eq!(days, vec![10, 20]);
    let same = flatten_bookmarks(&vec![mark(0, t), mark(10, t + 3600), mark(30, t + 7200)]);
    assert_eq!(same, vec![30]);
    let started = flatten_bookmarks(&vec![mark(5, t), mark(8, t + 10), mark(9, t + 3 * DAY)]);
    assert_eq!(started, vec![3, 1]);
    let almost = flatten_bookmarks(&vec![mark(0, t), mark(4, t + 1), mark(6, t + DAY)]);
    assert_eq!(almost, vec![6]);
    let full_day = flatten_bookmarks(&vec![mark(0, t), mark(4, t + 1), mark(6, t + 1 + DAY)]);
    assert_eq!(full_day, vec![4, 2]);
    let total: u32 = days.iter().sum();
    assert_eq!(total, 30 - 0);
}

#[test]
fn pages_since_count_only_later_bookmarks() {
    let bs = vec![mark(0, 100), mark(10, 200), mark(25, 300), mark(40, 400)];
    assert_eq!(pages_read_since(&bs, 0), 40);
    assert_eq!(pages_read_since(&bs, 250), 30);
    assert_eq!(pages_read_since(&bs, 400), 0);
    assert_eq!(pages_read_since(&vec![mark(7, 1)], 0), 0);
}

#[test]
fn ids_sort_increasing() {
    assert_eq!(sorted_ids(&vec![5, 1, 9, 0, 3]), vec![0, 1, 3, 5, 9]);
    assert_eq!(sorted_ids(&vec![]), Vec::<u32>::new());
}

#[test]
fn listing_skips_deleted_readings() {
    let mut m: Readings = HashMap::new();
    for id in [4u32, 2, 7, 1] {
        m.insert(id, book(id, id == 7, vec![mark(0, 1)]));
    }
    let ids: Vec<u32> = listing(&m, &Shelf::Present).iter().map(|r| r.id).collect();
    assert_eq!(ids, vec![1, 2, 4]);
}

#[test]
fn oldest_is_an_open_reading() {
    let mut m: Readings = HashMap::new();
    m.insert(0, book(0, false, vec![mark(0, 50)]));
    m.insert(2, book(2, true, vec![mark(0, 10)]));
    assert_eq!(oldest_reading(&m).map(|r| r.id), Some(0));
    m.insert(3, book(3, false, vec![mark(0, 20)]));
    assert_eq!(oldest_reading(&m).map(|r| r.id), Some(3));
    let mut done = book(1, false, vec![mark(0, 5)]);
    done.finished = true;
    m.insert(1, done);
    assert_eq!(oldest_reading(&m).map(|r| r.id), Some(3));
    let mut closed: Readings = HashMap::new();
    closed.insert(4, book(4, true, vec![mark(0, 1)]));
    assert!(oldest_reading(&closed).is_none());
}

#[test]
fn picking_by_position_among_readings_in_progress() {
    let mut m: Readings = HashMap::new();
    m.insert(0, book(0, false, vec![mark(0, 1)]));
    m.insert(5, book(5, false, vec![mark(0, 1), mark(4, 2)]));
    m.insert(1, book(1, true, vec![mark(0, 1), mark(4, 2)]));
    m.insert(3, book(3, false, vec![mark(0, 1), mark(9, 2)]));
    assert_eq!(reading_at(&m, 0).map(|r| r.id), Some(3));
    assert_eq!(reading_at(&m, 1).map(|r| r.id), Some(5));
    assert!(reading_at(&m, 2).is_none());
    for _ in 0..20 {
        let id = random_reading(&m).id;
        assert!(id == 3 || id == 5);
    }
}

#[test]
fn daily_pages_refuse_pages_going_back() {
    let t = 1_700_000_000;
    assert_eq!(daily_pages(&vec![mark(0, t), mark(9, t + 5 * DAY)]), Some(vec![9]));
    assert_eq!(daily_pages(&vec![mark(9, t), mark(4, t + 5 * DAY)]), None);
    assert_eq!(daily_pages(&vec![]), None);
    assert_eq!(daily_pages(&vec![mark(0, t), mark(0, t + 1)]), Some(vec![]));
}

#[test]
fn flattening_with_given_gaps() {
    let bs = vec![mark(0, 0), mark(10, 0), mark(0, 0), mark(25, 0), mark(30, 0)];
    let gaps = vec![Some(0), Some(3), None, Some(0), Some(1)];
    assert!(can_flatten_with(&bs, &gaps));
    assert_eq!(flatten_with_gaps(&bs, &gaps), vec![25, 5]);
    let apart = vec![Some(0), Some(1), Some(0), Some(2), Some(-1)];
    assert_eq!(flatten_with_gaps(&bs, &apart), vec![10, 15, 5]);
    let back = vec![mark(9, 0), mark(4, 0)];
    assert!(!can_flatten_with(&back, &vec![None, None]));
    let big = vec![mark(0, 0), mark(u32::MAX, 0), mark(u32::MAX, 0)];
    assert!(can_flatten_with(&big, &vec![Some(0), Some(0), Some(0)]));
    let skipped = vec![mark(5, 0), mark(0, 0), mark(3, 0)];
    assert!(!can_flatten_with(&skipped, &vec![None, None, None]));
}

#[test]
fn day_gaps_are_whole_days_from_the_last_counted_bookmark() {
    let t = 1_700_000_000;
    let bs = vec![mark(0, t), mark(10, t + 3600), mark(0, t + 9 * DAY), mark(30, t + 3600 + 2 * DAY + 1)];
    assert_eq!(day_gaps_of(&bs), vec![Some(0), Some(0), Some(8), Some(2)]);
    let back = vec![mark(5, t), mark(7, t - DAY - 5)];
    assert_eq!(day_gaps_of(&back), vec![Some(0), Some(-1)]);
    let almost = vec![mark(5, t), mark(7, t - DAY + 5)];
    assert_eq!(day_gaps_of(&almost), vec![Some(0), Some(0)]);
    assert_eq!(day_gaps_of(&vec![]), Vec::<Option<i64>>::new());
}

#[test]
fn ordering_by_keys_is_stable() {
    let v: Vec<Reading> = (0..5).map(|id| book(id, false, vec![mark(0, 1)])).collect();
    let keys: Vec<String> = ["b", "a", "b", "", "ab"].iter().map(|k| k.to_string()).collect();
    let ids: Vec<u32> = order_by_keys(&v, &keys).iter().map(|r| r.id).collect();
    assert_eq!(ids, vec![3, 1, 4, 0, 2]);
    assert!(order_by_keys(&vec![], &vec![]).is_empty());
}
