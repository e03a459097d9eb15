use std::collections::HashMap;
use std::time::{SystemTime, UNIX_EPOCH};

use reading_log::actions::Action;
use reading_log::readings::{can_reduce, reducer, Output};
use reading_log::structs::{Bookmark, Reading, Readings, Timestamp};
use reading_log::views::{can_flatten, flatten_bookmarks, pages_read_since};

fn mark(page: u32, secs: i64) -> Bookmark {
    Bookmark { page, date: Timestamp { secs, nanos: 0 } }
}

fn book(id: u32, marks: Vec<Bookmark>) -> Reading {
    Reading {
        id,
        deleted: false,
        finished: false,
        title: format!("Book {}", id),
        author: "Someone".to_string(),
        bookmarks: marks,
        previous: vec![],
        pages: 300,
    }
}

fn shelf() -> Readings {
    let mut m: Readings = HashMap::new();
    m.insert(0, book(0, vec![mark(0, 10), mark(40, 20)]));
    m.insert(1, book(1, vec![mark(0, 15)]));
    m
}

fn run(state: &Readings, action: Action) -> Readings {
    assert!(can_reduce(state, &action));
    reducer(state, &action).0
}

fn same(a: &Readings, b: &Readings) -> bool {
    a.len() == b.len() && a.iter().all(|(k, r)| b.get(k).map_or(false, |s| format!("{:?}", r) == format!("{:?}", s)))
}

fn ordered(m: &Readings) -> bool {
    m.values().all(|r| r.bookmarks.windows(2).all(|w| w[0].page < w[1].page))
}

#[test]
fn every_action_keeps_bookmark_pages_increasing() {
    let mut m = shelf();
    let actions = vec![
        Action::AddBookmark(0, 90),
        Action::AddBookmark(0, 80),
        Action::AddBookmark(1, 5),
        Action::UndoBookmark(0),
        Action::ResetReading(0),
        Action::AddBookmark(0, 3),
        Action::AddReading(("New".to_string(), "A".to_string(), 10)),
        Action::EditReading(1, "pages".to_string(), "20".to_string()),
        Action::FinishReading(1),
        Action::RemoveReading(0),
    ];
    for a in actions {
        m = run(&m, a);
        assert!(ordered(&m));
    }
}

#[test]
fn no_reading_is_ever_removed_and_history_grows() {
    let m0 = shelf();
    let m1 = run(&m0, Action::AddBookmark(0, 60));
    let m2 = run(&m1, Action::ResetReading(0));
    let m3 = run(&m2, Action::AddBookmark(0, 5));
    let m4 = run(&m3, Action::ResetReading(0));
    let m5 = run(&m4, Action::RemoveReading(1));
    assert_eq!(m5.len(), 2);
    let history = &m5[&0].previous;
    assert_eq!(history.len(), 2);
    assert_eq!(history[0].iter().map(|b| b.page).collect::<Vec<u32>>(), vec![0, 40, 60]);
    assert_eq!(history[1].iter().map(|b| b.page).collect::<Vec<u32>>(), vec![0, 5]);
    assert!(m5[&1].deleted);
}

#[test]
fn queries_leave_the_readings_alone() {
    let m = shelf();
    for a in vec![
        Action::SaveData,
        Action::ShowFilter("all".to_string()),
        Action::ShowFilter("unread".to_string()),
        Action::SearchKeyword("book".to_string()),
        Action::GetStats(0),
        Action::CurrentlyReading(0),
        Action::FindByID(1),
        Action::ShowFinished,
        Action::ShowUnfinished,
        Action::ShowOldestRead,
        Action::ShowBookmarks(0),
        Action::ShowAverage(4, 0),
        Action::ShowFilter("reading".to_string()),
        Action::ReadRandom,
    ] {
        assert!(same(&run(&m, a), &m));
    }
}

#[test]
fn other_readings_are_untouched() {
    let m = shelf();
    let n = run(&m, Action::AddBookmark(1, 30));
    assert_eq!(format!("{:?}", n[&0]), format!("{:?}", m[&0]));
    assert_eq!(n[&1].bookmarks.len(), 2);
}

#[test]
fn daily_pages_sum_to_progress() {
    let t = 1_600_000_000;
    let bs = vec![mark(0, t), mark(12, t + 100), mark(12, t + 90_000), mark(50, t + 200_000), mark(70, t + 200_100)];
    assert!(can_flatten(&bs));
    let days = flatten_bookmarks(&bs);
    assert_eq!(days.iter().sum::<u32>(), 70);
    assert_eq!(pages_read_since(&bs, t - 1), 70);
    assert!(!can_flatten(&vec![mark(5, t), mark(3, t + 1)]));
    assert!(!can_flatten(&vec![]));
}

#[test]
fn new_bookmarks_are_dated_now() {
    let before = SystemTime::now().duration_since(UNIX_EPOCH).unwrap().as_secs() as i64;
    let b = Bookmark::new(17);
    let after = SystemTime::now().duration_since(UNIX_EPOCH).unwrap().as_secs() as i64;
    assert_eq!(b.page, 17);
    assert!(before <= b.date.secs && b.date.secs <= after);
    let r = Reading::new(3, "T".to_string(), "A".to_string(), 9);
    assert_eq!(r.bookmarks.len(), 1);
    assert_eq!(r.bookmarks[0].page, 0);
    assert!(r.bookmarks[0].date.secs >= before);
}

#[test]
fn a_found_reading_is_the_one_added() {
    let m = shelf();
    let (n, _) = reducer(&m, &Action::AddReading(("Added".to_string(), "Me".to_string(), 12)));
    let (_, out) = reducer(&n, &Action::FindByID(2));
    assert!(matches!(&out[..], [Output::Reading(r)] if r.title == "Added" && r.pages == 12 && r.id == 2));
}

#[test]
fn finished_and_deleted_stay_set() {
    let m = run(&shelf(), Action::FinishReading(0));
    let m = run(&m, Action::RemoveReading(0));
    let m = run(&m, Action::UndoBookmark(0));
    let m = run(&m, Action::ResetReading(0));
    let m = run(&m, Action::EditReading(0, "pages".to_string(), "1".to_string()));
    assert!(m[&0].finished);
    assert!(m[&0].deleted);
}

fn stats_total(m: &Readings, t: i64) -> u32 {
    match &reducer(m, &Action::GetStats(t)).1[..] {
        [Output::Stats(_, total)] => *total,
        other => panic!("unexpected {:?}", other),
    }
}

#[test]
fn stats_total_shrinks_as_the_span_starts_later() {
    let mut m = shelf();
    m.insert(2, book(2, vec![mark(5, 12), mark(30, 18), mark(31, 40)]));
    let mut last = u32::MAX;
    for t in [0i64, 11, 12, 15, 18, 19, 20, 39, 40, 1000] {
        assert!(can_reduce(&m, &Action::GetStats(t)));
        let total = stats_total(&m, t);
        assert!(total <= last);
        last = total;
    }
    assert_eq!(stats_total(&m, 0), 40 + 26);
    assert_eq!(stats_total(&m, 1000), 0);
}
