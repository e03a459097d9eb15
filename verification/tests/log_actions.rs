use std::collections::HashMap;

use reading_log::actions::Action;
use reading_log::readings::{can_reduce, map_data, reducer, Notice, OldReading, OldReadings, Output};
use reading_log::structs::{Bookmark, Reading, Readings, Timestamp};

const DAY: i64 = 86400;

fn mark(page: u32, secs: i64) -> Bookmark {
    Bookmark { page, date: Timestamp { secs, nanos: 0 } }
}

fn book(id: u32, title: &str, author: &str, pages: u32, marks: Vec<Bookmark>) -> Reading {
    Reading {
        id,
        deleted: false,
        finished: false,
        title: title.to_string(),
        author: author.to_string(),
        bookmarks: marks,
        previous: vec![],
        pages,
    }
}

fn library() -> Readings {
    let mut m: Readings = HashMap::new();
    m.insert(0, book(0, "Dune", "Frank Herbert", 400, vec![mark(0, 1000), mark(50, 2000)]));
    m.insert(1, book(1, "Emma", "Jane Austen", 300, vec![mark(0, 1500)]));
    m.insert(2, book(2, "Beloved", "Toni Morrison", 320, vec![mark(0, 1200), mark(20, 1300), mark(90, 5000)]));
    m
}

fn run(state: &Readings, action: Action) -> (Readings, Vec<Output>) {
    assert!(can_reduce(state, &action));
    reducer(state, &action)
}

fn notice_of(out: &[Output]) -> Notice {
    match out {
        [Output::Notice(n)] => *n,
        other => panic!("unexpected {:?}", other),
    }
}

#[test]
fn adding_a_reading_takes_the_next_id() {
    let (m, out) = run(&library(), Action::AddReading(("Ulysses".to_string(), "James Joyce".to_string(), 730)));
    assert_eq!(notice_of(&out), Notice::AddingReading);
    assert_eq!(m.len(), 4);
    let r = &m[&3];
    assert_eq!(r.id, 3);
    assert_eq!(r.title, "Ulysses");
    assert_eq!(r.author, "James Joyce");
    assert_eq!(r.pages, 730);
    assert!(!r.finished && !r.deleted);
    assert_eq!(r.bookmarks.len(), 1);
    assert_eq!(r.bookmarks[0].page, 0);
    assert!(r.previous.is_empty());
    let (n, out) = run(&m, Action::FindByID(3));
    assert_eq!(n.len(), 4);
    assert!(matches!(&out[..], [Output::Reading(x)] if x.title == "Ulysses"));
}

#[test]
fn adding_replaces_a_reading_under_the_next_id_when_ids_have_gaps() {
    let mut m: Readings = HashMap::new();
    m.insert(1, book(1, "Emma", "Jane Austen", 300, vec![mark(0, 1)]));
    let (n, _) = run(&m, Action::AddReading(("New".to_string(), "Author".to_string(), 10)));
    assert_eq!(n.len(), 1);
    assert_eq!(n[&1].title, "New");
}

#[test]
fn editing_properties() {
    let (m, out) = run(&library(), Action::EditReading(1, "author".to_string(), "J. Austen".to_string()));
    assert!(out.is_empty());
    assert_eq!(m[&1].author, "J. Austen");
    let (m, _) = run(&m, Action::EditReading(1, "title".to_string(), "Persuasion".to_string()));
    assert_eq!(m[&1].title, "Persuasion");
    let (m, _) = run(&m, Action::EditReading(1, "pages".to_string(), "250".to_string()));
    assert_eq!(m[&1].pages, 250);
    let (m2, out) = run(&m, Action::EditReading(1, "colour".to_string(), "red".to_string()));
    assert_eq!(notice_of(&out), Notice::NoSuchProperty);
    assert_eq!(m2[&1].title, "Persuasion");
    let (_, out) = run(&m, Action::EditReading(9, "title".to_string(), "x".to_string()));
    assert!(out.is_empty());
    assert!(!can_reduce(&m, &Action::EditReading(1, "pages".to_string(), "lots".to_string())));
    assert!(can_reduce(&m, &Action::EditReading(9, "pages".to_string(), "lots".to_string())));
}

#[test]
fn finishing_and_removing() {
    let (m, out) = run(&library(), Action::FinishReading(0));
    assert!(out.is_empty());
    assert!(m[&0].finished);
    let (_, out) = run(&m, Action::FinishReading(7));
    assert_eq!(notice_of(&out), Notice::NoSuchReading);
    let (m, out) = run(&m, Action::RemoveReading(1));
    assert_eq!(notice_of(&out), Notice::ReadingRemoved);
    assert!(m[&1].deleted);
    assert_eq!(m.len(), 3);
    let (_, out) = run(&m, Action::RemoveReading(7));
    assert_eq!(notice_of(&out), Notice::NoSuchReadingId);
}

#[test]
fn bookmarks_only_move_forward() {
    let (m, out) = run(&library(), Action::AddBookmark(0, 120));
    assert_eq!(m[&0].bookmarks.len(), 3);
    assert_eq!(m[&0].bookmarks[2].page, 120);
    assert!(matches!(&out[..], [Output::Reading(r)] if r.bookmarks.len() == 3));
    let (m2, out) = run(&m, Action::AddBookmark(0, 100));
    assert_eq!(notice_of(&out), Notice::BackInTime);
    assert_eq!(m2[&0].bookmarks.len(), 3);
    let (_, out) = run(&m, Action::AddBookmark(0, 401));
    assert_eq!(notice_of(&out), Notice::BackInTime);
    let (_, out) = run(&m, Action::AddBookmark(0, 120));
    assert_eq!(notice_of(&out), Notice::BackInTime);
    let (_, out) = run(&m, Action::AddBookmark(8, 10));
    assert_eq!(notice_of(&out), Notice::NoSuchReading);
    let (done, _) = run(&m, Action::AddBookmark(0, 400));
    assert!(done[&0].finished);
}

#[test]
fn undo_reverts_the_last_bookmark() {
    let start = library();
    let (m, _) = run(&start, Action::AddBookmark(2, 200));
    let (m, out) = run(&m, Action::UndoBookmark(2));
    assert!(out.is_empty());
    assert_eq!(m[&2].bookmarks, start[&2].bookmarks);
    let (_, out) = run(&m, Action::UndoBookmark(5));
    assert_eq!(notice_of(&out), Notice::NoSuchReading);
    let (emptied, _) = run(&library(), Action::UndoBookmark(1));
    assert!(emptied[&1].bookmarks.is_empty());
    let (still, _) = run(&emptied, Action::UndoBookmark(1));
    assert!(still[&1].bookmarks.is_empty());
    assert!(!can_reduce(&emptied, &Action::AddBookmark(1, 5)));
}

#[test]
fn resetting_keeps_the_earlier_run() {
    let start = library();
    let (m, out) = run(&start, Action::ResetReading(2));
    assert_eq!(notice_of(&out), Notice::BookmarksReset);
    assert_eq!(m[&2].previous, vec![start[&2].bookmarks.clone()]);
    assert_eq!(m[&2].bookmarks.len(), 1);
    assert_eq!(m[&2].bookmarks[0].page, 0);
    let (_, out) = run(&m, Action::ResetReading(2));
    assert_eq!(notice_of(&out), Notice::AlreadyAtPageZero);
    let (_, out) = run(&m, Action::ResetReading(9));
    assert_eq!(notice_of(&out), Notice::UnknownReadingId);
}

#[test]
fn listings() {
    let (m, _) = run(&library(), Action::RemoveReading(2));
    let (_, out) = run(&m, Action::ShowFilter("all".to_string()));
    match &out[..] {
        [Output::Library(v)] => assert_eq!(v.iter().map(|r| r.id).collect::<Vec<u32>>(), vec![0, 1]),
        other => panic!("unexpected {:?}", other),
    }
    let (_, out) = run(&library(), Action::ShowFilter("unread".to_string()));
    match &out[..] {
        [Output::Library(v)] => assert_eq!(v.iter().map(|r| r.id).collect::<Vec<u32>>(), vec![1]),
        other => panic!("unexpected {:?}", other),
    }
    let (_, out) = run(&library(), Action::ShowFilter("reading".to_string()));
    match &out[..] {
        [Output::Library(v)] => {
            let mut ids: Vec<u32> = v.iter().map(|r| r.id).collect();
            ids.sort();
            assert_eq!(ids, vec![0, 2]);
        },
        other => panic!("unexpected {:?}", other),
    }
    let (_, out) = run(&library(), Action::ShowFilter("done".to_string()));
    assert_eq!(notice_of(&out), Notice::InvalidFilter);
    let (m, _) = run(&library(), Action::FinishReading(0));
    let (_, out) = run(&m, Action::ShowFinished);
    match &out[..] {
        [Output::Completion(v)] => assert_eq!(v.iter().map(|r| r.id).collect::<Vec<u32>>(), vec![0]),
        other => panic!("unexpected {:?}", other),
    }
    let (_, out) = run(&m, Action::ShowUnfinished);
    match &out[..] {
        [Output::Completion(v)] => assert_eq!(v.iter().map(|r| r.id).collect::<Vec<u32>>(), vec![2]),
        other => panic!("unexpected {:?}", other),
    }
}

#[test]
fn search_matches_lowercase_title_or_author() {
    let (m, _) = run(&library(), Action::RemoveReading(1));
    let (_, out) = run(&m, Action::SearchKeyword("toni".to_string()));
    assert!(matches!(&out[0], Output::Searching(q) if q == "toni"));
    assert_eq!(out.len(), 2);
    assert!(matches!(&out[1], Output::Reading(r) if r.id == 2));
    let (_, out) = run(&m, Action::SearchKeyword("austen".to_string()));
    assert_eq!(out.len(), 1);
    let (_, out) = run(&m, Action::SearchKeyword("DUNE".to_string()));
    assert_eq!(out.len(), 1);
    let (_, out) = run(&m, Action::SearchKeyword("dune".to_string()));
    assert_eq!(out.len(), 2);
}

#[test]
fn finding_and_bookmarks() {
    let (_, out) = run(&library(), Action::FindByID(42));
    assert!(matches!(&out[..], [Output::MissingId(42)]));
    let (_, out) = run(&library(), Action::ShowBookmarks(2));
    assert!(matches!(&out[..], [Output::Bookmarks(b)] if b.len() == 3));
    let (_, out) = run(&library(), Action::ShowBookmarks(3));
    assert_eq!(notice_of(&out), Notice::NoSuchReading);
    let (_, out) = run(&library(), Action::ShowWeeklyChart);
    assert!(out.is_empty());
}

#[test]
fn oldest_open_reading() {
    let (_, out) = run(&library(), Action::ShowOldestRead);
    assert!(matches!(&out[..], [Output::Reading(r)] if r.id == 1));
    let (m, _) = run(&library(), Action::FinishReading(1));
    let (_, out) = run(&m, Action::ShowOldestRead);
    assert!(matches!(&out[..], [Output::Reading(r)] if r.id == 0));
    let empty: Readings = HashMap::new();
    let (_, out) = run(&empty, Action::ShowOldestRead);
    assert_eq!(notice_of(&out), Notice::NoReadingsYet);
    let mut gap: Readings = HashMap::new();
    gap.insert(5, book(5, "X", "Y", 10, vec![mark(0, 1)]));
    let (_, out) = run(&gap, Action::ShowOldestRead);
    assert!(matches!(&out[..], [Output::Reading(r)] if r.id == 5));
    gap.insert(6, book(6, "Z", "Y", 10, vec![]));
    assert!(!can_reduce(&gap, &Action::ShowOldestRead));
}

#[test]
fn oldest_skips_finished_reading_zero() {
    let mut m: Readings = HashMap::new();
    m.insert(0, book(0, "A", "B", 10, vec![mark(0, 100), mark(10, 200)]));
    m.insert(1, book(1, "C", "D", 10, vec![mark(0, 100), mark(3, 900)]));
    let (m, _) = run(&m, Action::FinishReading(0));
    let (_, out) = run(&m, Action::ShowOldestRead);
    assert!(matches!(&out[..], [Output::Reading(r)] if r.id == 1));
    let (m, _) = run(&m, Action::RemoveReading(1));
    let (_, out) = run(&m, Action::ShowOldestRead);
    assert!(out.is_empty());
}

#[test]
fn average_counts_pages_in_the_span() {
    let (_, out) = run(&library(), Action::ShowAverage(3, 1250));
    assert!(matches!(&out[..], [Output::Average(140, 3)]));
    let (_, out) = run(&library(), Action::ShowAverage(1, 2500));
    assert!(matches!(&out[..], [Output::Average(70, 1)]));
    let (_, out) = run(&library(), Action::ShowAverage(2, 9000));
    assert!(matches!(&out[..], [Output::Average(0, 2)]));
    let mut back: Readings = HashMap::new();
    back.insert(0, book(0, "A", "B", 10, vec![mark(5, 10), mark(3, 20)]));
    assert!(!can_reduce(&back, &Action::ShowAverage(1, 0)));
    let mut emptied = library();
    emptied.insert(1, book(1, "Emma", "Jane Austen", 300, vec![]));
    let (_, out) = run(&emptied, Action::ShowAverage(3, 1250));
    assert!(matches!(&out[..], [Output::Average(140, 3)]));
    assert!(!can_reduce(&emptied, &Action::GetStats(1250)));
}

#[test]
fn stats_count_pages_in_the_span() {
    let (_, out) = run(&library(), Action::GetStats(1250));
    match &out[..] {
        [Output::Stats(v, total)] => {
            let mut ids: Vec<(u32, u32)> = v.iter().map(|(r, p)| (r.id, *p)).collect();
            ids.sort();
            assert_eq!(ids, vec![(0, 50), (2, 90)]);
            assert_eq!(*total, 140);
        },
        other => panic!("unexpected {:?}", other),
    }
    let (_, out) = run(&library(), Action::GetStats(2500));
    match &out[..] {
        [Output::Stats(v, total)] => {
            assert_eq!(v.len(), 1);
            assert_eq!(v[0].0.id, 2);
            assert_eq!(v[0].1, 70);
            assert_eq!(*total, 70);
        },
        other => panic!("unexpected {:?}", other),
    }
    let mut back: Readings = HashMap::new();
    back.insert(0, book(0, "A", "B", 10, vec![mark(5, 10), mark(3, 20)]));
    assert!(!can_reduce(&back, &Action::GetStats(0)));
    assert!(can_reduce(&back, &Action::GetStats(30)));
}

#[test]
fn current_books_are_ordered_by_title() {
    let mut m = library();
    m.insert(3, book(3, "anna Karenina", "Leo Tolstoy", 800, vec![mark(0, 100), mark(10, 3000)]));
    let (_, out) = run(&m, Action::CurrentlyReading(1250));
    match &out[..] {
        [Output::CurrentBooks(v)] => {
            let titles: Vec<&str> = v.iter().map(|r| r.title.as_str()).collect();
            assert_eq!(titles, vec!["anna Karenina", "Beloved", "Dune"]);
        },
        other => panic!("unexpected {:?}", other),
    }
}

#[test]
fn random_pick_is_a_reading_in_progress() {
    let mut m = library();
    m.insert(3, book(3, "Emma", "Jane Austen", 300, vec![mark(0, 1500), mark(3, 1600)]));
    let (m, _) = run(&m, Action::FinishReading(0));
    for _ in 0..20 {
        let (_, out) = run(&m, Action::ReadRandom);
        match &out[..] {
            [Output::Reading(r)] => assert!(r.id == 2 || r.id == 3),
            other => panic!("unexpected {:?}", other),
        }
    }
    let mut one: Readings = HashMap::new();
    one.insert(0, book(0, "A", "B", 10, vec![mark(0, 1), mark(2, 2)]));
    let (_, out) = run(&one, Action::ReadRandom);
    assert!(matches!(&out[..], [Output::Reading(r)] if r.id == 0));
    let mut none: Readings = HashMap::new();
    none.insert(0, book(0, "A", "B", 10, vec![mark(0, 1)]));
    assert!(!can_reduce(&none, &Action::ReadRandom));
}

#[test]
fn saving_and_loading() {
    let (m, out) = run(&library(), Action::SaveData);
    assert!(matches!(&out[..], [Output::Notice(Notice::SavingReadings), Output::Save]));
    assert_eq!(m.len(), 3);
    let mut data: Readings = HashMap::new();
    data.insert(9, book(9, "Loaded", "Someone", 1, vec![mark(0, 1)]));
    let (m, out) = run(&library(), Action::LoadData(data));
    assert_eq!(notice_of(&out), Notice::LoadingData);
    assert_eq!(m.len(), 1);
    assert_eq!(m[&9].title, "Loaded");
}

#[test]
fn old_readings_are_keyed_by_their_own_ids() {
    let mut old: OldReadings = HashMap::new();
    old.insert(
        0,
        OldReading {
            id: 4,
            deleted: false,
            finished: true,
            title: "T".to_string(),
            author: "A".to_string(),
            bookmarks: vec![mark(0, 1)],
            pages: 10,
        },
    );
    let m = map_data(&old);
    assert_eq!(m.len(), 1);
    let r = &m[&4];
    assert_eq!(r.id, 4);
    assert!(r.finished);
    assert!(r.previous.is_empty());
    assert_eq!(r.bookmarks, vec![mark(0, 1)]);
    let _ = DAY;
}
