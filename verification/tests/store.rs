use std::cell::Cell;

use reading_log::actions::Action;
use reading_log::readings::{Notice, Output};
use reading_log::stores::{root_reducer, State, Store};
use reading_log::structs::Bookmark;

#[test]
fn dispatch_turns_the_state_and_tells_listeners() {
    let seen = Cell::new(0usize);
    let mut store = Store::create_store(root_reducer, State::new());
    store.subscribe(|s: &State| seen.set(seen.get() + s.outputs.len()));
    store.dispatch(Action::AddReading(("Dune".to_string(), "Frank Herbert".to_string(), 10)));
    assert_eq!(store.get_state().readings.len(), 1);
    assert!(matches!(store.get_state().outputs[..], [Output::Notice(Notice::AddingReading)]));
    assert_eq!(seen.get(), 1);
    store.dispatch(Action::SaveData);
    assert_eq!(seen.get(), 3);
    store.dispatch(Action::AddBookmark(0, 10));
    let r = &store.get_state().readings[&0];
    assert!(r.finished);
    assert_eq!(r.bookmarks.iter().map(|b: &Bookmark| b.page).collect::<Vec<u32>>(), vec![0, 10]);
}

#[test]
fn store_with_a_plain_reducer() {
    let mut store = Store::create_store(|s: &u32, a: u32| s + a, 1u32);
    store.subscribe(|_: &u32| {});
    store.dispatch(4);
    store.dispatch(5);
    assert_eq!(*store.get_state(), 10);
}

#[test]
fn new_state_is_empty() {
    let s = State::new();
    assert!(s.readings.is_empty());
    assert!(s.outputs.is_empty());
}

#[test]
fn dispatches_fold_the_reducer_over_the_actions() {
    let mut store = Store::create_store(|s: &u32, a: u32| s * 2 + a, 1u32);
    store.dispatch(3);
    store.subscribe(|_: &u32| {});
    store.dispatch(0);
    store.dispatch(7);
    let expected = [3u32, 0, 7].iter().fold(1u32, |s, a| s * 2 + a);
    assert_eq!(*store.get_state(), expected);
    assert_eq!(expected, 27);
}

#[test]
fn every_listener_sees_the_new_state() {
    let first = Cell::new(0u32);
    let second = Cell::new(0u32);
    let mut store = Store::create_store(|s: &u32, a: u32| s + a, 0u32);
    let tell_first = |s: &u32| first.set(*s);
    let tell_second = |s: &u32| second.set(*s);
    let listeners: [&dyn Fn(&u32); 2] = [&tell_first, &tell_second];
    store.subscribe(listeners[0]);
    store.subscribe(listeners[1]);
    store.dispatch(5);
    assert_eq!((first.get(), second.get()), (5, 5));
    store.dispatch(2);
    assert_eq!((first.get(), second.get()), (7, 7));
}
