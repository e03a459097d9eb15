//! What can be asked of the log.
use vstd::prelude::*;
use crate::structs::{library, ReadingView, Readings};

verus! {

/// A request to the log.
#[derive(Debug)]
pub enum Action {
    /// Replace every reading by the readings loaded from the store file.
    LoadData(Readings),
    /// Write the readings back to the store file.
    SaveData,
    ShowWeeklyChart,
    /// Title, author and number of pages of a new reading.
    AddReading((String, String, u32)),
    /// Reading id, property name and new value.
    EditReading(u32, String, String),
    FinishReading(u32),
    /// Reading id and page reached.
    AddBookmark(u32, u32),
    ShowBookmarks(u32),
    UndoBookmark(u32),
    RemoveReading(u32),
    ResetReading(u32),
    ReadRandom,
    ShowFilter(String),
    SearchKeyword(String),
    /// Readings read since the given Unix time.
    CurrentlyReading(i64),
    /// Statistics since the given Unix time.
    GetStats(i64),
    /// Pages read over the given number of days, that is since the given
    /// Unix time.
    ShowAverage(u32, i64),
    FindByID(u32),
    ShowFinished,
    ShowOldestRead,
    ShowUnfinished,
}

/// The mathematical content of an `Action`.
pub enum ActionView {
    LoadData(Map<u32, ReadingView>),
    SaveData,
    ShowWeeklyChart,
    AddReading(Seq<char>, Seq<char>, u32),
    EditReading(u32, Seq<char>, Seq<char>),
    FinishReading(u32),
    AddBookmark(u32, u32),
    ShowBookmarks(u32),
    UndoBookmark(u32),
    RemoveReading(u32),
    ResetReading(u32),
    ReadRandom,
    ShowFilter(Seq<char>),
    SearchKeyword(Seq<char>),
    CurrentlyReading(i64),
    GetStats(i64),
    ShowAverage(u32, i64),
    FindByID(u32),
    ShowFinished,
    ShowOldestRead,
    ShowUnfinished,
}

impl View for Action {
    type V = ActionView;

    open spec fn view(&self) -> ActionView {
        match self {
            Action::LoadData(m) => ActionView::LoadData(library(*m)),
            Action::SaveData => ActionView::SaveData,
            Action::ShowWeeklyChart => ActionView::ShowWeeklyChart,
            Action::AddReading(t) => ActionView::AddReading(t.0@, t.1@, t.2),
            Action::EditReading(id, p, e) => ActionView::EditReading(*id, p@, e@),
            Action::FinishReading(id) => ActionView::FinishReading(*id),
            Action::AddBookmark(id, p) => ActionView::AddBookmark(*id, *p),
            Action::ShowBookmarks(id) => ActionView::ShowBookmarks(*id),
            Action::UndoBookmark(id) => ActionView::UndoBookmark(*id),
            Action::RemoveReading(id) => ActionView::RemoveReading(*id),
            Action::ResetReading(id) => ActionView::ResetReading(*id),
            Action::ReadRandom => ActionView::ReadRandom,
            Action::ShowFilter(f) => ActionView::ShowFilter(f@),
            Action::SearchKeyword(q) => ActionView::SearchKeyword(q@),
            Action::CurrentlyReading(t) => ActionView::CurrentlyReading(*t),
            Action::GetStats(t) => ActionView::GetStats(*t),
            Action::ShowAverage(d, t) => ActionView::ShowAverage(*d, *t),
            Action::FindByID(id) => ActionView::FindByID(*id),
            Action::ShowFinished => ActionView::ShowFinished,
            Action::ShowOldestRead => ActionView::ShowOldestRead,
            Action::ShowUnfinished => ActionView::ShowUnfinished,
        }
    }
}

} // verus!
