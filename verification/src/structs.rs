//! The records of the log: bookmarks and readings.
use std::collections::HashMap;
use vstd::prelude::*;
use crate::clock::now;

verus! {

/// An instant: whole seconds since the Unix epoch and the nanoseconds past
/// that second.
#[derive(Clone, Copy, Debug, PartialEq, Eq, Structural)]
pub struct Timestamp {
    pub secs: i64,
    pub nanos: u32,
}

/// The page a reader had reached, and when.
#[derive(Clone, Copy, Debug, PartialEq, Eq, Structural)]
pub struct Bookmark {
    pub page: u32,
    pub date: Timestamp,
}

/// A book being read, with its bookmarks (oldest first) and the bookmark
/// runs that earlier resets put aside.
#[derive(Clone, Debug)]
pub struct Reading {
    pub id: u32,
    pub deleted: bool,
    pub finished: bool,
    pub title: String,
    pub author: String,
    pub bookmarks: Vec<Bookmark>,
    pub previous: Vec<Vec<Bookmark>>,
    pub pages: u32,
}

/// The mathematical content of a `Reading`.
pub struct ReadingView {
    pub id: u32,
    pub deleted: bool,
    pub finished: bool,
    pub title: Seq<char>,
    pub author: Seq<char>,
    pub bookmarks: Seq<Bookmark>,
    pub previous: Seq<Seq<Bookmark>>,
    pub pages: u32,
}

impl View for Reading {
    type V = ReadingView;

    open spec fn view(&self) -> ReadingView {
        ReadingView {
            id: self.id,
            deleted: self.deleted,
            finished: self.finished,
            title: self.title@,
            author: self.author@,
            bookmarks: self.bookmarks@,
            previous: self.previous@.map_values(|v: Vec<Bookmark>| v@),
            pages: self.pages,
        }
    }
}

/// All readings, keyed by id.
pub type Readings = HashMap<u32, Reading>;

/// The error of a command that cannot be read.
pub type Error = &'static str;

/// The readings of `m` as mathematical values, keyed by id.
pub open spec fn library(m: Readings) -> Map<u32, ReadingView> {
    m@.map_values(|r: Reading| r@)
}

impl Bookmark {
    /// A bookmark at `page`, dated now.
    pub fn new(page: u32) -> (b: Self)
        ensures
            b.page == page,
    {
        Bookmark { page, date: now() }
    }
}

/// A copy of the bookmarks `v`.
pub fn copy_bookmarks(v: &Vec<Bookmark>) -> (r: Vec<Bookmark>)
    ensures
        r@ == v@,
{
    let mut r: Vec<Bookmark> = Vec::new();
    let mut i: usize = 0;
    while i < v.len()
        invariant
            i <= v.len(),
            r@ == v@.subrange(0, i as int),
        decreases v.len() - i,
    {
        r.push(v[i]);
        i = i + 1;
    }
    r
}

impl Reading {
    /// A new reading of `pages` pages, neither finished nor deleted, with a
    /// single bookmark at page 0, dated now, and no earlier runs.
    pub fn new(id: u32, title: String, author: String, pages: u32) -> (r: Self)
        ensures
            r@.id == id,
            r@.title == title@,
            r@.author == author@,
            r@.pages == pages,
            !r@.deleted,
            !r@.finished,
            r@.bookmarks.len() == 1,
            r@.bookmarks[0].page == 0,
            r@.previous.len() == 0,
    {
        Reading::started_at(id, title, author, pages, now())
    }

    /// A new reading of `pages` pages, neither finished nor deleted, with a
    /// single bookmark at page 0 dated `date`, and no earlier runs.
    pub fn started_at(id: u32, title: String, author: String, pages: u32, date: Timestamp) -> (r: Self)
        ensures
            r@.id == id,
            r@.title == title@,
            r@.author == author@,
            r@.pages == pages,
            !r@.deleted,
            !r@.finished,
            r@.bookmarks == seq![Bookmark { page: 0, date }],
            r@.previous.len() == 0,
    {
        let mut bookmarks: Vec<Bookmark> = Vec::new();
        bookmarks.push(Bookmark { page: 0, date });
        assert(bookmarks@ =~= seq![Bookmark { page: 0, date }]);
        Reading { id, title, author, pages, deleted: false, finished: false, bookmarks, previous: Vec::new() }
    }

    /// A copy of this reading.
    pub fn copy(&self) -> (r: Self)
        ensures
            r@ == self@,
    {
        let mut previous: Vec<Vec<Bookmark>> = Vec::new();
        let mut i: usize = 0;
        while i < self.previous.len()
            invariant
                i <= self.previous.len(),
                previous@.len() == i,
                forall|j: int| 0 <= j < i ==> (#[trigger] previous@[j])@ == self.previous@[j]@,
            decreases self.previous.len() - i,
        {
            previous.push(copy_bookmarks(&self.previous[i]));
            i = i + 1;
        }
        assert(previous@.map_values(|v: Vec<Bookmark>| v@) =~= self.previous@.map_values(|v: Vec<Bookmark>| v@));
        Reading {
            id: self.id,
            deleted: self.deleted,
            finished: self.finished,
            title: self.title.clone(),
            author: self.author.clone(),
            bookmarks: copy_bookmarks(&self.bookmarks),
            previous,
            pages: self.pages,
        }
    }
}

} // verus!
