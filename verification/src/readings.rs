//! How each action changes the readings, and what it has to show.
use vstd::prelude::*;
use crate::actions::{Action, ActionView};
use crate::commands::{is_u32, spec_u32};
use crate::clock::now;
use crate::structs::{copy_bookmarks, library, Bookmark, Reading, ReadingView, Readings, Timestamp};
use crate::text::{parse_u32, same_text};
use crate::views::{
    active_since, all_bookmarked, bookmarked_countable, every_bookmarked_countable, all_countable, by_title, current_books, entry_views, has_open,
    in_progress_count, increasing, is_oldest, listed_by, listing, lists, matches_query,
    nth_in_progress, oldest_reading, pages_since, pages_total, random_reading, reading_stats,
    shelf_keeps, shelve, sum_since, views_of, Shelf, count_in_progress, every_bookmarked,
    every_countable, ids_of, stats_fit, stats_total_fits,
};

verus! {

broadcast use vstd::std_specs::hash::group_hash_axioms;

/// A line of text that an action reports.
#[derive(Clone, Copy, Debug, PartialEq, Eq, Structural)]
pub enum Notice {
    /// "Loading data..."
    LoadingData,
    /// "Adding reading..."
    AddingReading,
    /// "reading Property Does Not Exist"
    NoSuchProperty,
    /// "reading does not exist"
    NoSuchReading,
    /// "Did you go back in time?"
    BackInTime,
    /// "Reading removed"
    ReadingRemoved,
    /// "reading ID does not exist"
    NoSuchReadingId,
    /// "You're already at page zero."
    AlreadyAtPageZero,
    /// "Reading bookmarks reset"
    BookmarksReset,
    /// "Reading ID does not exist"
    UnknownReadingId,
    /// "Saving readings..."
    SavingReadings,
    /// "You haven't added any readings yet"
    NoReadingsYet,
    /// "Not a valid filter keyword. Must use one of [all|reading|unread]"
    InvalidFilter,
}

/// Something an action has to show or do outside the log.
#[derive(Debug)]
pub enum Output {
    Notice(Notice),
    /// The search for this keyword starts.
    Searching(String),
    /// No reading has this id.
    MissingId(u32),
    /// Show this reading in full.
    Reading(Reading),
    /// Show these bookmarks.
    Bookmarks(Vec<Bookmark>),
    /// Show these readings in full under the library header.
    Library(Vec<Reading>),
    /// Show these readings under the library header, and how many.
    Completion(Vec<Reading>),
    /// Show these readings with the pages read in the span, and the total.
    Stats(Vec<(Reading, u32)>, u32),
    /// Show these readings in short.
    CurrentBooks(Vec<Reading>),
    /// Show the pages read over the given number of days, per day.
    Average(u64, u32),
    /// Write the readings to the store file.
    Save,
}

/// The mathematical content of an `Output`.
pub enum OutputView {
    Notice(Notice),
    Searching(Seq<char>),
    MissingId(u32),
    Reading(ReadingView),
    Bookmarks(Seq<Bookmark>),
    Library(Seq<ReadingView>),
    Completion(Seq<ReadingView>),
    Stats(Seq<ReadingView>, Seq<u32>, u32),
    CurrentBooks(Seq<ReadingView>),
    Average(u64, u32),
    Save,
}

impl View for Output {
    type V = OutputView;

    open spec fn view(&self) -> OutputView {
        match self {
            Output::Notice(n) => OutputView::Notice(*n),
            Output::Searching(q) => OutputView::Searching(q@),
            Output::MissingId(id) => OutputView::MissingId(*id),
            Output::Reading(r) => OutputView::Reading(r@),
            Output::Bookmarks(b) => OutputView::Bookmarks(b@),
            Output::Library(v) => OutputView::Library(views_of(v@)),
            Output::Completion(v) => OutputView::Completion(views_of(v@)),
            Output::Stats(v, total) => OutputView::Stats(
                entry_views(v@),
                v@.map_values(|e: (Reading, u32)| e.1),
                *total,
            ),
            Output::CurrentBooks(v) => OutputView::CurrentBooks(views_of(v@)),
            Output::Average(total, days) => OutputView::Average(*total, *days),
            Output::Save => OutputView::Save,
        }
    }
}

/// The views of a sequence of outputs.
pub open spec fn outputs_view(v: Seq<Output>) -> Seq<OutputView> {
    v.map_values(|o: Output| o@)
}

/// `r` is a new reading with id `id`, the given title, author and page
/// count, neither finished nor deleted, one bookmark at page 0 and no
/// earlier runs.
pub open spec fn fresh(r: ReadingView, id: u32, title: Seq<char>, author: Seq<char>, pages: u32) -> bool {
    &&& r.id == id
    &&& r.title == title
    &&& r.author == author
    &&& r.pages == pages
    &&& !r.deleted
    &&& !r.finished
    &&& r.bookmarks.len() == 1
    &&& r.bookmarks[0].page == 0
    &&& r.previous.len() == 0
}

/// `r` with the given author.
pub open spec fn with_author(r: ReadingView, author: Seq<char>) -> ReadingView {
    ReadingView { author, ..r }
}

/// `r` with the given title.
pub open spec fn with_title(r: ReadingView, title: Seq<char>) -> ReadingView {
    ReadingView { title, ..r }
}

/// `r` with the given page count.
pub open spec fn with_pages(r: ReadingView, pages: u32) -> ReadingView {
    ReadingView { pages, ..r }
}

/// `r` marked finished.
pub open spec fn finished(r: ReadingView) -> ReadingView {
    ReadingView { finished: true, ..r }
}

/// `r` marked deleted.
pub open spec fn deleted(r: ReadingView) -> ReadingView {
    ReadingView { deleted: true, ..r }
}

/// `r` without its last bookmark (unchanged when it has none).
pub open spec fn undone(r: ReadingView) -> ReadingView {
    if r.bookmarks.len() > 0 {
        ReadingView { bookmarks: r.bookmarks.drop_last(), ..r }
    } else {
        r
    }
}

/// `r2` is `r` with one more bookmark, at `page`, and finished when that
/// is the last page.
pub open spec fn bookmarked(r: ReadingView, r2: ReadingView, page: u32) -> bool {
    &&& r2 == ReadingView { bookmarks: r2.bookmarks, finished: r.finished || page == r.pages, ..r }
    &&& r2.bookmarks.len() == r.bookmarks.len() + 1
    &&& r2.bookmarks.drop_last() == r.bookmarks
    &&& r2.bookmarks.last().page == page
}

/// `r2` is `r` started over: its bookmarks put aside as an earlier run and
/// a single bookmark at page 0 in their place.
pub open spec fn restarted(r: ReadingView, r2: ReadingView) -> bool {
    &&& r2 == ReadingView { bookmarks: r2.bookmarks, previous: r.previous.push(r.bookmarks), ..r }
    &&& r2.bookmarks.len() == 1
    &&& r2.bookmarks[0].page == 0
}

/// Whether the action `a` can be applied to `m` without failing: a page
/// count that is edited is a number, a reading that gets a bookmark has
/// one already, and the listings that look at last bookmarks or count
/// pages find what they need.
pub open spec fn reducible(m: Map<u32, ReadingView>, a: ActionView) -> bool {
    match a {
        ActionView::EditReading(id, prop, edit) => m.contains_key(id) && prop == "pages"@ ==> is_u32(edit),
        ActionView::AddBookmark(id, _) => m.contains_key(id) ==> m[id].bookmarks.len() > 0,
        ActionView::ReadRandom => all_bookmarked(m) && in_progress_count(m) >= 1,
        ActionView::ShowFilter(f) => f == "unread"@ || f == "reading"@ ==> all_bookmarked(m),
        ActionView::CurrentlyReading(t) => all_countable(m, t),
        ActionView::ShowAverage(_, t) => bookmarked_countable(m, t),
        ActionView::GetStats(t) => all_countable(m, t) && stats_total_fits(m, t),
        ActionView::ShowFinished => all_bookmarked(m),
        ActionView::ShowUnfinished => all_bookmarked(m),
        ActionView::ShowOldestRead => all_bookmarked(m),
        _ => true,
    }
}

/// Whether, applied to the readings `m`, the action `a` may leave the
/// readings `n` and show `out`.
pub open spec fn reduced(m: Map<u32, ReadingView>, a: ActionView, n: Map<u32, ReadingView>, out: Seq<OutputView>) -> bool {
    match a {
        ActionView::LoadData(data) => n == data && out == seq![OutputView::Notice(Notice::LoadingData)],
        ActionView::SaveData => n == m && out == seq![OutputView::Notice(Notice::SavingReadings), OutputView::Save],
        ActionView::AddReading(title, author, pages) => {
            let id = m.len() as u32;
            &&& out == seq![OutputView::Notice(Notice::AddingReading)]
            &&& n.dom() == m.dom().insert(id)
            &&& fresh(n[id], id, title, author, pages)
            &&& forall|k: u32| #[trigger] m.contains_key(k) && k != id ==> n[k] == m[k]
        },
        ActionView::EditReading(id, prop, edit) => if m.contains_key(id) {
            if prop == "author"@ {
                n == m.insert(id, with_author(m[id], edit)) && out == Seq::<OutputView>::empty()
            } else if prop == "title"@ {
                n == m.insert(id, with_title(m[id], edit)) && out == Seq::<OutputView>::empty()
            } else if prop == "pages"@ {
                n == m.insert(id, with_pages(m[id], spec_u32(edit))) && out == Seq::<OutputView>::empty()
            } else {
                n == m && out == seq![OutputView::Notice(Notice::NoSuchProperty)]
            }
        } else {
            n == m && out == Seq::<OutputView>::empty()
        },
        ActionView::FinishReading(id) => if m.contains_key(id) {
            n == m.insert(id, finished(m[id])) && out == Seq::<OutputView>::empty()
        } else {
            n == m && out == seq![OutputView::Notice(Notice::NoSuchReading)]
        },
        ActionView::AddBookmark(id, page) => if m.contains_key(id) {
            let r = m[id];
            if r.bookmarks.last().page < page && page <= r.pages {
                &&& n.dom() == m.dom()
                &&& bookmarked(r, n[id], page)
                &&& forall|k: u32| #[trigger] m.contains_key(k) && k != id ==> n[k] == m[k]
                &&& out == seq![OutputView::Reading(n[id])]
            } else {
                n == m && out == seq![OutputView::Notice(Notice::BackInTime)]
            }
        } else {
            n == m && out == seq![OutputView::Notice(Notice::NoSuchReading)]
        },
        ActionView::ShowBookmarks(id) => n == m && if m.contains_key(id) {
            out == seq![OutputView::Bookmarks(m[id].bookmarks)]
        } else {
            out == seq![OutputView::Notice(Notice::NoSuchReading)]
        },
        ActionView::UndoBookmark(id) => if m.contains_key(id) {
            n == m.insert(id, undone(m[id])) && out == Seq::<OutputView>::empty()
        } else {
            n == m && out == seq![OutputView::Notice(Notice::NoSuchReading)]
        },
        ActionView::RemoveReading(id) => if m.contains_key(id) {
            n == m.insert(id, deleted(m[id])) && out == seq![OutputView::Notice(Notice::ReadingRemoved)]
        } else {
            n == m && out == seq![OutputView::Notice(Notice::NoSuchReadingId)]
        },
        ActionView::ResetReading(id) => if m.contains_key(id) {
            if m[id].bookmarks.len() == 1 {
                n == m && out == seq![OutputView::Notice(Notice::AlreadyAtPageZero)]
            } else {
                &&& n.dom() == m.dom()
                &&& restarted(m[id], n[id])
                &&& forall|k: u32| #[trigger] m.contains_key(k) && k != id ==> n[k] == m[k]
                &&& out == seq![OutputView::Notice(Notice::BookmarksReset)]
            }
        } else {
            n == m && out == seq![OutputView::Notice(Notice::UnknownReadingId)]
        },
        ActionView::ReadRandom => {
            &&& n == m
            &&& out.len() == 1
            &&& out[0] matches OutputView::Reading(x)
            &&& exists|i: int| #[trigger] nth_in_progress(m, i, x)
        },
        ActionView::ShowFilter(f) => n == m && if f == "all"@ {
            &&& out.len() == 1
            &&& out[0] matches OutputView::Library(v)
            &&& exists|ids: Seq<u32>| #[trigger] increasing(ids) && listed_by(m, |r: ReadingView| shelf_keeps(Shelf::Present, r), v, ids)
        } else if f == "reading"@ {
            &&& out.len() == 1
            &&& out[0] matches OutputView::Library(v)
            &&& lists(m, |r: ReadingView| shelf_keeps(Shelf::Started, r), v)
        } else if f == "unread"@ {
            &&& out.len() == 1
            &&& out[0] matches OutputView::Library(v)
            &&& lists(m, |r: ReadingView| shelf_keeps(Shelf::Unread, r), v)
        } else {
            out == seq![OutputView::Notice(Notice::InvalidFilter)]
        },
        ActionView::SearchKeyword(q) => n == m && out.len() >= 1 && out[0] == OutputView::Searching(q)
            && (forall|i: int| 1 <= i < out.len() ==> #[trigger] out[i] is Reading)
            && lists(m, |r: ReadingView| matches_query(r, q), out.drop_first().map_values(|o: OutputView| o->Reading_0)),
        ActionView::CurrentlyReading(t) => {
            &&& n == m
            &&& out.len() == 1
            &&& out[0] matches OutputView::CurrentBooks(v)
            &&& lists(m, |r: ReadingView| active_since(r, t), v)
            &&& by_title(v)
        },
        ActionView::GetStats(t) => {
            &&& n == m
            &&& out.len() == 1
            &&& out[0] matches OutputView::Stats(v, counts, total)
            &&& lists(m, |r: ReadingView| active_since(r, t), v)
            &&& counts.len() == v.len()
            &&& forall|i: int| 0 <= i < v.len() ==> counts[i] == pages_since(v[i].bookmarks, t)
            &&& forall|all: Seq<u32>| #[trigger] all.to_set() == m.dom() && all.no_duplicates() ==> total == sum_since(m, all, t)
        },
        ActionView::ShowAverage(days, t) => {
            &&& n == m
            &&& out.len() == 1
            &&& out[0] matches OutputView::Average(total, d)
            &&& d == days
            &&& forall|all: Seq<u32>| #[trigger] all.to_set() == m.dom() && all.no_duplicates() ==> total == sum_since(m, all, t)
        },
        ActionView::FindByID(id) => n == m && if m.contains_key(id) {
            out == seq![OutputView::Reading(m[id])]
        } else {
            out == seq![OutputView::MissingId(id)]
        },
        ActionView::ShowFinished => {
            &&& n == m
            &&& out.len() == 1
            &&& out[0] matches OutputView::Completion(v)
            &&& lists(m, |r: ReadingView| shelf_keeps(Shelf::Completed(true), r), v)
        },
        ActionView::ShowUnfinished => {
            &&& n == m
            &&& out.len() == 1
            &&& out[0] matches OutputView::Completion(v)
            &&& lists(m, |r: ReadingView| shelf_keeps(Shelf::Completed(false), r), v)
        },
        ActionView::ShowOldestRead => n == m && if m.len() > 0 {
            if has_open(m) {
                &&& out.len() == 1
                &&& out[0] matches OutputView::Reading(x)
                &&& is_oldest(m, x)
            } else {
                out == Seq::<OutputView>::empty()
            }
        } else {
            out == seq![OutputView::Notice(Notice::NoReadingsYet)]
        },
        ActionView::ShowWeeklyChart => n == m && out == Seq::<OutputView>::empty(),
    }
}

/// Puts `r` under `id`.
fn put(state: &mut Readings, id: u32, r: Reading)
    ensures
        library(*final(state)) == library(*old(state)).insert(id, r@),
{
    let ghost r_view = r@;
    state.insert(id, r);
    assert(library(*state) =~= library(*old(state)).insert(id, r_view));
}

/// A copy of the readings.
fn copy_readings(state: &Readings) -> (r: Readings)
    ensures
        library(r) == library(*state),
{
    let ks = ids_of(state);
    let mut r: Readings = std::collections::HashMap::new();
    let mut i: usize = 0;
    while i < ks.len()
        invariant
            ks@.to_set() == state@.dom(),
            i <= ks.len(),
            library(r) == library(*state).restrict(ks@.take(i as int).to_set()),
        decreases ks.len() - i,
    {
        let k = ks[i];
        assert(ks@.to_set().contains(k));
        let x = state.get(&k).unwrap();
        put(&mut r, k, x.copy());
        proof {
            assert(ks@.take(i + 1) =~= ks@.take(i as int).push(k));
            ks@.take(i as int).lemma_push_to_set_commute(k);
            assert(library(r) =~= library(*state).restrict(ks@.take(i + 1).to_set()));
        }
        i = i + 1;
    }
    assert(ks@.take(ks.len() as int) =~= ks@);
    assert(library(r) =~= library(*state));
    r
}

/// The outputs that show each of `v` in full.
fn show_each(v: &Vec<Reading>) -> (out: Vec<Output>)
    ensures
        out@.len() == v@.len(),
        forall|i: int| 0 <= i < v@.len() ==> (#[trigger] outputs_view(out@)[i]) == OutputView::Reading(v@[i]@),
{
    let mut out: Vec<Output> = Vec::new();
    let mut i: usize = 0;
    while i < v.len()
        invariant
            i <= v.len(),
            out@.len() == i,
            forall|j: int| 0 <= j < i ==> (#[trigger] outputs_view(out@)[j]) == OutputView::Reading(v@[j]@),
        decreases v.len() - i,
    {
        let ghost before = out@;
        out.push(Output::Reading(v[i].copy()));
        assert(outputs_view(out@) =~= outputs_view(before).push(OutputView::Reading(v@[i as int]@)));
        i = i + 1;
    }
    out
}


/// Whether every bookmark that the action `a` creates, applied to `m` with
/// `n` as the result, is dated `t`: the first bookmark of a reading it adds
/// or starts over, and the bookmark it appends.
pub open spec fn dated(m: Map<u32, ReadingView>, a: ActionView, n: Map<u32, ReadingView>, t: Timestamp) -> bool {
    match a {
        ActionView::AddReading(_, _, _) => n[m.len() as u32].bookmarks[0].date == t,
        ActionView::AddBookmark(id, page) => m.contains_key(id) && m[id].bookmarks.last().page < page && page <= m[id].pages
            ==> n[id].bookmarks.last().date == t,
        ActionView::ResetReading(id) => m.contains_key(id) && m[id].bookmarks.len() != 1 ==> n[id].bookmarks[0].date == t,
        _ => true,
    }
}

/// Whether, applied to `m` when the clock reads `t`, the action `a` may
/// leave `n` and show `out`.
pub open spec fn reduced_at(m: Map<u32, ReadingView>, a: ActionView, n: Map<u32, ReadingView>, out: Seq<OutputView>, t: Timestamp) -> bool {
    reduced(m, a, n, out) && dated(m, a, n, t)
}

/// The readings and outputs of an action.
pub type Step = (Readings, Vec<Output>);

/// Whether `s` is what applying `a` to `state` may give.
pub open spec fn step_of(state: Readings, a: ActionView, s: Step) -> bool {
    reduced(library(state), a, library(s.0), outputs_view(s.1@))
}

/// Whether `s` is what applying `a` to `state` gives when the clock reads
/// `t`.
pub open spec fn step_at(state: Readings, a: ActionView, s: Step, t: Timestamp) -> bool {
    reduced_at(library(state), a, library(s.0), outputs_view(s.1@), t)
}

fn unchanged(state: &Readings, out: Vec<Output>) -> (s: Step)
    ensures
        library(s.0) == library(*state),
        s.1@ == out@,
{
    (copy_readings(state), out)
}

fn silent() -> (out: Vec<Output>)
    ensures
        outputs_view(out@) == Seq::<OutputView>::empty(),
{
    let out: Vec<Output> = Vec::new();
    assert(outputs_view(out@) =~= Seq::<OutputView>::empty());
    out
}

fn notice(n: Notice) -> (out: Vec<Output>)
    ensures
        outputs_view(out@) == seq![OutputView::Notice(n)],
{
    let mut out: Vec<Output> = Vec::new();
    out.push(Output::Notice(n));
    assert(outputs_view(out@) =~= seq![OutputView::Notice(n)]);
    out
}

fn add_reading_step(state: &Readings, title: &String, author: &String, pages: u32, now: Timestamp) -> (s: Step)
    ensures
        step_at(*state, ActionView::AddReading(title@, author@, pages), s, now),
{
    let mut new_state = copy_readings(state);
    assert(library(*state).dom() =~= state@.dom());
    assert(library(new_state).dom() =~= new_state@.dom());
    let id = new_state.len() as u32;
    let reading = Reading::started_at(id, title.clone(), author.clone(), pages, now);
    put(&mut new_state, id, reading);
    (new_state, notice(Notice::AddingReading))
}

fn edit_reading_step(state: &Readings, id: u32, prop: &String, edit: &String) -> (s: Step)
    requires
        reducible(library(*state), ActionView::EditReading(id, prop@, edit@)),
    ensures
        step_of(*state, ActionView::EditReading(id, prop@, edit@), s),
{
    let mut new_state = copy_readings(state);
    match state.get(&id) {
        Some(reading) => {
            let mut r = reading.copy();
            if same_text(prop.as_str(), "author") {
                r.author = edit.clone();
                put(&mut new_state, id, r);
                (new_state, silent())
            } else if same_text(prop.as_str(), "title") {
                r.title = edit.clone();
                put(&mut new_state, id, r);
                (new_state, silent())
            } else if same_text(prop.as_str(), "pages") {
                r.pages = parse_u32(edit.as_str()).unwrap();
                put(&mut new_state, id, r);
                (new_state, silent())
            } else {
                (new_state, notice(Notice::NoSuchProperty))
            }
        },
        None => (new_state, silent()),
    }
}

fn finish_reading_step(state: &Readings, id: u32) -> (s: Step)
    ensures
        step_of(*state, ActionView::FinishReading(id), s),
{
    let mut new_state = copy_readings(state);
    match state.get(&id) {
        Some(reading) => {
            let mut r = reading.copy();
            r.finished = true;
            put(&mut new_state, id, r);
            (new_state, silent())
        },
        None => (new_state, notice(Notice::NoSuchReading)),
    }
}

fn add_bookmark_step(state: &Readings, id: u32, page: u32, now: Timestamp) -> (s: Step)
    requires
        reducible(library(*state), ActionView::AddBookmark(id, page)),
    ensures
        step_at(*state, ActionView::AddBookmark(id, page), s, now),
{
    let mut new_state = copy_readings(state);
    match state.get(&id) {
        Some(reading) => {
            let last = reading.bookmarks[reading.bookmarks.len() - 1];
            if last.page < page && page <= reading.pages {
                let mut r = reading.copy();
                r.bookmarks.push(Bookmark { page, date: now });
                if page == r.pages {
                    r.finished = true;
                }
                let shown = r.copy();
                put(&mut new_state, id, r);
                let mut out: Vec<Output> = Vec::new();
                out.push(Output::Reading(shown));
                assert(outputs_view(out@) =~= seq![OutputView::Reading(library(new_state)[id])]);
                assert(library(new_state)[id].bookmarks.drop_last() =~= reading@.bookmarks);
                assert(library(new_state).dom() =~= library(*state).dom());
                (new_state, out)
            } else {
                (new_state, notice(Notice::BackInTime))
            }
        },
        None => (new_state, notice(Notice::NoSuchReading)),
    }
}

fn show_bookmarks_step(state: &Readings, id: u32) -> (s: Step)
    ensures
        step_of(*state, ActionView::ShowBookmarks(id), s),
{
    match state.get(&id) {
        Some(reading) => {
            let mut out: Vec<Output> = Vec::new();
            out.push(Output::Bookmarks(copy_bookmarks(&reading.bookmarks)));
            assert(outputs_view(out@) =~= seq![OutputView::Bookmarks(reading@.bookmarks)]);
            unchanged(state, out)
        },
        None => unchanged(state, notice(Notice::NoSuchReading)),
    }
}

fn undo_bookmark_step(state: &Readings, id: u32) -> (s: Step)
    ensures
        step_of(*state, ActionView::UndoBookmark(id), s),
{
    let mut new_state = copy_readings(state);
    match state.get(&id) {
        Some(reading) => {
            let mut r = reading.copy();
            r.bookmarks.pop();
            put(&mut new_state, id, r);
            assert(library(new_state)[id] =~~= undone(reading@));
            (new_state, silent())
        },
        None => (new_state, notice(Notice::NoSuchReading)),
    }
}

fn remove_reading_step(state: &Readings, id: u32) -> (s: Step)
    ensures
        step_of(*state, ActionView::RemoveReading(id), s),
{
    let mut new_state = copy_readings(state);
    match state.get(&id) {
        Some(reading) => {
            let mut r = reading.copy();
            r.deleted = true;
            put(&mut new_state, id, r);
            (new_state, notice(Notice::ReadingRemoved))
        },
        None => (new_state, notice(Notice::NoSuchReadingId)),
    }
}

fn reset_reading_step(state: &Readings, id: u32, now: Timestamp) -> (s: Step)
    ensures
        step_at(*state, ActionView::ResetReading(id), s, now),
{
    let mut new_state = copy_readings(state);
    match state.get(&id) {
        Some(reading) => {
            if reading.bookmarks.len() == 1 {
                (new_state, notice(Notice::AlreadyAtPageZero))
            } else {
                let mut r = reading.copy();
                let ghost before = r.previous@;
                r.previous.push(copy_bookmarks(&reading.bookmarks));
                let mut fresh_start: Vec<Bookmark> = Vec::new();
                fresh_start.push(Bookmark { page: 0, date: now });
                r.bookmarks = fresh_start;
                assert(r@.previous =~= reading@.previous.push(reading@.bookmarks));
                put(&mut new_state, id, r);
                assert(library(new_state).dom() =~= library(*state).dom());
                (new_state, notice(Notice::BookmarksReset))
            }
        },
        None => (new_state, notice(Notice::UnknownReadingId)),
    }
}


fn one(o: Output) -> (out: Vec<Output>)
    ensures
        outputs_view(out@) == seq![o@],
{
    let mut out: Vec<Output> = Vec::new();
    out.push(o);
    assert(outputs_view(out@) =~= seq![out@[0]@]);
    out
}

fn random_step(state: &Readings) -> (s: Step)
    requires
        reducible(library(*state), ActionView::ReadRandom),
    ensures
        step_of(*state, ActionView::ReadRandom, s),
{
    let x = random_reading(state);
    let s = unchanged(state, one(Output::Reading(x)));
    proof {
        let m = library(*state);
        let i = choose|i: int| 0 <= i < in_progress_count(m) && #[trigger] nth_in_progress(m, i, x@);
        let o = outputs_view(s.1@);
        assert(o[0]->Reading_0 == x@);
        assert(o[0] matches OutputView::Reading(y) && exists|j: int| #[trigger] nth_in_progress(m, j, y));
    }
    s
}

fn filter_step(state: &Readings, filter: &String) -> (s: Step)
    requires
        reducible(library(*state), ActionView::ShowFilter(filter@)),
    ensures
        step_of(*state, ActionView::ShowFilter(filter@), s),
{
    if same_text(filter.as_str(), "all") {
        let v = listing(state, &Shelf::Present);
        unchanged(state, one(Output::Library(v)))
    } else if same_text(filter.as_str(), "reading") {
        let v = shelve(state, &Shelf::Started);
        unchanged(state, one(Output::Library(v)))
    } else if same_text(filter.as_str(), "unread") {
        let v = shelve(state, &Shelf::Unread);
        unchanged(state, one(Output::Library(v)))
    } else {
        unchanged(state, notice(Notice::InvalidFilter))
    }
}

fn search_step(state: &Readings, query: &String) -> (s: Step)
    ensures
        step_of(*state, ActionView::SearchKeyword(query@), s),
{
    let shelf = Shelf::Matching(query.clone());
    let found = shelve(state, &shelf);
    proof {
        let a = |r: ReadingView| shelf_keeps(shelf, r);
        let b = |r: ReadingView| matches_query(r, query@);
        assert(a =~= b);
    }
    let mut out = one(Output::Searching(query.clone()));
    let mut shown_each = show_each(&found);
    let ghost head = out@;
    let ghost tail = shown_each@;
    out.append(&mut shown_each);
    proof {
        assert(out@ =~= head + tail);
        assert(outputs_view(head + tail) =~= outputs_view(head) + outputs_view(tail));
        let ov = outputs_view(out@);
        assert(ov.drop_first() =~= outputs_view(tail));
        assert(ov.drop_first().map_values(|o: OutputView| o->Reading_0) =~= views_of(found@));
        assert forall|i: int| 1 <= i < ov.len() implies #[trigger] ov[i] is Reading by {
            assert(ov[i] == outputs_view(tail)[i - 1]);
        }
        assert(ov[0] == OutputView::Searching(query@));
    }
    unchanged(state, out)
}

fn stats_step(state: &Readings, t: i64) -> (s: Step)
    requires
        reducible(library(*state), ActionView::GetStats(t)),
    ensures
        step_of(*state, ActionView::GetStats(t), s),
{
    let (entries, total) = reading_stats(state, t);
    let ghost v = entry_views(entries@);
    let ghost counts = entries@.map_values(|e: (Reading, u32)| e.1);
    assert forall|i: int| 0 <= i < v.len() implies counts[i] == pages_since(v[i].bookmarks, t) by {
        assert(entries@[i].1 == pages_since(entries@[i].0@.bookmarks, t));
    }
    proof {
        let m = library(*state);
        assert(m.dom() =~= state@.dom());
    }
    let out = one(Output::Stats(entries, total));
    unchanged(state, out)
}

fn find_step(state: &Readings, id: u32) -> (s: Step)
    ensures
        step_of(*state, ActionView::FindByID(id), s),
{
    match state.get(&id) {
        Some(reading) => unchanged(state, one(Output::Reading(reading.copy()))),
        None => unchanged(state, one(Output::MissingId(id))),
    }
}

fn oldest_step(state: &Readings) -> (s: Step)
    requires
        reducible(library(*state), ActionView::ShowOldestRead),
    ensures
        step_of(*state, ActionView::ShowOldestRead, s),
{
    assert(library(*state).dom() =~= state@.dom());
    if state.len() > 0 {
        match oldest_reading(state) {
            Some(x) => unchanged(state, one(Output::Reading(x))),
            None => unchanged(state, silent()),
        }
    } else {
        unchanged(state, notice(Notice::NoReadingsYet))
    }
}

/// Applies `action` to the readings: the readings that follow, and what
/// the action has to show or do outside the log. The bookmarks it dates
/// carry one clock reading, taken during the step.
pub fn reducer(state: &Readings, action: &Action) -> (s: Step)
    requires
        reducible(library(*state), action@),
    ensures
        step_of(*state, action@, s),
        exists|t: Timestamp| #[trigger] step_at(*state, action@, s, t),
{
    let t = now();
    reducer_at(state, action, t)
}

/// Applies `action` to the readings when the clock reads `now`: the
/// readings that follow, and what the action has to show or do outside the
/// log. The bookmarks it dates are dated `now`.
pub fn reducer_at(state: &Readings, action: &Action, now: Timestamp) -> (s: Step)
    requires
        reducible(library(*state), action@),
    ensures
        step_at(*state, action@, s, now),
{
    match action {
        Action::LoadData(data) => (copy_readings(data), notice(Notice::LoadingData)),
        Action::SaveData => {
            let mut out = notice(Notice::SavingReadings);
            let ghost before = out@;
            out.push(Output::Save);
            assert(outputs_view(out@) =~= outputs_view(before).push(OutputView::Save));
            assert(outputs_view(out@) =~= seq![OutputView::Notice(Notice::SavingReadings), OutputView::Save]);
            unchanged(state, out)
        },
        Action::ShowWeeklyChart => unchanged(state, silent()),
        Action::AddReading(reading) => add_reading_step(state, &reading.0, &reading.1, reading.2, now),
        Action::EditReading(id, prop, edit) => edit_reading_step(state, *id, prop, edit),
        Action::FinishReading(id) => finish_reading_step(state, *id),
        Action::AddBookmark(id, page) => add_bookmark_step(state, *id, *page, now),
        Action::ShowBookmarks(id) => show_bookmarks_step(state, *id),
        Action::UndoBookmark(id) => undo_bookmark_step(state, *id),
        Action::RemoveReading(id) => remove_reading_step(state, *id),
        Action::ResetReading(id) => reset_reading_step(state, *id, now),
        Action::ReadRandom => random_step(state),
        Action::ShowFilter(filter) => filter_step(state, filter),
        Action::SearchKeyword(query) => search_step(state, query),
        Action::CurrentlyReading(t) => unchanged(state, one(Output::CurrentBooks(current_books(state, *t)))),
        Action::GetStats(t) => stats_step(state, *t),
        Action::ShowAverage(days, t) => {
            proof {
                assert(library(*state).dom() =~= state@.dom());
            }
            unchanged(state, one(Output::Average(pages_total(state, *t), *days)))
        },
        Action::FindByID(id) => find_step(state, *id),
        Action::ShowFinished => unchanged(state, one(Output::Completion(shelve(state, &Shelf::Completed(true))))),
        Action::ShowUnfinished => unchanged(state, one(Output::Completion(shelve(state, &Shelf::Completed(false))))),
        Action::ShowOldestRead => oldest_step(state),
    }
}


/// Whether `action` can be applied to `state` (see `reducible`).
pub fn can_reduce(state: &Readings, action: &Action) -> (b: bool)
    ensures
        b == reducible(library(*state), action@),
{
    match action {
        Action::EditReading(id, prop, edit) => {
            let present = state.get(id).is_some();
            !(present && same_text(prop.as_str(), "pages")) || parse_u32(edit.as_str()).is_some()
        },
        Action::AddBookmark(id, _) => match state.get(id) {
            Some(r) => r.bookmarks.len() > 0,
            None => true,
        },
        Action::ReadRandom => every_bookmarked(state) && count_in_progress(state) >= 1,
        Action::ShowFilter(f) => !(same_text(f.as_str(), "unread") || same_text(f.as_str(), "reading")) || every_bookmarked(state),
        Action::CurrentlyReading(t) => every_countable(state, *t),
        Action::ShowAverage(_, t) => every_bookmarked_countable(state, *t),
        Action::GetStats(t) => every_countable(state, *t) && stats_fit(state, *t),
        Action::ShowFinished => every_bookmarked(state),
        Action::ShowUnfinished => every_bookmarked(state),
        Action::ShowOldestRead => every_bookmarked(state),
        _ => true,
    }
}


/// A reading as stored before earlier runs were kept.
#[derive(Debug)]
pub struct OldReading {
    pub id: u32,
    pub deleted: bool,
    pub finished: bool,
    pub title: String,
    pub author: String,
    pub bookmarks: Vec<Bookmark>,
    pub pages: u32,
}

/// Readings in the older store format, keyed by id.
pub type OldReadings = std::collections::HashMap<u32, OldReading>;

/// The reading that an old reading becomes: the same fields and no
/// earlier runs.
pub open spec fn upgraded(o: OldReading) -> ReadingView {
    ReadingView {
        id: o.id,
        deleted: o.deleted,
        finished: o.finished,
        title: o.title@,
        author: o.author@,
        bookmarks: o.bookmarks@,
        previous: Seq::empty(),
        pages: o.pages,
    }
}

/// Turns readings of the older store format into readings, keyed by the id
/// each carries (when two carry the same id, one of them is kept).
pub fn map_data(parsed: &OldReadings) -> (r: Readings)
    ensures
        forall|k: u32| #[trigger] library(r).contains_key(k) <==> exists|j: u32| #[trigger] parsed@.contains_key(j) && parsed@[j].id == k,
        forall|k: u32| #[trigger] library(r).contains_key(k) ==> exists|j: u32|
            #[trigger] parsed@.contains_key(j) && parsed@[j].id == k && library(r)[k] == upgraded(parsed@[j]),
{
    let mut transformed: Readings = std::collections::HashMap::new();
    let mut keys: Vec<u32> = Vec::new();
    for k in it: parsed.keys()
        invariant
            keys@ == it.seq().take(it.index()).unref(),
            it.seq().unref().to_set() == parsed@.dom(),
            it.index() == it.seq().len() ==> keys@.to_set() == parsed@.dom(),
    {
        keys.push(*k);
        assert(it.index() + 1 == it.seq().len() ==> keys@ =~= it.seq().unref());
    }
    let mut i: usize = 0;
    while i < keys.len()
        invariant
            keys@.to_set() == parsed@.dom(),
            i <= keys.len(),
            forall|k: u32| #[trigger] library(transformed).contains_key(k) <==> exists|j: int|
                0 <= j < i && #[trigger] parsed@[keys@[j]].id == k,
            forall|k: u32| #[trigger] library(transformed).contains_key(k) ==> exists|j: u32|
                #[trigger] parsed@.contains_key(j) && parsed@[j].id == k && library(transformed)[k] == upgraded(parsed@[j]),
        decreases keys.len() - i,
    {
        let key = keys[i];
        assert(keys@.to_set().contains(key));
        let reading = parsed.get(&key).unwrap();
        let new_reading = Reading {
            id: reading.id,
            title: reading.title.clone(),
            author: reading.author.clone(),
            pages: reading.pages,
            deleted: reading.deleted,
            finished: reading.finished,
            bookmarks: copy_bookmarks(&reading.bookmarks),
            previous: Vec::new(),
        };
        assert(*reading == parsed@[key]);
        assert(new_reading@.previous =~= Seq::<Seq<Bookmark>>::empty());
        assert(new_reading@ == upgraded(parsed@[key]));
        let ghost before = library(transformed);
        put(&mut transformed, reading.id, new_reading);
        proof {
            assert forall|k: u32| #[trigger] library(transformed).contains_key(k) <==> exists|j: int|
                0 <= j < i + 1 && #[trigger] parsed@[keys@[j]].id == k by {
                if k == reading.id {
                    assert(parsed@[keys@[i as int]].id == k);
                } else if library(transformed).contains_key(k) {
                    assert(before.contains_key(k));
                } else {
                    if exists|j: int| 0 <= j < i + 1 && #[trigger] parsed@[keys@[j]].id == k {
                        let j = choose|j: int| 0 <= j < i + 1 && #[trigger] parsed@[keys@[j]].id == k;
                        assert(j < i);
                    }
                }
            }
            assert forall|k: u32| #[trigger] library(transformed).contains_key(k) implies exists|j: u32|
                #[trigger] parsed@.contains_key(j) && parsed@[j].id == k && library(transformed)[k] == upgraded(parsed@[j]) by {
                if k == reading.id {
                    assert(parsed@.contains_key(key) && parsed@[key].id == k);
                } else {
                    assert(before.contains_key(k));
                }
            }
        }
        i = i + 1;
    }
    proof {
        assert forall|k: u32| #[trigger] library(transformed).contains_key(k) <==> exists|j: u32|
            #[trigger] parsed@.contains_key(j) && parsed@[j].id == k by {
            if library(transformed).contains_key(k) {
                let j = choose|j: int| 0 <= j < keys@.len() && #[trigger] parsed@[keys@[j]].id == k;
                assert(keys@.to_set().contains(keys@[j]));
            }
            if exists|j: u32| #[trigger] parsed@.contains_key(j) && parsed@[j].id == k {
                let j = choose|j: u32| #[trigger] parsed@.contains_key(j) && parsed@[j].id == k;
                assert(keys@.to_set().contains(j));
                let t = choose|t: int| 0 <= t < keys@.len() && keys@[t] == j;
                assert(parsed@[keys@[t]].id == k);
            }
        }
    }
    transformed
}

} // verus!
