//! The commands of the command line: each reads its parameters from the
//! parser and makes the action it stands for.
use vstd::prelude::*;
use crate::actions::{Action, ActionView};
use crate::parser::{not_recognized, Parser};
use crate::structs::Error;
use crate::text::{lowercase, parse_u32, parse_u64, parse_unsigned, same_text, to_lower};

verus! {

/// A command's outcome as mathematical values: the action or the error text,
/// and how many parameters it took from the parser.
pub type CommandView = (Result<ActionView, Seq<char>>, nat);

/// The view of a command's result.
pub open spec fn outcome(r: Result<Action, Error>) -> Result<ActionView, Seq<char>> {
    match r {
        Ok(a) => Ok(a@),
        Err(e) => Err(e@),
    }
}

/// The `u32` that `s` spells (meaningful where `parse_unsigned` accepts it).
pub open spec fn spec_u32(s: Seq<char>) -> u32 {
    parse_unsigned(s, u32::MAX as nat)->0 as u32
}

/// Whether `s` spells a `u32`.
pub open spec fn is_u32(s: Seq<char>) -> bool {
    parse_unsigned(s, u32::MAX as nat) is Some
}

/// The text of the error for a bad id parameter.
pub open spec fn invalid_id() -> Seq<char> {
    "Invalid ID parameter was supplied"@
}

/// The text of the error for an id that is not a number.
pub open spec fn id_not_integer() -> Seq<char> {
    "Parse Error: ID provided was not in integer format"@
}

/// Whether a command's result `r` and the parser positions before and after
/// it are those of the command outcome `c`.
pub open spec fn reads(r: Result<Action, Error>, before: int, after: int, c: CommandView) -> bool {
    outcome(r) == c.0 && after == before + c.1
}

/// `add @title @author @pages`.
pub open spec fn spec_add_reading(rest: Seq<Seq<char>>) -> CommandView {
    if rest.len() >= 3 {
        (Ok(ActionView::AddReading(rest[0], rest[1], spec_u32(rest[2]))), 3)
    } else {
        (Err(not_recognized()), rest.len())
    }
}

/// `edit @id @property @value`.
pub open spec fn spec_edit_reading(rest: Seq<Seq<char>>) -> CommandView {
    if rest.len() >= 3 {
        (Ok(ActionView::EditReading(spec_u32(rest[0]), rest[1], rest[2])), 3)
    } else {
        (Err(not_recognized()), rest.len())
    }
}

/// A command whose single parameter is an id that must be a number.
pub open spec fn spec_id_command(rest: Seq<Seq<char>>, make: spec_fn(u32) -> ActionView) -> CommandView {
    if rest.len() >= 1 {
        (Ok(make(spec_u32(rest[0]))), 1)
    } else {
        (Err(not_recognized()), 0)
    }
}

/// A command whose single parameter is a number; `bad` is the error when it
/// is not one.
pub open spec fn spec_checked_command(
    rest: Seq<Seq<char>>,
    make: spec_fn(u32) -> ActionView,
    bad: Seq<char>,
) -> CommandView {
    if rest.len() >= 1 {
        if is_u32(rest[0]) {
            (Ok(make(spec_u32(rest[0]))), 1)
        } else {
            (Err(bad), 1)
        }
    } else {
        (Err(not_recognized()), 0)
    }
}

/// `bookmark @id @page`.
pub open spec fn spec_add_bookmark(rest: Seq<Seq<char>>) -> CommandView {
    if rest.len() >= 2 {
        (Ok(ActionView::AddBookmark(spec_u32(rest[0]), spec_u32(rest[1]))), 2)
    } else {
        (Err(not_recognized()), rest.len())
    }
}

/// A command whose single parameter is taken as text.
pub open spec fn spec_text_command(rest: Seq<Seq<char>>, make: spec_fn(Seq<char>) -> ActionView) -> CommandView {
    if rest.len() >= 1 {
        (Ok(make(rest[0])), 1)
    } else {
        (Err(not_recognized()), 0)
    }
}

/// The Unix time `days` days before `clock`, with the arithmetic of a
/// release build (it wraps on overflow).
pub open spec fn days_before(clock: i64, days: i64) -> i64 {
    clock.wrapping_sub(86400i64.wrapping_mul(days))
}

/// `current @days`, the clock reading `clock`.
pub open spec fn spec_currently_reading(rest: Seq<Seq<char>>, clock: i64) -> CommandView {
    if rest.len() >= 1 {
        match parse_unsigned(rest[0], u64::MAX as nat) {
            Some(n) => (Ok(ActionView::CurrentlyReading(days_before(clock, n as u64 as i64))), 1),
            None => (Err("Invalid time span parameter was supplied"@), 1),
        }
    } else {
        (Err(not_recognized()), 0)
    }
}

/// The start of the span that `span` names, the clock reading `clock`.
pub open spec fn stats_start(span: Seq<char>, clock: i64) -> Option<i64> {
    if span == "day"@ {
        Some(clock.wrapping_sub(86400))
    } else if span == "week"@ {
        Some(days_before(clock, 7))
    } else if span == "biweek"@ {
        Some(days_before(clock, 14))
    } else if span == "month"@ {
        Some(days_before(clock, 30))
    } else if span == "yeartodate"@ || span == "all"@ {
        Some(0)
    } else {
        match parse_unsigned(span, u64::MAX as nat) {
            Some(n) => Some(days_before(clock, n as u64 as i64)),
            None => None,
        }
    }
}

/// `stats @span`, the clock reading `clock`.
pub open spec fn spec_get_stats(rest: Seq<Seq<char>>, clock: i64) -> CommandView {
    if rest.len() >= 1 {
        match stats_start(rest[0], clock) {
            Some(t) => (Ok(ActionView::GetStats(t)), 1),
            None => (Err("Invalid span parameter was supplied"@), 1),
        }
    } else {
        (Err(not_recognized()), 0)
    }
}

/// Reads `add @title @author @pages` and makes the action that adds the
/// reading.
pub fn add_reading(parser: &mut Parser) -> (r: Result<Action, Error>)
    requires
        old(parser).rest().len() >= 3 ==> is_u32(old(parser).rest()[2]),
    ensures
        final(parser).words() == old(parser).words(),
        reads(r, old(parser).position(), final(parser).position(), spec_add_reading(old(parser).rest())),
{
    let title = parser.next()?;
    let author = parser.next()?;
    let pages = parser.next()?;
    let n = parse_u32(pages);
    Ok(Action::AddReading((title.to_string(), author.to_string(), n.unwrap())))
}


/// Reads `edit @id @property @value` and makes the action that edits the
/// reading.
pub fn edit_reading(parser: &mut Parser) -> (r: Result<Action, Error>)
    requires
        old(parser).rest().len() >= 1 ==> is_u32(old(parser).rest()[0]),
    ensures
        final(parser).words() == old(parser).words(),
        reads(r, old(parser).position(), final(parser).position(), spec_edit_reading(old(parser).rest())),
{
    let reading = parse_u32(parser.next()?).unwrap();
    let prop = parser.next()?;
    let edit = parser.next()?;
    Ok(Action::EditReading(reading, prop.to_string(), edit.to_string()))
}

/// Reads `current @days` and makes the action that lists the readings read
/// in the last `days` days, counted back from the clock.
pub fn currently_reading(parser: &mut Parser) -> (r: Result<Action, Error>)
    ensures
        final(parser).words() == old(parser).words(),
        exists|clock: i64|
            #[trigger] reads(r, old(parser).position(), final(parser).position(), spec_currently_reading(old(parser).rest(), clock)),
        reads(r, old(parser).position(), final(parser).position(), spec_currently_reading(old(parser).rest(), final(parser).clock_reading().secs)),
{
    let span = match parser.next() {
        Ok(w) => w,
        Err(e) => {
            let r = Err(e);
            assert(reads(r, old(parser).position(), parser.position(), spec_currently_reading(old(parser).rest(), 0)));
            assert(reads(r, old(parser).position(), parser.position(), spec_currently_reading(old(parser).rest(), parser.clock_reading().secs)));
            return r;
        },
    };
    let current_time = parser.read_clock();
    let r = currently_reading_since(span, current_time.secs);
    assert(reads(r, old(parser).position(), parser.position(), spec_currently_reading(old(parser).rest(), current_time.secs)));
    r
}

/// The action of `current @span` when the clock reads `clock` seconds.
pub fn currently_reading_since(span: &str, clock: i64) -> (r: Result<Action, Error>)
    ensures
        outcome(r) == spec_currently_reading(seq![span@], clock).0,
{
    match parse_u64(span) {
        Some(number) => Ok(Action::CurrentlyReading(clock.wrapping_sub(86400i64.wrapping_mul(number as i64)))),
        None => Err("Invalid time span parameter was supplied"),
    }
}

/// Reads `finish @id` and makes the action that marks the reading finished.
pub fn finish_reading(parser: &mut Parser) -> (r: Result<Action, Error>)
    requires
        old(parser).rest().len() >= 1 ==> is_u32(old(parser).rest()[0]),
    ensures
        final(parser).words() == old(parser).words(),
        reads(r, old(parser).position(), final(parser).position(), spec_id_command(old(parser).rest(), |id: u32| ActionView::FinishReading(id))),
{
    let reading = parse_u32(parser.next()?).unwrap();
    Ok(Action::FinishReading(reading))
}

/// Reads `undo @id` and makes the action that drops the reading's last
/// bookmark.
pub fn undo_bookmark(parser: &mut Parser) -> (r: Result<Action, Error>)
    requires
        old(parser).rest().len() >= 1 ==> is_u32(old(parser).rest()[0]),
    ensures
        final(parser).words() == old(parser).words(),
        reads(r, old(parser).position(), final(parser).position(), spec_id_command(old(parser).rest(), |id: u32| ActionView::UndoBookmark(id))),
{
    let reading = parse_u32(parser.next()?).unwrap();
    Ok(Action::UndoBookmark(reading))
}

/// Reads `rm @id` and makes the action that marks the reading deleted.
pub fn remove_reading(parser: &mut Parser) -> (r: Result<Action, Error>)
    ensures
        final(parser).words() == old(parser).words(),
        reads(r, old(parser).position(), final(parser).position(), spec_checked_command(old(parser).rest(), |id: u32| ActionView::RemoveReading(id), invalid_id())),
{
    let reading = parser.next()?;
    if let Some(id) = parse_u32(reading) {
        Ok(Action::RemoveReading(id))
    } else {
        Err("Invalid ID parameter was supplied")
    }
}

/// Reads `reset @id` and makes the action that starts the reading over.
pub fn reset_reading(parser: &mut Parser) -> (r: Result<Action, Error>)
    ensures
        final(parser).words() == old(parser).words(),
        reads(r, old(parser).position(), final(parser).position(), spec_checked_command(old(parser).rest(), |id: u32| ActionView::ResetReading(id), invalid_id())),
{
    let reading = parser.next()?;
    if let Some(id) = parse_u32(reading) {
        Ok(Action::ResetReading(id))
    } else {
        Err("Invalid ID parameter was supplied")
    }
}

/// Reads `find @keyword` and makes the action that searches for the
/// keyword, in lowercase.
pub fn search_keyword(parser: &mut Parser) -> (r: Result<Action, Error>)
    ensures
        final(parser).words() == old(parser).words(),
        reads(r, old(parser).position(), final(parser).position(), spec_text_command(old(parser).rest(), |q: Seq<char>| ActionView::SearchKeyword(lowercase(q)))),
{
    let reading = parser.next()?;
    Ok(Action::SearchKeyword(to_lower(reading)))
}

/// Reads `bookmark @id @page` and makes the action that records the page.
pub fn add_bookmark(parser: &mut Parser) -> (r: Result<Action, Error>)
    requires
        old(parser).rest().len() >= 1 ==> is_u32(old(parser).rest()[0]),
        old(parser).rest().len() >= 2 ==> is_u32(old(parser).rest()[1]),
    ensures
        final(parser).words() == old(parser).words(),
        reads(r, old(parser).position(), final(parser).position(), spec_add_bookmark(old(parser).rest())),
{
    let id = parse_u32(parser.next()?).unwrap();
    let page = parse_u32(parser.next()?).unwrap();
    Ok(Action::AddBookmark(id, page))
}

/// Reads `bookmarks @id` and makes the action that shows the reading's
/// bookmarks.
pub fn show_bookmarks(parser: &mut Parser) -> (r: Result<Action, Error>)
    ensures
        final(parser).words() == old(parser).words(),
        reads(r, old(parser).position(), final(parser).position(), spec_checked_command(old(parser).rest(), |id: u32| ActionView::ShowBookmarks(id), id_not_integer())),
{
    if let Some(id) = parse_u32(parser.next()?) {
        Ok(Action::ShowBookmarks(id))
    } else {
        Err("Parse Error: ID provided was not in integer format")
    }
}

/// Reads `id @id` and makes the action that shows the reading.
pub fn find_reading(parser: &mut Parser) -> (r: Result<Action, Error>)
    ensures
        final(parser).words() == old(parser).words(),
        reads(r, old(parser).position(), final(parser).position(), spec_checked_command(old(parser).rest(), |id: u32| ActionView::FindByID(id), id_not_integer())),
{
    if let Some(id) = parse_u32(parser.next()?) {
        Ok(Action::FindByID(id))
    } else {
        Err("Parse Error: ID provided was not in integer format")
    }
}

/// Reads `stats @span` and makes the action that shows the statistics of
/// the span, counted back from the clock.
pub fn get_stats(parser: &mut Parser) -> (r: Result<Action, Error>)
    ensures
        final(parser).words() == old(parser).words(),
        exists|clock: i64|
            #[trigger] reads(r, old(parser).position(), final(parser).position(), spec_get_stats(old(parser).rest(), clock)),
        reads(r, old(parser).position(), final(parser).position(), spec_get_stats(old(parser).rest(), final(parser).clock_reading().secs)),
{
    let span = match parser.next() {
        Ok(w) => w,
        Err(e) => {
            let r = Err(e);
            assert(reads(r, old(parser).position(), parser.position(), spec_get_stats(old(parser).rest(), 0)));
            assert(reads(r, old(parser).position(), parser.position(), spec_get_stats(old(parser).rest(), parser.clock_reading().secs)));
            return r;
        },
    };
    let current_time = parser.read_clock();
    let r = stats_since(span, current_time.secs);
    assert(reads(r, old(parser).position(), parser.position(), spec_get_stats(old(parser).rest(), current_time.secs)));
    r
}

/// The action of `stats @span` when the clock reads `clock` seconds.
pub fn stats_since(span: &str, clock: i64) -> (r: Result<Action, Error>)
    ensures
        outcome(r) == spec_get_stats(seq![span@], clock).0,
{
    let seconds_in_day: i64 = 86400;
    let time_ago = if same_text(span, "day") {
        clock.wrapping_sub(seconds_in_day)
    } else if same_text(span, "week") {
        clock.wrapping_sub(seconds_in_day.wrapping_mul(7))
    } else if same_text(span, "biweek") {
        clock.wrapping_sub(seconds_in_day.wrapping_mul(14))
    } else if same_text(span, "month") {
        clock.wrapping_sub(seconds_in_day.wrapping_mul(30))
    } else if same_text(span, "yeartodate") || same_text(span, "all") {
        0
    } else {
        match parse_u64(span) {
            Some(number) => clock.wrapping_sub(seconds_in_day.wrapping_mul(number as i64)),
            None => {
                return Err("Invalid span parameter was supplied");
            },
        }
    };
    Ok(Action::GetStats(time_ago))
}

/// Reads `show @filter` and makes the action that lists the readings the
/// filter selects.
pub fn show_readings(parser: &mut Parser) -> (r: Result<Action, Error>)
    ensures
        final(parser).words() == old(parser).words(),
        reads(r, old(parser).position(), final(parser).position(), spec_text_command(old(parser).rest(), |f: Seq<char>| ActionView::ShowFilter(f))),
{
    let filter = parser.next()?;
    Ok(Action::ShowFilter(filter.to_string()))
}

/// `avg @days`, the clock reading `clock`.
pub open spec fn spec_reading_avg(rest: Seq<Seq<char>>, clock: i64) -> CommandView {
    if rest.len() >= 1 {
        if is_u32(rest[0]) {
            (Ok(ActionView::ShowAverage(spec_u32(rest[0]), days_before(clock, spec_u32(rest[0]) as i64))), 1)
        } else {
            (Err("Parse Error: Days provided was not in integer format"@), 1)
        }
    } else {
        (Err(not_recognized()), 0)
    }
}

/// Reads `avg @days` and makes the action that shows the average pages
/// read per day over the last `days` days, counted back from the clock.
pub fn reading_avg(parser: &mut Parser) -> (r: Result<Action, Error>)
    ensures
        final(parser).words() == old(parser).words(),
        exists|clock: i64|
            #[trigger] reads(r, old(parser).position(), final(parser).position(), spec_reading_avg(old(parser).rest(), clock)),
        reads(r, old(parser).position(), final(parser).position(), spec_reading_avg(old(parser).rest(), final(parser).clock_reading().secs)),
{
    let span = match parser.next() {
        Ok(w) => w,
        Err(e) => {
            let r = Err(e);
            assert(reads(r, old(parser).position(), parser.position(), spec_reading_avg(old(parser).rest(), 0)));
            assert(reads(r, old(parser).position(), parser.position(), spec_reading_avg(old(parser).rest(), parser.clock_reading().secs)));
            return r;
        },
    };
    let current_time = parser.read_clock();
    let r = average_since(span, current_time.secs);
    assert(reads(r, old(parser).position(), parser.position(), spec_reading_avg(old(parser).rest(), current_time.secs)));
    r
}

/// The action of `avg @days` when the clock reads `clock` seconds.
pub fn average_since(days: &str, clock: i64) -> (r: Result<Action, Error>)
    ensures
        outcome(r) == spec_reading_avg(seq![days@], clock).0,
{
    match parse_u32(days) {
        Some(n) => Ok(Action::ShowAverage(n, clock.wrapping_sub(86400i64.wrapping_mul(n as i64)))),
        None => Err("Parse Error: Days provided was not in integer format"),
    }
}

} // verus!
