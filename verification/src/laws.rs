//! What holds of the log across actions.
use vstd::prelude::*;
use crate::actions::{Action, ActionView};
use crate::commands::{days_before, outcome, reads, spec_currently_reading, spec_get_stats};
use crate::parser::{not_recognized, spec_parse, stepped, EffectView, Parser};
use crate::readings::{fresh, reduced, reduced_at, OutputView};
use crate::stores::Store;
use crate::structs::{Bookmark, Error, ReadingView, Timestamp};
use crate::text::{is_digit, parse_unsigned};
use crate::views::{all_countable, countable_since, flat_days, flat_ok, last_counted, pages_since, step_since, sum_since};

verus! {

/// The pages of the bookmarks of `r` strictly increase.
pub open spec fn ordered(r: ReadingView) -> bool {
    forall|i: int, j: int| 0 <= i < j < r.bookmarks.len() ==> r.bookmarks[i].page < r.bookmarks[j].page
}

/// Every reading of `m` has its bookmarks in increasing page order.
pub open spec fn all_ordered(m: Map<u32, ReadingView>) -> bool {
    forall|k: u32| #[trigger] m.contains_key(k) ==> ordered(m[k])
}

/// Every action keeps the bookmarks of every reading in increasing page
/// order; loading keeps it when the loaded readings have it.
pub proof fn law_bookmark_order_kept(m: Map<u32, ReadingView>, a: ActionView, n: Map<u32, ReadingView>, out: Seq<OutputView>)
    requires
        reduced(m, a, n, out),
        all_ordered(m),
        a matches ActionView::LoadData(data) ==> all_ordered(data),
    ensures
        all_ordered(n),
{
    assert forall|k: u32| #[trigger] n.contains_key(k) implies ordered(n[k]) by {
        match a {
            ActionView::AddBookmark(id, page) => {
                if m.contains_key(id) && k == id && n != m {
                    let r = m[id];
                    let b = n[id].bookmarks;
                    assert forall|i: int, j: int| 0 <= i < j < b.len() implies b[i].page < b[j].page by {
                        if j < b.len() - 1 {
                            assert(b[i] == r.bookmarks[i] && b[j] == r.bookmarks[j]);
                        } else {
                            assert(b[i] == r.bookmarks[i]);
                            if i < r.bookmarks.len() - 1 {
                                assert(r.bookmarks[i].page < r.bookmarks[r.bookmarks.len() - 1].page);
                            }
                        }
                    }
                }
            },
            ActionView::UndoBookmark(id) => {
                if m.contains_key(id) && k == id {
                    let r = m[id];
                    if r.bookmarks.len() > 0 {
                        assert forall|i: int, j: int| 0 <= i < j < n[k].bookmarks.len() implies n[k].bookmarks[i].page < n[k].bookmarks[j].page by {
                            assert(n[k].bookmarks[i] == r.bookmarks[i] && n[k].bookmarks[j] == r.bookmarks[j]);
                        }
                    }
                }
            },
            ActionView::AddReading(..) => {
                if !m.contains_key(k) || k == (m.len() as u32) {
                } else {
                    assert(n[k] == m[k]);
                }
            },
            ActionView::ResetReading(id) => {
                if k != id {
                    assert(m.contains_key(k));
                }
            },
            _ => {},
        }
    }
}

/// No action but loading removes a reading: every id stays.
pub proof fn law_readings_never_removed(m: Map<u32, ReadingView>, a: ActionView, n: Map<u32, ReadingView>, out: Seq<OutputView>)
    requires
        reduced(m, a, n, out),
        !(a is LoadData),
    ensures
        m.dom().subset_of(n.dom()),
{
}

/// No action but loading loses a bookmark run put aside by a reset: the
/// earlier runs of each reading only grow, at the end.
pub proof fn law_history_kept(m: Map<u32, ReadingView>, a: ActionView, n: Map<u32, ReadingView>, out: Seq<OutputView>)
    requires
        reduced(m, a, n, out),
        !(a is LoadData),
        a is AddReading ==> !m.contains_key(m.len() as u32),
    ensures
        forall|k: u32| #[trigger] m.contains_key(k) ==> m[k].previous.is_prefix_of(n[k].previous),
{
    assert forall|k: u32| #[trigger] m.contains_key(k) implies m[k].previous.is_prefix_of(n[k].previous) by {
        match a {
            ActionView::ResetReading(id) => {
                if k == id && n != m {
                    assert(n[k].previous == m[k].previous.push(m[k].bookmarks));
                }
            },
            ActionView::AddReading(..) => {
                assert(n[k] == m[k]);
            },
            _ => {},
        }
        assert(m[k].previous =~= n[k].previous.subrange(0, m[k].previous.len() as int));
    }
}

/// Whether `a` edits the reading with id `id`.
pub open spec fn names_reading(a: ActionView, id: u32) -> bool {
    match a {
        ActionView::EditReading(i, _, _) => i == id,
        ActionView::FinishReading(i) => i == id,
        ActionView::AddBookmark(i, _) => i == id,
        ActionView::UndoBookmark(i) => i == id,
        ActionView::RemoveReading(i) => i == id,
        ActionView::ResetReading(i) => i == id,
        _ => false,
    }
}

/// Whether `a` only shows something (or saves).
pub open spec fn is_query(a: ActionView) -> bool {
    match a {
        ActionView::SaveData | ActionView::ShowWeeklyChart | ActionView::ShowBookmarks(_)
        | ActionView::ReadRandom | ActionView::ShowFilter(_) | ActionView::SearchKeyword(_)
        | ActionView::CurrentlyReading(_) | ActionView::GetStats(_) | ActionView::ShowAverage(_, _)
        | ActionView::FindByID(_) | ActionView::ShowFinished | ActionView::ShowOldestRead
        | ActionView::ShowUnfinished => true,
        _ => false,
    }
}

/// `r` with `finished` set to `f`.
pub open spec fn with_finished(r: ReadingView, f: bool) -> ReadingView {
    ReadingView { finished: f, ..r }
}

/// Once finished or deleted, a reading stays so: no action but loading, or
/// adding a reading under an id already taken, clears either flag.
pub proof fn law_flags_stay_set(m: Map<u32, ReadingView>, a: ActionView, n: Map<u32, ReadingView>, out: Seq<OutputView>, k: u32)
    requires
        reduced(m, a, n, out),
        !(a is LoadData),
        a is AddReading ==> !m.contains_key(m.len() as u32),
        m.contains_key(k),
    ensures
        m[k].finished ==> n[k].finished,
        m[k].deleted ==> n[k].deleted,
{
    match a {
        ActionView::AddReading(..) => {
            assert(n[k] == m[k]);
        },
        _ => {},
    }
}

/// An action that names a reading changes no other reading.
pub proof fn law_other_readings_untouched(m: Map<u32, ReadingView>, a: ActionView, n: Map<u32, ReadingView>, out: Seq<OutputView>, id: u32, k: u32)
    requires
        reduced(m, a, n, out),
        names_reading(a, id),
        m.contains_key(k),
        k != id,
    ensures
        n.contains_key(k),
        n[k] == m[k],
{
}

/// The actions that only show something leave the readings as they were.
pub proof fn law_queries_change_nothing(m: Map<u32, ReadingView>, a: ActionView, n: Map<u32, ReadingView>, out: Seq<OutputView>)
    requires
        reduced(m, a, n, out),
        is_query(a),
    ensures
        n == m,
{
}

/// Undoing the bookmark just added gives the reading back its bookmarks;
/// all else is as before, but for `finished`, which adding the last page
/// set.
pub proof fn law_undo_reverts_bookmark(
    m: Map<u32, ReadingView>,
    id: u32,
    page: u32,
    n1: Map<u32, ReadingView>,
    out1: Seq<OutputView>,
    n2: Map<u32, ReadingView>,
    out2: Seq<OutputView>,
)
    requires
        reduced(m, ActionView::AddBookmark(id, page), n1, out1),
        reduced(n1, ActionView::UndoBookmark(id), n2, out2),
        m.contains_key(id),
        m[id].bookmarks.last().page < page <= m[id].pages,
    ensures
        n2.dom() == m.dom(),
        n2[id] == with_finished(m[id], m[id].finished || page == m[id].pages),
        forall|k: u32| #[trigger] m.contains_key(k) && k != id ==> n2[k] == m[k],
{
    assert(n2.dom() =~= m.dom());
    assert(n2[id].bookmarks =~= m[id].bookmarks);
}

/// Ids are 0 up to the number of readings.
pub open spec fn dense(m: Map<u32, ReadingView>) -> bool {
    forall|k: u32| m.contains_key(k) <==> k < m.len()
}

/// While the ids are 0 up to the number of readings, adding a reading gives
/// it the next id and keeps them so.
pub proof fn law_ids_stay_dense(m: Map<u32, ReadingView>, title: Seq<char>, author: Seq<char>, pages: u32, n: Map<u32, ReadingView>, out: Seq<OutputView>)
    requires
        reduced(m, ActionView::AddReading(title, author, pages), n, out),
        dense(m),
        m.len() < u32::MAX,
    ensures
        n.contains_key(m.len() as u32),
        n[m.len() as u32].id == m.len(),
        n.len() == m.len() + 1,
        dense(n),
{
    let id = m.len() as u32;
    assert(!m.contains_key(id));
    assert(n.dom() == m.dom().insert(id));
    assert(m.dom().finite()) by {
        assert(m.dom() =~= vstd::set_lib::set_int_range(0, m.len() as int).map(|i: int| i as u32)) by {
            assert forall|k: u32| m.dom().contains(k) implies vstd::set_lib::set_int_range(0, m.len() as int).map(|i: int| i as u32).contains(k) by {
                assert(vstd::set_lib::set_int_range(0, m.len() as int).contains(k as int));
            }
        }
        vstd::set_lib::lemma_int_range(0, m.len() as int);
        vstd::set_lib::lemma_map_size_bound(vstd::set_lib::set_int_range(0, m.len() as int), m.dom(), |i: int| i as u32);
    }
    assert(n.len() == m.len() + 1);
}


/// A reading just added is found under the id it was given, as a new
/// reading with the title, author and page count it was added with.
pub proof fn law_added_reading_is_found(
    m: Map<u32, ReadingView>,
    title: Seq<char>,
    author: Seq<char>,
    pages: u32,
    n: Map<u32, ReadingView>,
    out: Seq<OutputView>,
    n2: Map<u32, ReadingView>,
    out2: Seq<OutputView>,
)
    requires
        reduced(m, ActionView::AddReading(title, author, pages), n, out),
        reduced(n, ActionView::FindByID(m.len() as u32), n2, out2),
    ensures
        n2 == n,
        out2.len() == 1,
        out2[0] matches OutputView::Reading(r) && fresh(r, m.len() as u32, title, author, pages),
{
    assert(n.dom().contains(m.len() as u32));
}

/// A line whose command word is `exit` ends the program, whatever follows
/// it on the line.
pub proof fn law_exit_ends(words: Seq<Seq<char>>, pos: int, clock: i64)
    requires
        0 <= pos < words.len(),
        words[pos] == "exit"@,
    ensures
        spec_parse(words, pos, clock) == (EffectView::Exit, Ok::<(), Seq<char>>(())),
{
    reveal_strlit("exit");
    reveal_strlit("id");
    reveal_strlit("$");
    reveal_strlit("add");
    reveal_strlit("avg");
    reveal_strlit("bookmark");
    reveal_strlit("!!");
    reveal_strlit("bookmarks");
    reveal_strlit("current");
    reveal_strlit("edit");
    assert("exit"@[1] != "edit"@[1]);
    assert("exit"@ != "edit"@);
    assert("exit"@.len() == 4);
    assert("exit"@ != "id"@ && "exit"@ != "$"@ && "exit"@ != "add"@ && "exit"@ != "avg"@);
    assert("exit"@ != "bookmark"@ && "exit"@ != "!!"@ && "exit"@ != "bookmarks"@ && "exit"@ != "current"@);
    assert(crate::parser::spec_command(words[pos], words.skip(pos + 1), clock).0 == EffectView::Exit);
}

/// The pages of the bookmarks `bs` never go down.
pub open spec fn nondecreasing(bs: Seq<Bookmark>) -> bool {
    forall|i: int, j: int| 0 <= i <= j < bs.len() ==> bs[i].page <= bs[j].page
}

/// The sum of `s`.
pub open spec fn total(s: Seq<int>) -> int
    decreases s.len(),
{
    if s.len() == 0 {
        0
    } else {
        total(s.drop_last()) + s.last()
    }
}

proof fn lemma_total_nonneg(s: Seq<int>)
    requires
        forall|i: int| 0 <= i < s.len() ==> s[i] >= 0,
    ensures
        total(s) >= 0,
    decreases s.len(),
{
    if s.len() > 0 {
        lemma_total_nonneg(s.drop_last());
    }
}

proof fn lemma_flat_progress(bs: Seq<Bookmark>, gaps: Seq<Option<i64>>, n: int)
    requires
        nondecreasing(bs),
        1 <= n <= bs.len(),
    ensures
        flat_ok(bs, gaps, n),
        0 <= last_counted(bs, n) < n,
        bs[last_counted(bs, n)].page == bs[n - 1].page,
        total(flat_days(bs, gaps, n)) == bs[n - 1].page - bs[0].page,
        forall|i: int| 0 <= i < flat_days(bs, gaps, n).len() ==> flat_days(bs, gaps, n)[i] >= 0,
    decreases n,
{
    let days = flat_days(bs, gaps, n - 1);
    let prev = last_counted(bs, n - 1);
    let b = bs[n - 1];
    if n == 1 {
        assert(flat_days(bs, gaps, 0) =~= seq![]);
        assert(flat_ok(bs, gaps, 0));
        assert(prev == 0);
        if b.page != 0 {
            assert(flat_days(bs, gaps, 1) =~= seq![0int]);
            assert(total(seq![0int]) == total(seq![0int].drop_last()) + 0);
        }
    } else {
        lemma_flat_progress(bs, gaps, n - 1);
        if b.page != 0 {
            let read = b.page - bs[prev].page;
            lemma_total_nonneg(days);
            if days.len() > 0 {
                lemma_total_nonneg(days.drop_last());
                assert(days.last() <= total(days));
            }
            assert(bs[prev].page <= b.page);
            if days.len() > 0 {
                assert(days.last() + read <= u32::MAX);
            }
            let next = flat_days(bs, gaps, n);
            if gaps[n - 1] == Some(0i64) && days.len() > 0 {
                assert(next.drop_last() =~= days.drop_last());
            } else {
                assert(next.drop_last() =~= days);
            }
        } else {
            assert forall|i: int| 0 <= i < n implies bs[i].page == 0 by {
                assert(bs[i].page <= bs[n - 1].page);
            }
        }
    }
}

/// When the pages of the bookmarks never go down, the pages read per day
/// can always be counted, whatever the day gaps, and together they are the
/// progress from the first bookmark to the last.
pub proof fn law_daily_pages_sum_to_progress(bs: Seq<Bookmark>, gaps: Seq<Option<i64>>)
    requires
        bs.len() > 0,
        nondecreasing(bs),
    ensures
        flat_ok(bs, gaps, bs.len() as int),
        total(flat_days(bs, gaps, bs.len() as int)) == bs.last().page - bs[0].page,
{
    lemma_flat_progress(bs, gaps, bs.len() as int);
}

/// When the pages never go down and every bookmark is dated after `t`, the
/// pages read since `t` are the progress from the first bookmark to the
/// last.
pub proof fn law_pages_since_start_are_progress(bs: Seq<Bookmark>, t: i64)
    requires
        bs.len() > 0,
        nondecreasing(bs),
        forall|i: int| 0 <= i < bs.len() ==> bs[i].date.secs > t,
    ensures
        pages_since(bs, t) == bs.last().page - bs[0].page,
    decreases bs.len(),
{
    if bs.len() > 1 {
        law_pages_since_start_are_progress(bs.drop_last(), t);
    }
}


proof fn lemma_pages_shrink(bs: Seq<Bookmark>, t1: i64, t2: i64)
    requires
        t1 <= t2,
        forall|i: int| 1 <= i < bs.len() && bs[i].date.secs > t1 ==> bs[i - 1].page <= bs[i].page,
    ensures
        pages_since(bs, t1) >= pages_since(bs, t2),
    decreases bs.len(),
{
    if bs.len() > 1 {
        lemma_pages_shrink(bs.drop_last(), t1, t2);
        assert(step_since(bs, bs.len() - 1, t1) >= step_since(bs, bs.len() - 1, t2));
    }
}

proof fn lemma_sum_shrinks(m: Map<u32, ReadingView>, all: Seq<u32>, t1: i64, t2: i64)
    requires
        t1 <= t2,
        all_countable(m, t1),
        forall|j: int| 0 <= j < all.len() ==> m.contains_key(#[trigger] all[j]),
    ensures
        sum_since(m, all, t1) >= sum_since(m, all, t2),
    decreases all.len(),
{
    if all.len() > 0 {
        lemma_sum_shrinks(m, all.drop_last(), t1, t2);
        assert(m.contains_key(all[all.len() - 1]));
        lemma_pages_shrink(m[all.last()].bookmarks, t1, t2);
    }
}

/// The later the start of the span, the fewer pages the statistics count
/// in all: the total since `t1` is at least the total since any later
/// `t2`.
pub proof fn law_stats_total_shrinks(m: Map<u32, ReadingView>, all: Seq<u32>, t1: i64, t2: i64)
    requires
        t1 <= t2,
        all_countable(m, t1),
        all.to_set() == m.dom(),
        all.no_duplicates(),
    ensures
        all_countable(m, t2),
        sum_since(m, all, t1) >= sum_since(m, all, t2),
{
    assert forall|j: int| 0 <= j < all.len() implies m.contains_key(#[trigger] all[j]) by {
        assert(all.to_set().contains(all[j]));
    }
    lemma_sum_shrinks(m, all, t1, t2);
    assert forall|k: u32| #[trigger] m.contains_key(k) implies countable_since(m[k].bookmarks, t2) by {
        let bs = m[k].bookmarks;
        assert(countable_since(bs, t1));
        lemma_pages_shrink(bs, t1, t2);
        crate::views::lemma_pages_nonneg(bs, t2);
    }
}

/// The progress from first to last bookmark of the readings of `m` under
/// `ids`, added up.
pub open spec fn progress_sum(m: Map<u32, ReadingView>, ids: Seq<u32>) -> int
    decreases ids.len(),
{
    if ids.len() == 0 {
        0
    } else {
        progress_sum(m, ids.drop_last()) + m[ids.last()].bookmarks.last().page - m[ids.last()].bookmarks[0].page
    }
}

/// Every reading of `m` has bookmarks, all dated after `t`, whose pages
/// never go down.
pub open spec fn all_read_after(m: Map<u32, ReadingView>, t: i64) -> bool {
    forall|k: u32| #[trigger] m.contains_key(k) ==> {
        let bs = m[k].bookmarks;
        &&& bs.len() > 0
        &&& nondecreasing(bs)
        &&& forall|i: int| 0 <= i < bs.len() ==> bs[i].date.secs > t
    }
}

proof fn lemma_sum_is_progress(m: Map<u32, ReadingView>, all: Seq<u32>, t: i64)
    requires
        all_read_after(m, t),
        forall|j: int| 0 <= j < all.len() ==> m.contains_key(#[trigger] all[j]),
    ensures
        sum_since(m, all, t) == progress_sum(m, all),
    decreases all.len(),
{
    if all.len() > 0 {
        lemma_sum_is_progress(m, all.drop_last(), t);
        assert(m.contains_key(all[all.len() - 1]));
        law_pages_since_start_are_progress(m[all.last()].bookmarks, t);
    }
}

/// Counted from before every bookmark, the statistics total is the
/// progress of every reading from its first bookmark to its last, added
/// up.
pub proof fn law_stats_total_from_the_start(m: Map<u32, ReadingView>, all: Seq<u32>, t: i64)
    requires
        all_read_after(m, t),
        all.to_set() == m.dom(),
        all.no_duplicates(),
    ensures
        sum_since(m, all, t) == progress_sum(m, all),
{
    assert forall|j: int| 0 <= j < all.len() implies m.contains_key(#[trigger] all[j]) by {
        assert(all.to_set().contains(all[j]));
    }
    lemma_sum_is_progress(m, all, t);
}

proof fn lemma_run_position<'a>(ps: Seq<Parser<'a>>, rs: Seq<Result<&'a str, Error>>, i: int)
    requires
        ps.len() == rs.len() + 1,
        ps[0].position() == 0,
        forall|j: int| 0 <= j < rs.len() ==> #[trigger] stepped(ps[j], ps[j + 1], rs[j]),
        0 <= i <= rs.len(),
    ensures
        ps[i].words() == ps[0].words(),
        ps[i].position() == if i < ps[0].words().len() { i } else { ps[0].words().len() as int },
    decreases i,
{
    if i > 0 {
        lemma_run_position(ps, rs, i - 1);
        let j = i - 1;
        assert(ps[j + 1] == ps[i]);
        assert(stepped(ps[j], ps[j + 1], rs[j]));
    }
}

/// A parser made from `words` hands them out one per call of `next`, in
/// order, and once they are all read every further call fails with the
/// not-recognized error.
pub proof fn law_words_come_out_in_order<'a>(ps: Seq<Parser<'a>>, rs: Seq<Result<&'a str, Error>>)
    requires
        ps.len() == rs.len() + 1,
        ps[0].position() == 0,
        forall|j: int| 0 <= j < rs.len() ==> #[trigger] stepped(ps[j], ps[j + 1], rs[j]),
    ensures
        forall|i: int| 0 <= i < rs.len() && i < ps[0].words().len() ==> (#[trigger] rs[i] matches Ok(w) && w@ == ps[0].words()[i]),
        forall|i: int| 0 <= i < rs.len() && i >= ps[0].words().len() ==> (#[trigger] rs[i] matches Err(e) && e@ == not_recognized()),
{
    assert forall|i: int| 0 <= i < rs.len() implies {
        &&& i < ps[0].words().len() ==> (#[trigger] rs[i] matches Ok(w) && w@ == ps[0].words()[i])
        &&& i >= ps[0].words().len() ==> (rs[i] matches Err(e) && e@ == not_recognized())
    } by {
        lemma_run_position(ps, rs, i);
        assert(stepped(ps[i], ps[i + 1], rs[i]));
    }
}

/// The state after applying `f` to `s0` and each of `actions` in turn.
pub open spec fn fold_actions<T, U>(f: spec_fn(T, U) -> T, s0: T, actions: Seq<U>) -> T
    decreases actions.len(),
{
    if actions.len() == 0 {
        s0
    } else {
        f(fold_actions(f, s0, actions.drop_last()), actions.last())
    }
}

/// Whether `after` is what dispatching `action` to `before` leaves.
pub open spec fn dispatched<T, U, R: Fn(&T, U) -> T, L: Fn(&T)>(
    before: Store<T, U, R, L>,
    after: Store<T, U, R, L>,
    action: U,
) -> bool {
    &&& call_ensures(before.reducer(), (&before.state(), action), after.state())
    &&& after.reducer() == before.reducer()
    &&& after.listeners() == before.listeners()
}

/// Whether `later` holds the state and the reducer of `earlier`.
pub open spec fn carried<T, U, R: Fn(&T, U) -> T, L: Fn(&T)>(earlier: Store<T, U, R, L>, later: Store<T, U, R, L>) -> bool {
    later.state() == earlier.state() && later.reducer() == earlier.reducer()
}

/// A store whose reducer computes `f` holds, after a run of dispatches, the
/// left fold of `f` over the dispatched actions from the state it started
/// with; what happens between two dispatches that keeps the state and the
/// reducer (a subscription) changes nothing of it.
pub proof fn law_store_folds_actions<T, U, R: Fn(&T, U) -> T, L: Fn(&T)>(
    before: Seq<Store<T, U, R, L>>,
    after: Seq<Store<T, U, R, L>>,
    actions: Seq<U>,
    f: spec_fn(T, U) -> T,
)
    requires
        before.len() == actions.len(),
        after.len() == actions.len(),
        actions.len() > 0,
        forall|s: T, a: U, o: T| call_ensures(before[0].reducer(), (&s, a), o) ==> o == f(s, a),
        forall|i: int| 0 <= i < actions.len() ==> #[trigger] dispatched(before[i], after[i], actions[i]),
        forall|i: int| 0 < i < actions.len() ==> #[trigger] carried(after[i - 1], before[i]),
    ensures
        after.last().state() == fold_actions(f, before[0].state(), actions),
{
    lemma_fold_run(before, after, actions, f, actions.len() - 1);
    assert(actions.take(actions.len() as int) =~= actions);
}

proof fn lemma_fold_run<T, U, R: Fn(&T, U) -> T, L: Fn(&T)>(
    before: Seq<Store<T, U, R, L>>,
    after: Seq<Store<T, U, R, L>>,
    actions: Seq<U>,
    f: spec_fn(T, U) -> T,
    i: int,
)
    requires
        before.len() == actions.len(),
        after.len() == actions.len(),
        0 <= i < actions.len(),
        forall|s: T, a: U, o: T| call_ensures(before[0].reducer(), (&s, a), o) ==> o == f(s, a),
        forall|j: int| 0 <= j < actions.len() ==> #[trigger] dispatched(before[j], after[j], actions[j]),
        forall|j: int| 0 < j < actions.len() ==> #[trigger] carried(after[j - 1], before[j]),
    ensures
        after[i].state() == fold_actions(f, before[0].state(), actions.take(i + 1)),
        after[i].reducer() == before[0].reducer(),
    decreases i,
{
    assert(dispatched(before[i], after[i], actions[i]));
    assert(actions.take(i + 1).drop_last() =~= actions.take(i));
    assert(actions.take(i + 1).last() == actions[i]);
    if i == 0 {
        assert(actions.take(0) =~= Seq::<U>::empty());
    } else {
        lemma_fold_run(before, after, actions, f, i - 1);
        let j = i - 1;
        assert(after[j] == after[i - 1]);
        assert(carried(after[j], before[i]));
    }
    assert(before[i].reducer() == before[0].reducer());
    assert(call_ensures(before[0].reducer(), (&before[i].state(), actions[i]), after[i].state()));
    assert(after[i].state() == f(before[i].state(), actions[i]));
    assert(before[i].state() == fold_actions(f, before[0].state(), actions.take(i)));
    assert(fold_actions(f, before[0].state(), actions.take(i + 1))
        == f(fold_actions(f, before[0].state(), actions.take(i)), actions[i]));
}


/// A clock reading far enough from the ends of `i64` that counting back
/// up to a hundred million days from it cannot wrap.
pub open spec fn calm_clock(clock: i64) -> bool {
    -0x4000_0000_0000_0000 <= clock <= 0x4000_0000_0000_0000
}

proof fn lemma_days_before(clock: i64, days: int)
    requires
        calm_clock(clock),
        0 <= days <= 100_000_000,
    ensures
        days_before(clock, days as i64) == clock - 86400 * days,
{
    let p = 86400 * days;
    assert(0 <= p <= 8_640_000_000_000) by (nonlinear_arith)
        requires
            p == 86400 * days,
            0 <= days <= 100_000_000,
    ;
    vstd::arithmetic::div_mod::lemma_small_mod(p as nat, 0x1_0000_0000_0000_0000nat);
    assert(86400i64.wrapping_mul(days as i64) == p);
}

proof fn lemma_word_not_number(s: Seq<char>)
    requires
        s.len() > 0,
        !is_digit(s[0]),
        s[0] != '+',
    ensures
        parse_unsigned(s, u64::MAX as nat) is None,
{
}

/// What `stats @span` makes counts the span back from the clock reading
/// `clock` that the command took: a day, a week, two weeks or 30 days
/// before it, or `n` days before it for a number `n`; `all` and
/// `yeartodate` start at the epoch.
pub proof fn law_stats_span_counts_back_from_clock(
    r: Result<Action, Error>,
    before: int,
    after: int,
    rest: Seq<Seq<char>>,
    clock: i64,
)
    requires
        reads(r, before, after, spec_get_stats(rest, clock)),
        rest.len() >= 1,
        calm_clock(clock),
    ensures
        rest[0] == "day"@ ==> outcome(r) == Ok::<ActionView, Seq<char>>(ActionView::GetStats((clock - 86400) as i64)),
        rest[0] == "week"@ ==> outcome(r) == Ok::<ActionView, Seq<char>>(ActionView::GetStats((clock - 7 * 86400) as i64)),
        rest[0] == "biweek"@ ==> outcome(r) == Ok::<ActionView, Seq<char>>(ActionView::GetStats((clock - 14 * 86400) as i64)),
        rest[0] == "month"@ ==> outcome(r) == Ok::<ActionView, Seq<char>>(ActionView::GetStats((clock - 30 * 86400) as i64)),
        rest[0] == "all"@ || rest[0] == "yeartodate"@ ==> outcome(r) == Ok::<ActionView, Seq<char>>(ActionView::GetStats(0)),
        forall|n: nat| #[trigger] parse_unsigned(rest[0], u64::MAX as nat) == Some(n) && n <= 100_000_000
            ==> outcome(r) == Ok::<ActionView, Seq<char>>(ActionView::GetStats((clock - 86400 * n) as i64)),
{
    let w = rest[0];
    lemma_days_before(clock, 7);
    lemma_days_before(clock, 14);
    lemma_days_before(clock, 30);
    reveal_strlit("day");
    reveal_strlit("week");
    reveal_strlit("biweek");
    reveal_strlit("month");
    reveal_strlit("all");
    reveal_strlit("yeartodate");
    if let Some(n) = parse_unsigned(w, u64::MAX as nat) {
        if w == "day"@ || w == "week"@ || w == "biweek"@ || w == "month"@ || w == "all"@ || w == "yeartodate"@ {
            lemma_word_not_number(w);
        }
        if n <= 100_000_000 {
            lemma_days_before(clock, n as int);
        }
    }
}

/// What `current @n` makes lists the readings read after the clock reading
/// `clock` that the command took, less `n` days; a word that is not a
/// number is refused.
pub proof fn law_current_span_counts_back_from_clock(
    r: Result<Action, Error>,
    before: int,
    after: int,
    rest: Seq<Seq<char>>,
    clock: i64,
)
    requires
        reads(r, before, after, spec_currently_reading(rest, clock)),
        rest.len() >= 1,
        calm_clock(clock),
    ensures
        forall|n: nat| #[trigger] parse_unsigned(rest[0], u64::MAX as nat) == Some(n) && n <= 100_000_000
            ==> outcome(r) == Ok::<ActionView, Seq<char>>(ActionView::CurrentlyReading((clock - 86400 * n) as i64)),
        parse_unsigned(rest[0], u64::MAX as nat) is None
            ==> outcome(r) == Err::<ActionView, Seq<char>>("Invalid time span parameter was supplied"@),
{
    if let Some(n) = parse_unsigned(rest[0], u64::MAX as nat) {
        if n <= 100_000_000 {
            lemma_days_before(clock, n as int);
        }
    }
}

/// A bookmark that an action adds is dated by the clock reading of the
/// step, whatever the dates of the reading's earlier bookmarks: the
/// reading keeps its bookmarks and gains one at the page, dated `t`.
pub proof fn law_added_bookmark_is_dated_by_the_clock(
    m: Map<u32, ReadingView>,
    id: u32,
    page: u32,
    n: Map<u32, ReadingView>,
    out: Seq<OutputView>,
    t: Timestamp,
)
    requires
        reduced_at(m, ActionView::AddBookmark(id, page), n, out, t),
        m.contains_key(id),
        m[id].bookmarks.len() > 0,
        m[id].bookmarks.last().page < page <= m[id].pages,
    ensures
        n[id].bookmarks == m[id].bookmarks.push(Bookmark { page, date: t }),
{
    let bs = n[id].bookmarks;
    assert(bs =~= bs.drop_last().push(bs.last()));
}

/// The pages that a bookmark adds count in every span that starts before
/// the clock reading of the step that added it.
pub proof fn law_added_bookmark_counts_in_later_spans(
    m: Map<u32, ReadingView>,
    id: u32,
    page: u32,
    n: Map<u32, ReadingView>,
    out: Seq<OutputView>,
    t: Timestamp,
    start: i64,
)
    requires
        reduced_at(m, ActionView::AddBookmark(id, page), n, out, t),
        m.contains_key(id),
        m[id].bookmarks.len() > 0,
        m[id].bookmarks.last().page < page <= m[id].pages,
        start < t.secs,
    ensures
        pages_since(n[id].bookmarks, start) == pages_since(m[id].bookmarks, start) + (page - m[id].bookmarks.last().page),
{
    law_added_bookmark_is_dated_by_the_clock(m, id, page, n, out, t);
    let bs = n[id].bookmarks;
    assert(bs.drop_last() =~= m[id].bookmarks);
}

/// A reading that an action adds starts with one bookmark, at page 0,
/// dated by the clock reading of the step.
pub proof fn law_new_reading_starts_at_the_clock(
    m: Map<u32, ReadingView>,
    title: Seq<char>,
    author: Seq<char>,
    pages: u32,
    n: Map<u32, ReadingView>,
    out: Seq<OutputView>,
    t: Timestamp,
)
    requires
        reduced_at(m, ActionView::AddReading(title, author, pages), n, out, t),
    ensures
        n.contains_key(m.len() as u32),
        n[m.len() as u32].bookmarks == seq![Bookmark { page: 0, date: t }],
{
    assert(n.dom().contains(m.len() as u32));
    assert(n[m.len() as u32].bookmarks =~= seq![Bookmark { page: 0, date: t }]);
}

/// A reading started over keeps its run as an earlier one and starts again
/// with one bookmark, at page 0, dated by the clock reading of the step.
pub proof fn law_reset_starts_at_the_clock(
    m: Map<u32, ReadingView>,
    id: u32,
    n: Map<u32, ReadingView>,
    out: Seq<OutputView>,
    t: Timestamp,
)
    requires
        reduced_at(m, ActionView::ResetReading(id), n, out, t),
        m.contains_key(id),
        m[id].bookmarks.len() != 1,
    ensures
        n[id].bookmarks == seq![Bookmark { page: 0, date: t }],
        n[id].previous == m[id].previous.push(m[id].bookmarks),
{
    assert(n[id].bookmarks =~= seq![Bookmark { page: 0, date: t }]);
}

} // verus!
