//! What the log shows: which readings each listing holds and the numbers
//! computed about them.
use vstd::prelude::*;
use crate::chance::random_between;
use crate::clock::{days_between, days_elapsed, plain_instant, whole_days};
use crate::structs::{library, Bookmark, Reading, ReadingView, Readings};
use crate::text::{chars_of, chars_less, contains_text, lemma_text_order, lowercase, text_contains, text_less, to_lower};

verus! {

broadcast use vstd::std_specs::hash::group_hash_axioms;

/// The ids of the readings, each once, in the map's own order.
pub fn ids_of(readings: &Readings) -> (ks: Vec<u32>)
    ensures
        ks@.no_duplicates(),
        ks@.to_set() == readings@.dom(),
        ks@.len() == readings@.dom().len(),
{
    let mut ks: Vec<u32> = Vec::new();
    for k in it: readings.keys()
        invariant
            ks@ == it.seq().take(it.index()).unref(),
            it.seq().unref().no_duplicates(),
            it.seq().unref().to_set() == readings@.dom(),
            it.seq().len() == readings@.dom().len(),
            it.index() == it.seq().len() ==> {
                &&& ks@.no_duplicates()
                &&& ks@.to_set() == readings@.dom()
                &&& ks@.len() == readings@.dom().len()
            },
    {
        ks.push(*k);
        assert(it.index() + 1 == it.seq().len() ==> ks@ =~= it.seq().unref());
    }
    ks
}


/// The page of the last bookmark of `r`.
pub open spec fn last_page(r: ReadingView) -> u32 {
    r.bookmarks.last().page
}

/// Every reading of `m` has at least one bookmark.
pub open spec fn all_bookmarked(m: Map<u32, ReadingView>) -> bool {
    forall|k: u32| #[trigger] m.contains_key(k) ==> m[k].bookmarks.len() > 0
}

/// `list` holds the readings of `m` stored under `ids`, in that order, and
/// `ids` are, once each, the ids of the readings of `m` that `keep` accepts.
pub open spec fn listed_by(
    m: Map<u32, ReadingView>,
    keep: spec_fn(ReadingView) -> bool,
    list: Seq<ReadingView>,
    ids: Seq<u32>,
) -> bool {
    &&& ids.no_duplicates()
    &&& forall|k: u32| ids.contains(k) <==> (m.contains_key(k) && keep(m[k]))
    &&& list.len() == ids.len()
    &&& forall|i: int| 0 <= i < ids.len() ==> list[i] == m[ids[i]]
}

/// `list` holds, once each and in some order, the readings of `m` that
/// `keep` accepts.
pub open spec fn lists(m: Map<u32, ReadingView>, keep: spec_fn(ReadingView) -> bool, list: Seq<ReadingView>) -> bool {
    exists|ids: Seq<u32>| #[trigger] listed_by(m, keep, list, ids)
}

/// The views of a list of readings.
pub open spec fn views_of(v: Seq<Reading>) -> Seq<ReadingView> {
    v.map_values(|r: Reading| r@)
}

/// The listings that select readings by a property of each.
#[derive(Debug)]
pub enum Shelf {
    /// Last bookmark at page 0.
    Unread,
    /// Last bookmark past page 0.
    Started,
    /// Not deleted, finished as given, and last bookmark past page 0.
    Completed(bool),
    /// Neither finished nor deleted, and last bookmark past page 0.
    InProgress,
    /// Not deleted, and the keyword occurs in the lowercase title or author.
    Matching(String),
    /// Not deleted.
    Present,
}

/// Whether `r` is not deleted and `q` occurs in its lowercase title or
/// lowercase author.
pub open spec fn matches_query(r: ReadingView, q: Seq<char>) -> bool {
    (text_contains(lowercase(r.title), q) || text_contains(lowercase(r.author), q)) && !r.deleted
}

/// Whether the shelf `s` takes the reading `r`.
pub open spec fn shelf_keeps(s: Shelf, r: ReadingView) -> bool {
    match s {
        Shelf::Unread => last_page(r) == 0,
        Shelf::Started => last_page(r) > 0,
        Shelf::Completed(c) => !r.deleted && r.finished == c && last_page(r) > 0,
        Shelf::InProgress => !r.finished && !r.deleted && last_page(r) != 0,
        Shelf::Matching(q) => matches_query(r, q@),
        Shelf::Present => !r.deleted,
    }
}

/// Whether the shelf `s` looks at the last bookmark of every reading.
pub open spec fn needs_bookmarks(s: Shelf) -> bool {
    !(s is Matching || s is Present)
}

fn keeps(s: &Shelf, r: &Reading) -> (b: bool)
    requires
        needs_bookmarks(*s) ==> r@.bookmarks.len() > 0,
    ensures
        b == shelf_keeps(*s, r@),
{
    match s {
        Shelf::Unread => r.bookmarks[r.bookmarks.len() - 1].page == 0,
        Shelf::Started => r.bookmarks[r.bookmarks.len() - 1].page > 0,
        Shelf::Completed(c) => !r.deleted && r.finished == *c && r.bookmarks[r.bookmarks.len() - 1].page > 0,
        Shelf::InProgress => !r.finished && !r.deleted && r.bookmarks[r.bookmarks.len() - 1].page != 0,
        Shelf::Matching(q) => {
            let title = to_lower(r.title.as_str());
            let author = to_lower(r.author.as_str());
            (contains_text(title.as_str(), q.as_str()) || contains_text(author.as_str(), q.as_str())) && !r.deleted
        },
        Shelf::Present => !r.deleted,
    }
}

/// The readings that the shelf `s` takes, once each, in the map's order.
pub fn shelve(readings: &Readings, s: &Shelf) -> (v: Vec<Reading>)
    requires
        needs_bookmarks(*s) ==> all_bookmarked(library(*readings)),
    ensures
        lists(library(*readings), |r: ReadingView| shelf_keeps(*s, r), views_of(v@)),
{
    let ghost m = library(*readings);
    let ghost keep = |r: ReadingView| shelf_keeps(*s, r);
    let ks = ids_of(readings);
    let mut v: Vec<Reading> = Vec::new();
    let ghost mut ids: Seq<u32> = Seq::empty();
    let mut i: usize = 0;
    while i < ks.len()
        invariant
            m == library(*readings),
            keep == (|r: ReadingView| shelf_keeps(*s, r)),
            needs_bookmarks(*s) ==> all_bookmarked(m),
            ks@.no_duplicates(),
            ks@.to_set() == readings@.dom(),
            i <= ks.len(),
            ids.no_duplicates(),
            forall|k: u32| ids.contains(k) <==> (ks@.take(i as int).contains(k) && keep(m[k])),
            views_of(v@).len() == ids.len(),
            forall|j: int| 0 <= j < ids.len() ==> views_of(v@)[j] == m[ids[j]],
        decreases ks.len() - i,
    {
        let k = ks[i];
        assert(ks@.to_set().contains(k));
        assert(readings@.contains_key(k));
        assert(m.contains_key(k));
        let r = readings.get(&k).unwrap();
        assert(m[k] == r@);
        assert(ks@.take(i + 1) =~= ks@.take(i as int).push(k));
        let ghost upto = ks@.take(i + 1);
        let ghost prior = ks@.take(i as int);
        let ghost before = views_of(v@);
        let ghost ids_before = ids;
        if keeps(s, r) {
            proof {
                assert(!ids.contains(k)) by {
                    if ids.contains(k) {
                        assert(prior.contains(k));
                        let j = choose|j: int| 0 <= j < i && prior[j] == k;
                        assert(ks@[j] == ks@[i as int]);
                    }
                }
            }
            v.push(r.copy());
            proof {
                ids = ids.push(k);
                assert(views_of(v@) =~= before.push(r@));
                assert forall|x: u32| ids.contains(x) <==> (upto.contains(x) && keep(m[x])) by {
                    if x == k {
                        assert(ids[ids.len() - 1] == k);
                        assert(upto[i as int] == k);
                        assert(keep(m[k]));
                    } else {
                        assert(ids.contains(x) <==> ids_before.contains(x)) by {
                            if ids.contains(x) {
                                let j = choose|j: int| 0 <= j < ids.len() && ids[j] == x;
                                assert(ids_before[j] == x);
                            }
                            if ids_before.contains(x) {
                                let j = choose|j: int| 0 <= j < ids_before.len() && ids_before[j] == x;
                                assert(ids[j] == x);
                            }
                        }
                        assert(upto.contains(x) <==> prior.contains(x)) by {
                            if upto.contains(x) {
                                let j = choose|j: int| 0 <= j < i + 1 && upto[j] == x;
                                assert(prior[j] == x);
                            }
                        }
                    }
                }
            }
        } else {
            proof {
                assert forall|x: u32| ids.contains(x) <==> (upto.contains(x) && keep(m[x])) by {
                    if x != k {
                        assert(upto.contains(x) <==> prior.contains(x)) by {
                            if upto.contains(x) {
                                let j = choose|j: int| 0 <= j < i + 1 && upto[j] == x;
                                assert(prior[j] == x);
                            }
                        }
                    }
                }
            }
        }
        i = i + 1;
    }
    assert(ks@.take(ks.len() as int) =~= ks@);
    assert forall|k: u32| ids.contains(k) <==> (m.contains_key(k) && keep(m[k])) by {
        if m.contains_key(k) {
            assert(ks@.to_set().contains(k));
        }
    }
    assert(listed_by(m, keep, views_of(v@), ids));
    v
}


/// The ids `v` in increasing order.
pub fn sorted_ids(v: &Vec<u32>) -> (r: Vec<u32>)
    requires
        v@.no_duplicates(),
    ensures
        r@.to_set() == v@.to_set(),
        r@.len() == v@.len(),
        forall|a: int, b: int| 0 <= a < b < r@.len() ==> r@[a] < r@[b],
{
    let mut r: Vec<u32> = Vec::new();
    let mut i: usize = 0;
    while i < v.len()
        invariant
            v@.no_duplicates(),
            i <= v.len(),
            r@.len() == i,
            r@.to_set() == v@.take(i as int).to_set(),
            forall|a: int, b: int| 0 <= a < b < r@.len() ==> r@[a] < r@[b],
        decreases v.len() - i,
    {
        let x = v[i];
        let mut p: usize = 0;
        while p < r.len() && r[p] <= x
            invariant
                p <= r.len(),
                forall|a: int| 0 <= a < p ==> r@[a] <= x,
            decreases r.len() - p,
        {
            p = p + 1;
        }
        proof {
            assert(!r@.to_set().contains(x)) by {
                if r@.to_set().contains(x) {
                    assert(v@.take(i as int).contains(x));
                    let j = choose|j: int| 0 <= j < i && v@.take(i as int)[j] == x;
                    assert(v@[j] == v@[i as int]);
                }
            }
            assert forall|a: int| 0 <= a < p implies r@[a] < x by {
                if r@[a] == x {
                    assert(r@.contains(x));
                }
            }
        }
        let ghost before = r@;
        r.insert(p, x);
        proof {
            before.insert_ensures(p as int, x);
            assert(v@.take(i + 1) =~= v@.take(i as int).push(x));
            assert(r@.to_set() =~= before.to_set().insert(x)) by {
                assert forall|y: u32| r@.contains(y) <==> before.contains(y) || y == x by {
                    if r@.contains(y) {
                        let j = choose|j: int| 0 <= j < r@.len() && r@[j] == y;
                        if j < p {
                            assert(before[j] == y);
                        } else if j > p {
                            assert(before[j - 1] == y);
                        }
                    }
                    if before.contains(y) {
                        let j = choose|j: int| 0 <= j < before.len() && before[j] == y;
                        if j < p {
                            assert(r@[j] == y);
                        } else {
                            assert(r@[j + 1] == y);
                        }
                    }
                    if y == x {
                        assert(r@[p as int] == x);
                    }
                }
            }
            v@.take(i as int).lemma_push_to_set_commute(x);
            assert forall|a: int, b: int| 0 <= a < b < r@.len() implies r@[a] < r@[b] by {
                if b < p {
                } else if b == p {
                } else if a < p {
                    assert(r@[a] == before[a]);
                    assert(r@[b] == before[b - 1]);
                    if p < before.len() {
                        assert(before[p as int] > x);
                    }
                } else if a == p {
                    assert(before[a] > x);
                } else {
                }
            }
        }
        i = i + 1;
    }
    assert(v@.take(v.len() as int) =~= v@);
    proof {
        r@.unique_seq_to_set();
        v@.unique_seq_to_set();
    }
    r
}

/// Whether `ids` increase strictly.
pub open spec fn increasing(ids: Seq<u32>) -> bool {
    forall|a: int, b: int| 0 <= a < b < ids.len() ==> ids[a] < ids[b]
}

/// The readings that the shelf `s` takes, in increasing order of id.
pub fn listing(readings: &Readings, s: &Shelf) -> (v: Vec<Reading>)
    requires
        needs_bookmarks(*s) ==> all_bookmarked(library(*readings)),
    ensures
        exists|ids: Seq<u32>|
            #[trigger] increasing(ids) && listed_by(library(*readings), |r: ReadingView| shelf_keeps(*s, r), views_of(v@), ids),
{
    let ghost m = library(*readings);
    let ghost keep = |r: ReadingView| shelf_keeps(*s, r);
    let ks = sorted_ids(&ids_of(readings));
    let mut v: Vec<Reading> = Vec::new();
    let ghost mut ids: Seq<u32> = Seq::empty();
    let ghost mut where_: Seq<int> = Seq::empty();
    let mut i: usize = 0;
    while i < ks.len()
        invariant
            m == library(*readings),
            keep == (|r: ReadingView| shelf_keeps(*s, r)),
            needs_bookmarks(*s) ==> all_bookmarked(m),
            ks@.to_set() == readings@.dom(),
            forall|a: int, b: int| 0 <= a < b < ks@.len() ==> ks@[a] < ks@[b],
            i <= ks.len(),
            ids.len() == where_.len(),
            forall|j: int| 0 <= j < ids.len() ==> 0 <= #[trigger] where_[j] < i && ks@[where_[j]] == ids[j],
            forall|a: int, b: int| 0 <= a < b < ids.len() ==> where_[a] < where_[b],
            forall|j: int| 0 <= j < i ==> (keep(m[ks@[j]]) ==> ids.contains(ks@[j])),
            forall|j: int| 0 <= j < ids.len() ==> keep(m[ids[j]]),
            views_of(v@).len() == ids.len(),
            forall|j: int| 0 <= j < ids.len() ==> views_of(v@)[j] == m[ids[j]],
        decreases ks.len() - i,
    {
        let k = ks[i];
        assert(ks@.to_set().contains(k));
        assert(readings@.contains_key(k));
        let r = readings.get(&k).unwrap();
        assert(m[k] == r@);
        assert(m.contains_key(k));
        if keeps(s, r) {
            let ghost before = views_of(v@);
            v.push(r.copy());
            proof {
                assert(views_of(v@) =~= before.push(r@));
                let ghost old_ids = ids;
                ids = ids.push(k);
                where_ = where_.push(i as int);
                assert forall|j: int| 0 <= j < i + 1 && keep(m[ks@[j]]) implies ids.contains(ks@[j]) by {
                    if j < i {
                        let t = choose|t: int| 0 <= t < old_ids.len() && old_ids[t] == ks@[j];
                        assert(ids[t] == ks@[j]);
                    } else if j == i {
                        assert(ids[ids.len() - 1] == k);
                    }
                }
            }
        }
        i = i + 1;
    }
    proof {
        assert forall|a: int, b: int| 0 <= a < b < ids.len() implies ids[a] < ids[b] by {
            assert(ks@[where_[a]] < ks@[where_[b]]);
        }
        assert(increasing(ids));
        assert(ids.no_duplicates()) by {
            assert forall|a: int, b: int| 0 <= a < ids.len() && 0 <= b < ids.len() && a != b implies ids[a] != ids[b] by {
                if a < b {
                    assert(ids[a] < ids[b]);
                } else {
                    assert(ids[b] < ids[a]);
                }
            }
        }
        assert forall|k: u32| ids.contains(k) <==> (m.contains_key(k) && keep(m[k])) by {
            if ids.contains(k) {
                let j = choose|j: int| 0 <= j < ids.len() && ids[j] == k;
                assert(ks@.contains(ks@[where_[j]]));
                assert(ks@.to_set().contains(k));
            }
            if m.contains_key(k) && keep(m[k]) {
                assert(ks@.to_set().contains(k));
                let j = choose|j: int| 0 <= j < ks@.len() && ks@[j] == k;
                assert(keep(m[ks@[j]]));
            }
        }
        assert(listed_by(m, keep, views_of(v@), ids));
    }
    v
}


/// The pages that bookmark `i` of `bs` adds after the Unix time `t`: the
/// pages since the bookmark before it, when it is dated after `t`.
pub open spec fn step_since(bs: Seq<Bookmark>, i: int, t: i64) -> int {
    if bs[i].date.secs > t {
        bs[i].page - bs[i - 1].page
    } else {
        0
    }
}

/// The pages read after the Unix time `t` by the bookmarks `bs`: the sum of
/// `step_since` over every bookmark but the first.
pub open spec fn pages_since(bs: Seq<Bookmark>, t: i64) -> int
    decreases bs.len(),
{
    if bs.len() <= 1 {
        0
    } else {
        pages_since(bs.drop_last(), t) + step_since(bs, bs.len() - 1, t)
    }
}

/// The bookmarks `bs` can be counted after `t`: there is one, no bookmark
/// dated after `t` goes back a page, and the count fits a `u32`.
pub open spec fn countable_since(bs: Seq<Bookmark>, t: i64) -> bool {
    &&& bs.len() > 0
    &&& forall|i: int| 1 <= i < bs.len() && bs[i].date.secs > t ==> bs[i - 1].page <= bs[i].page
    &&& pages_since(bs, t) <= u32::MAX
}

proof fn lemma_pages_take(bs: Seq<Bookmark>, t: i64, j: int)
    requires
        1 <= j < bs.len(),
    ensures
        pages_since(bs.take(j + 1), t) == pages_since(bs.take(j), t) + step_since(bs, j, t),
{
    assert(bs.take(j + 1).drop_last() =~= bs.take(j));
    assert(step_since(bs.take(j + 1), j, t) == step_since(bs, j, t));
}

pub(crate) proof fn lemma_pages_nonneg(bs: Seq<Bookmark>, t: i64)
    requires
        forall|i: int| 1 <= i < bs.len() && bs[i].date.secs > t ==> bs[i - 1].page <= bs[i].page,
    ensures
        pages_since(bs, t) >= 0,
    decreases bs.len(),
{
    if bs.len() > 1 {
        lemma_pages_nonneg(bs.drop_last(), t);
    }
}

/// The pages read after the Unix time `t` by the bookmarks `bs`, counted
/// from the last bookmark back to the second.
pub fn pages_read_since(bs: &Vec<Bookmark>, t: i64) -> (n: u32)
    requires
        countable_since(bs@, t),
    ensures
        n == pages_since(bs@, t),
{
    let mut index: usize = bs.len() - 1;
    let mut pages_read: u32 = 0;
    assert(bs@.take(bs@.len() as int) =~= bs@);
    while index > 0
        invariant
            countable_since(bs@, t),
            index < bs.len(),
            pages_read == pages_since(bs@, t) - pages_since(bs@.take(index + 1), t),
        decreases index,
    {
        let r = bs[index];
        let stamp = r.date.secs;
        proof {
            lemma_pages_take(bs@, t, index as int);
            lemma_pages_nonneg(bs@.take(index as int), t);
        }
        index = index - 1;
        if stamp > t {
            pages_read = pages_read + (r.page - bs[index].page);
        }
    }
    assert(pages_since(bs@.take(1), t) == 0);
    pages_read
}


/// Whether `r` shows reading after the Unix time `t`: its last bookmark is
/// dated after `t` and it gained pages since.
pub open spec fn active_since(r: ReadingView, t: i64) -> bool {
    r.bookmarks.last().date.secs > t && pages_since(r.bookmarks, t) > 0
}

/// Every reading of `m` can be counted after `t`.
pub open spec fn all_countable(m: Map<u32, ReadingView>, t: i64) -> bool {
    forall|k: u32| #[trigger] m.contains_key(k) ==> countable_since(m[k].bookmarks, t)
}

/// The pages read after `t` by the readings of `m` under `ids`.
pub open spec fn sum_since(m: Map<u32, ReadingView>, ids: Seq<u32>, t: i64) -> int
    decreases ids.len(),
{
    if ids.len() == 0 {
        0
    } else {
        sum_since(m, ids.drop_last(), t) + pages_since(m[ids.last()].bookmarks, t)
    }
}

/// The readings of the entries of a statistics table.
pub open spec fn entry_views(v: Seq<(Reading, u32)>) -> Seq<ReadingView> {
    v.map_values(|e: (Reading, u32)| e.0@)
}

/// Each reading active since the Unix time `t` with the pages read since,
/// once each in the map's order, and the pages read since `t` by all
/// readings together.
pub fn activity_since(readings: &Readings, t: i64) -> (r: (Vec<(Reading, u32)>, u64))
    requires
        all_countable(library(*readings), t),
    ensures
        lists(library(*readings), |x: ReadingView| active_since(x, t), entry_views(r.0@)),
        forall|i: int| 0 <= i < r.0@.len() ==> r.0@[i].1 == pages_since(r.0@[i].0@.bookmarks, t),
        exists|all: Seq<u32>|
            #[trigger] all.to_set() == readings@.dom() && all.no_duplicates()
                && r.1 == sum_since(library(*readings), all, t),
{
    let ghost m = library(*readings);
    let ghost keep = |x: ReadingView| active_since(x, t);
    let ks = ids_of(readings);
    let mut v: Vec<(Reading, u32)> = Vec::new();
    let mut total: u64 = 0;
    let ghost mut ids: Seq<u32> = Seq::empty();
    let mut i: usize = 0;
    while i < ks.len()
        invariant
            m == library(*readings),
            keep == (|x: ReadingView| active_since(x, t)),
            all_countable(m, t),
            ks@.no_duplicates(),
            ks@.to_set() == readings@.dom(),
            ks@.len() == readings@.dom().len(),
            readings@.dom().finite(),
            i <= ks.len(),
            ids.no_duplicates(),
            forall|k: u32| ids.contains(k) <==> (ks@.take(i as int).contains(k) && keep(m[k])),
            entry_views(v@).len() == ids.len(),
            forall|j: int| 0 <= j < ids.len() ==> entry_views(v@)[j] == m[ids[j]],
            forall|j: int| 0 <= j < v@.len() ==> v@[j].1 == pages_since(v@[j].0@.bookmarks, t),
            total == sum_since(m, ks@.take(i as int), t),
            total <= i * 0xffff_ffff,
        decreases ks.len() - i,
    {
        let k = ks[i];
        assert(ks@.to_set().contains(k));
        assert(readings@.contains_key(k));
        assert(m.contains_key(k));
        let r = readings.get(&k).unwrap();
        assert(m[k] == r@);
        let ghost upto = ks@.take(i + 1);
        let ghost prior = ks@.take(i as int);
        assert(upto =~= prior.push(k));
        assert(upto.drop_last() =~= prior);
        let pages_read = pages_read_since(&r.bookmarks, t);
        proof {
            lemma_pages_nonneg(r@.bookmarks, t);
            assert(i * 0xffff_ffff + 0xffff_ffff == (i + 1) * 0xffff_ffff) by (nonlinear_arith);
            assert(ks@.len() <= 0x1_0000_0000) by {
                lemma_u32_set_size(readings@.dom());
            }
            assert((i + 1) * 0xffff_ffff <= 0x1_0000_0000 * 0xffff_ffff) by (nonlinear_arith)
                requires i + 1 <= 0x1_0000_0000;
        }
        total = total + pages_read as u64;
        let last = r.bookmarks[r.bookmarks.len() - 1];
        let ghost before = entry_views(v@);
        let ghost ids_before = ids;
        if last.date.secs > t && pages_read > 0 {
            proof {
                assert(!ids.contains(k)) by {
                    if ids.contains(k) {
                        assert(prior.contains(k));
                        let j = choose|j: int| 0 <= j < i && prior[j] == k;
                        assert(ks@[j] == ks@[i as int]);
                    }
                }
            }
            v.push((r.copy(), pages_read));
            proof {
                ids = ids.push(k);
                assert(entry_views(v@) =~= before.push(r@));
                assert forall|x: u32| ids.contains(x) <==> (upto.contains(x) && keep(m[x])) by {
                    if x == k {
                        assert(ids[ids.len() - 1] == k);
                        assert(upto[i as int] == k);
                        assert(keep(m[k]));
                    } else {
                        assert(ids.contains(x) <==> ids_before.contains(x)) by {
                            if ids.contains(x) {
                                let j = choose|j: int| 0 <= j < ids.len() && ids[j] == x;
                                assert(ids_before[j] == x);
                            }
                            if ids_before.contains(x) {
                                let j = choose|j: int| 0 <= j < ids_before.len() && ids_before[j] == x;
                                assert(ids[j] == x);
                            }
                        }
                        assert(upto.contains(x) <==> prior.contains(x)) by {
                            if upto.contains(x) {
                                let j = choose|j: int| 0 <= j < i + 1 && upto[j] == x;
                                assert(prior[j] == x);
                            }
                        }
                    }
                }
            }
        } else {
            proof {
                assert forall|x: u32| ids.contains(x) <==> (upto.contains(x) && keep(m[x])) by {
                    if x != k {
                        assert(upto.contains(x) <==> prior.contains(x)) by {
                            if upto.contains(x) {
                                let j = choose|j: int| 0 <= j < i + 1 && upto[j] == x;
                                assert(prior[j] == x);
                            }
                        }
                    } else {
                        assert(!keep(m[k]));
                    }
                }
            }
        }
        i = i + 1;
    }
    assert(ks@.take(ks.len() as int) =~= ks@);
    assert forall|k: u32| ids.contains(k) <==> (m.contains_key(k) && keep(m[k])) by {
        if m.contains_key(k) {
            assert(ks@.to_set().contains(k));
        }
    }
    assert(listed_by(m, keep, entry_views(v@), ids));
    assert(ks@.to_set() == readings@.dom() && ks@.no_duplicates() && total == sum_since(m, ks@, t));
    (v, total)
}

/// The pages read since `t` by all readings of `m` together fit a `u32`,
/// in whatever order they are added.
pub open spec fn stats_total_fits(m: Map<u32, ReadingView>, t: i64) -> bool {
    forall|all: Seq<u32>| #[trigger] all.to_set() == m.dom() && all.no_duplicates() ==> sum_since(m, all, t) <= u32::MAX
}

proof fn lemma_sum_remove(m: Map<u32, ReadingView>, b: Seq<u32>, j: int, t: i64)
    requires
        0 <= j < b.len(),
    ensures
        sum_since(m, b, t) == sum_since(m, b.remove(j), t) + pages_since(m[b[j]].bookmarks, t),
    decreases b.len(),
{
    if j == b.len() - 1 {
        assert(b.remove(j) =~= b.drop_last());
    } else {
        lemma_sum_remove(m, b.drop_last(), j, t);
        assert(b.remove(j).drop_last() =~= b.drop_last().remove(j));
        assert(b.remove(j).last() == b.last());
    }
}

/// The pages read since `t` by the readings under `a` do not depend on the
/// order of `a`.
pub proof fn lemma_sum_any_order(m: Map<u32, ReadingView>, a: Seq<u32>, b: Seq<u32>, t: i64)
    requires
        a.no_duplicates(),
        b.no_duplicates(),
        a.to_set() == b.to_set(),
    ensures
        sum_since(m, a, t) == sum_since(m, b, t),
    decreases a.len(),
{
    a.unique_seq_to_set();
    b.unique_seq_to_set();
    if a.len() > 0 {
        let x = a.last();
        assert(a.to_set().contains(x));
        assert(b.to_set().contains(x));
        let j = choose|j: int| 0 <= j < b.len() && b[j] == x;
        let b2 = b.remove(j);
        let a2 = a.drop_last();
        assert(a2.no_duplicates());
        assert(b2.no_duplicates()) by {
            assert forall|p: int, q: int| 0 <= p < b2.len() && 0 <= q < b2.len() && p != q implies b2[p] != b2[q] by {
                let p2 = if p < j { p } else { p + 1 };
                let q2 = if q < j { q } else { q + 1 };
                assert(b2[p] == b[p2] && b2[q] == b[q2]);
            }
        }
        assert(a2.to_set() =~= b2.to_set()) by {
            assert forall|y: u32| a2.to_set().contains(y) <==> b2.to_set().contains(y) by {
                if a2.contains(y) {
                    let p = choose|p: int| 0 <= p < a2.len() && a2[p] == y;
                    assert(a[p] == y && p != a.len() - 1);
                    assert(y != x);
                    assert(b.to_set().contains(y));
                    let q = choose|q: int| 0 <= q < b.len() && b[q] == y;
                    if q < j {
                        assert(b2[q] == y);
                    } else {
                        assert(q != j);
                        assert(b2[q - 1] == y);
                    }
                }
                if b2.contains(y) {
                    let q = choose|q: int| 0 <= q < b2.len() && b2[q] == y;
                    let q2 = if q < j { q } else { q + 1 };
                    assert(b[q2] == y && q2 != j);
                    assert(y != x);
                    assert(a.to_set().contains(y));
                    let p = choose|p: int| 0 <= p < a.len() && a[p] == y;
                    assert(p != a.len() - 1);
                    assert(a2[p] == y);
                }
            }
        }
        lemma_sum_any_order(m, a2, b2, t);
        lemma_sum_remove(m, b, j, t);
    } else {
        assert(b.len() == 0) by {
            if b.len() > 0 {
                assert(b.to_set().contains(b[0]));
            }
        }
    }
}

/// The statistics since the Unix time `t`: each reading active since `t`
/// with the pages read since, once each in the map's order, and the pages
/// read since `t` by all readings together.
pub fn reading_stats(readings: &Readings, t: i64) -> (r: (Vec<(Reading, u32)>, u32))
    requires
        all_countable(library(*readings), t),
        stats_total_fits(library(*readings), t),
    ensures
        lists(library(*readings), |x: ReadingView| active_since(x, t), entry_views(r.0@)),
        forall|i: int| 0 <= i < r.0@.len() ==> r.0@[i].1 == pages_since(r.0@[i].0@.bookmarks, t),
        forall|all: Seq<u32>|
            #[trigger] all.to_set() == readings@.dom() && all.no_duplicates()
                ==> r.1 == sum_since(library(*readings), all, t),
{
    let ghost m = library(*readings);
    let (entries, total) = activity_since(readings, t);
    proof {
        let all0 = choose|all: Seq<u32>| #[trigger] all.to_set() == readings@.dom() && all.no_duplicates()
            && total == sum_since(m, all, t);
        assert(m.dom() =~= readings@.dom());
        assert(total <= u32::MAX);
        assert forall|all: Seq<u32>| #[trigger] all.to_set() == readings@.dom() && all.no_duplicates()
            implies total == sum_since(m, all, t) by {
            lemma_sum_any_order(m, all0, all, t);
        }
    }
    (entries, total as u32)
}

/// Every reading of `m` that has a bookmark can be counted after `t`.
pub open spec fn bookmarked_countable(m: Map<u32, ReadingView>, t: i64) -> bool {
    forall|k: u32| #[trigger] m.contains_key(k) && m[k].bookmarks.len() > 0 ==> countable_since(m[k].bookmarks, t)
}

/// The pages read since the Unix time `t` by all readings together; a
/// reading without bookmarks counts none.
pub fn pages_total(readings: &Readings, t: i64) -> (n: u64)
    requires
        bookmarked_countable(library(*readings), t),
    ensures
        forall|all: Seq<u32>|
            #[trigger] all.to_set() == readings@.dom() && all.no_duplicates()
                ==> n == sum_since(library(*readings), all, t),
{
    let ghost m = library(*readings);
    let ks = ids_of(readings);
    let mut total: u64 = 0;
    let mut i: usize = 0;
    while i < ks.len()
        invariant
            m == library(*readings),
            bookmarked_countable(m, t),
            ks@.no_duplicates(),
            ks@.to_set() == readings@.dom(),
            ks@.len() == readings@.dom().len(),
            i <= ks.len(),
            total == sum_since(m, ks@.take(i as int), t),
            total <= i * 0xffff_ffff,
        decreases ks.len() - i,
    {
        let k = ks[i];
        assert(ks@.to_set().contains(k));
        assert(readings@.contains_key(k));
        assert(m.contains_key(k));
        let r = readings.get(&k).unwrap();
        assert(m[k] == r@);
        assert(ks@.take(i + 1).drop_last() =~= ks@.take(i as int));
        let pages_read: u32 = if r.bookmarks.len() == 0 {
            0
        } else {
            pages_read_since(&r.bookmarks, t)
        };
        proof {
            if r.bookmarks.len() > 0 {
                lemma_pages_nonneg(r@.bookmarks, t);
            }
            assert(i * 0xffff_ffff + 0xffff_ffff == (i + 1) * 0xffff_ffff) by (nonlinear_arith);
            assert(ks@.len() <= 0x1_0000_0000) by {
                lemma_u32_set_size(readings@.dom());
            }
            assert((i + 1) * 0xffff_ffff <= 0x1_0000_0000 * 0xffff_ffff) by (nonlinear_arith)
                requires i + 1 <= 0x1_0000_0000;
        }
        total = total + pages_read as u64;
        i = i + 1;
    }
    proof {
        assert(ks@.take(ks.len() as int) =~= ks@);
        assert forall|all: Seq<u32>| #[trigger] all.to_set() == readings@.dom() && all.no_duplicates()
            implies total == sum_since(m, all, t) by {
            lemma_sum_any_order(m, ks@, all, t);
        }
    }
    total
}

/// Whether every reading with a bookmark can be counted after `t`.
pub fn every_bookmarked_countable(readings: &Readings, t: i64) -> (b: bool)
    ensures
        b == bookmarked_countable(library(*readings), t),
{
    let ghost m = library(*readings);
    let ks = ids_of(readings);
    let mut i: usize = 0;
    while i < ks.len()
        invariant
            m == library(*readings),
            ks@.to_set() == readings@.dom(),
            i <= ks.len(),
            forall|j: int| 0 <= j < i ==> (m[#[trigger] ks@[j]].bookmarks.len() > 0 ==> countable_since(m[ks@[j]].bookmarks, t)),
        decreases ks.len() - i,
    {
        let k = ks[i];
        assert(ks@.to_set().contains(k));
        assert(readings@.contains_key(k));
        let r = readings.get(&k).unwrap();
        assert(m[k] == r@);
        if r.bookmarks.len() > 0 && !can_count_since(&r.bookmarks, t) {
            proof {
                assert(m.contains_key(k) && m[k].bookmarks.len() > 0 && !countable_since(m[k].bookmarks, t));
            }
            return false;
        }
        i = i + 1;
    }
    proof {
        assert forall|k: u32| #[trigger] m.contains_key(k) && m[k].bookmarks.len() > 0 implies countable_since(m[k].bookmarks, t) by {
            assert(readings@.dom().contains(k));
            assert(ks@.contains(k));
            let j = choose|j: int| 0 <= j < ks@.len() && ks@[j] == k;
        }
    }
    true
}

/// Whether the pages read since `t` by all readings together fit a `u32`.
pub fn stats_fit(readings: &Readings, t: i64) -> (b: bool)
    requires
        all_countable(library(*readings), t),
    ensures
        b == stats_total_fits(library(*readings), t),
{
    let ghost m = library(*readings);
    let (_entries, total) = activity_since(readings, t);
    proof {
        let all0 = choose|all: Seq<u32>| #[trigger] all.to_set() == readings@.dom() && all.no_duplicates()
            && total == sum_since(m, all, t);
        assert(m.dom() =~= readings@.dom());
        if total <= u32::MAX {
            assert forall|all: Seq<u32>| #[trigger] all.to_set() == m.dom() && all.no_duplicates()
                implies sum_since(m, all, t) <= u32::MAX by {
                lemma_sum_any_order(m, all0, all, t);
            }
        } else {
            assert(all0.to_set() == m.dom() && all0.no_duplicates());
        }
    }
    total <= 0xffff_ffff
}

/// A set of `u32` has at most 2^32 members.
proof fn lemma_u32_set_size(s: Set<u32>)
    requires
        s.finite(),
    ensures
        s.len() <= 0x1_0000_0000,
{
    let full = Set::new(|x: u32| true);
    let ints = vstd::set_lib::set_int_range(0, 0x1_0000_0000);
    let f = |y: int| y as u32;
    assert(full =~= ints.map(f)) by {
        assert forall|x: u32| full.contains(x) implies ints.map(f).contains(x) by {
            assert(ints.contains(x as int));
            assert(f(x as int) == x);
        }
    }
    vstd::set_lib::lemma_int_range(0, 0x1_0000_0000);
    vstd::set_lib::lemma_map_size_bound(ints, full, f);
    vstd::set_lib::lemma_len_subset(s, full);
}


/// The key by which the current books are ordered: the lowercase title.
pub open spec fn title_key(r: ReadingView) -> Seq<char> {
    lowercase(r.title)
}

/// Whether the readings `v` are in order of lowercase title.
pub open spec fn by_title(v: Seq<ReadingView>) -> bool {
    forall|a: int, b: int| 0 <= a < b < v.len() ==> !text_less(title_key(v[b]), title_key(v[a]))
}

/// The texts of `keys`.
pub open spec fn key_texts(keys: Seq<String>) -> Seq<Seq<char>> {
    keys.map_values(|k: String| k@)
}

/// Whether `out` is `v` reordered by the positions `p` (each position of
/// `v` once), so that the keys `ks`, one per item of `v`, never go down
/// along `out`, and items of equal key keep the order they had in `v`.
pub open spec fn ordered_by_keys(v: Seq<ReadingView>, ks: Seq<Seq<char>>, out: Seq<ReadingView>, p: Seq<int>) -> bool {
    &&& p.len() == v.len()
    &&& out.len() == v.len()
    &&& p.no_duplicates()
    &&& forall|j: int| 0 <= j < p.len() ==> 0 <= #[trigger] p[j] < v.len()
    &&& forall|i: int| 0 <= i < v.len() ==> #[trigger] p.contains(i)
    &&& forall|j: int| 0 <= j < out.len() ==> #[trigger] out[j] == v[p[j]]
    &&& forall|a: int, b: int| 0 <= a < b < p.len() ==> !text_less(ks[p[b]], ks[p[a]])
    &&& forall|a: int, b: int| 0 <= a < b < p.len() && ks[p[a]] == ks[p[b]] ==> p[a] < p[b]
}

/// The readings `v` sorted by `keys` (one key per reading), in the order
/// of `text_less`; readings of equal key keep their order.
pub fn order_by_keys(v: &Vec<Reading>, keys: &Vec<String>) -> (out: Vec<Reading>)
    requires
        keys@.len() == v@.len(),
    ensures
        exists|p: Seq<int>| #[trigger] ordered_by_keys(views_of(v@), key_texts(keys@), views_of(out@), p),
{
    let ghost ks = key_texts(keys@);
    let ghost vv = views_of(v@);
    let mut out: Vec<Reading> = Vec::new();
    let mut out_keys: Vec<Vec<char>> = Vec::new();
    let ghost mut p: Seq<int> = Seq::empty();
    let mut i: usize = 0;
    while i < v.len()
        invariant
            ks == key_texts(keys@),
            vv == views_of(v@),
            keys@.len() == v@.len(),
            i <= v.len(),
            p.len() == i,
            out@.len() == i,
            out_keys@.len() == i,
            p.no_duplicates(),
            forall|j: int| 0 <= j < p.len() ==> 0 <= #[trigger] p[j] < i,
            forall|x: int| 0 <= x < i ==> #[trigger] p.contains(x),
            forall|j: int| 0 <= j < i ==> (#[trigger] out@[j])@ == vv[p[j]],
            forall|j: int| 0 <= j < i ==> (#[trigger] out_keys@[j])@ == ks[p[j]],
            forall|a: int, b: int| 0 <= a < b < p.len() ==> !text_less(ks[p[b]], ks[p[a]]),
            forall|a: int, b: int| 0 <= a < b < p.len() && ks[p[a]] == ks[p[b]] ==> p[a] < p[b],
        decreases v.len() - i,
    {
        let key = chars_of(keys[i].as_str());
        assert(key@ == ks[i as int]);
        let mut pos: usize = 0;
        while pos < out.len() && !chars_less(&key, &out_keys[pos])
            invariant
                pos <= out.len(),
                out@.len() == out_keys@.len(),
                forall|a: int| 0 <= a < pos ==> !text_less(key@, (#[trigger] out_keys@[a])@),
            decreases out.len() - pos,
        {
            pos = pos + 1;
        }
        let ghost before = out@;
        let ghost before_keys = out_keys@;
        let ghost bp = p;
        assert(vv[i as int] == v@[i as int]@);
        out.insert(pos, v[i].copy());
        out_keys.insert(pos, key);
        proof {
            p = p.insert(pos as int, i as int);
            before.insert_ensures(pos as int, out@[pos as int]);
            before_keys.insert_ensures(pos as int, out_keys@[pos as int]);
            bp.insert_ensures(pos as int, i as int);
            assert forall|j: int| 0 <= j < p.len() implies 0 <= #[trigger] p[j] < i + 1 by {
                if j < pos {
                    assert(p[j] == bp[j]);
                } else if j > pos {
                    assert(p[j] == bp[j - 1]);
                }
            }
            assert forall|x: int| 0 <= x < i + 1 implies #[trigger] p.contains(x) by {
                if x == i {
                    assert(p[pos as int] == x);
                } else {
                    assert(bp.contains(x));
                    let j = choose|j: int| 0 <= j < bp.len() && bp[j] == x;
                    if j < pos {
                        assert(p[j] == x);
                    } else {
                        assert(p[j + 1] == x);
                    }
                }
            }
            assert(p.no_duplicates()) by {
                assert forall|a: int, b: int| 0 <= a < p.len() && 0 <= b < p.len() && a != b implies p[a] != p[b] by {
                    if a == pos {
                        let b2 = if b < pos { b } else { b - 1 };
                        assert(p[b] == bp[b2]);
                    } else if b == pos {
                        let a2 = if a < pos { a } else { a - 1 };
                        assert(p[a] == bp[a2]);
                    } else {
                        let a2 = if a < pos { a } else { a - 1 };
                        let b2 = if b < pos { b } else { b - 1 };
                        assert(p[a] == bp[a2]);
                        assert(p[b] == bp[b2]);
                    }
                }
            }
            assert forall|j: int| 0 <= j < i + 1 implies (#[trigger] out@[j])@ == vv[p[j]] && out_keys@[j]@ == ks[p[j]] by {
                if j < pos {
                    assert(out@[j] == before[j] && out_keys@[j] == before_keys[j] && p[j] == bp[j]);
                } else if j > pos {
                    assert(out@[j] == before[j - 1] && out_keys@[j] == before_keys[j - 1] && p[j] == bp[j - 1]);
                }
            }
            assert forall|a: int, b: int| 0 <= a < b < p.len() implies
                !text_less(ks[p[b]], ks[p[a]]) && (ks[p[a]] == ks[p[b]] ==> p[a] < p[b]) by {
                let ka = ks[p[a]];
                let kb = ks[p[b]];
                if b < pos {
                    assert(p[a] == bp[a] && p[b] == bp[b]);
                } else if b == pos {
                    assert(p[a] == bp[a]);
                    assert(out_keys@[a] == before_keys[a]);
                    assert(!text_less(key@, before_keys[a]@));
                } else if a < pos {
                    assert(p[a] == bp[a] && p[b] == bp[b - 1]);
                } else if a == pos {
                    assert(p[b] == bp[b - 1]);
                    assert(pos < before.len());
                    let kp = ks[bp[pos as int]];
                    assert(before_keys[pos as int]@ == kp);
                    assert(text_less(key@, kp));
                    lemma_text_order(kp, kb, key@);
                    lemma_text_order(key@, kp, kb);
                    lemma_text_order(kb, key@, kp);
                    if kp != kb {
                        assert(pos < b - 1);
                        assert(!text_less(kb, kp));
                        assert(text_less(kp, kb));
                    }
                } else {
                    assert(p[a] == bp[a - 1] && p[b] == bp[b - 1]);
                }
            }
        }
        i = i + 1;
    }
    assert(ordered_by_keys(vv, ks, views_of(out@), p)) by {
        assert forall|j: int| 0 <= j < out@.len() implies #[trigger] views_of(out@)[j] == vv[p[j]] by {
            assert(out@[j]@ == vv[p[j]]);
        }
    }
    out
}

/// The readings active since the Unix time `t`, once each, in order of
/// lowercase title (readings with equal keys keep the map's order).
pub fn current_books(readings: &Readings, t: i64) -> (v: Vec<Reading>)
    requires
        all_countable(library(*readings), t),
    ensures
        lists(library(*readings), |x: ReadingView| active_since(x, t), views_of(v@)),
        by_title(views_of(v@)),
{
    let ghost m = library(*readings);
    let ghost keep = |x: ReadingView| active_since(x, t);
    let (entries, _total) = activity_since(readings, t);
    let ghost ids = choose|ids: Seq<u32>| #[trigger] listed_by(m, keep, entry_views(entries@), ids);
    let mut active: Vec<Reading> = Vec::new();
    let mut keys: Vec<String> = Vec::new();
    let mut i: usize = 0;
    while i < entries.len()
        invariant
            i <= entries.len(),
            active@.len() == i,
            keys@.len() == i,
            forall|j: int| 0 <= j < i ==> (#[trigger] active@[j])@ == entry_views(entries@)[j],
            forall|j: int| 0 <= j < i ==> (#[trigger] keys@[j])@ == title_key(active@[j]@),
        decreases entries.len() - i,
    {
        let r = &entries[i].0;
        assert(entry_views(entries@)[i as int] == r@);
        active.push(r.copy());
        keys.push(to_lower(r.title.as_str()));
        i = i + 1;
    }
    let out = order_by_keys(&active, &keys);
    proof {
        let av = views_of(active@);
        let ks = key_texts(keys@);
        let ov = views_of(out@);
        let p = choose|p: Seq<int>| #[trigger] ordered_by_keys(av, ks, ov, p);
        assert(av =~= entry_views(entries@)) by {
            assert forall|j: int| 0 <= j < av.len() implies av[j] == entry_views(entries@)[j] by {
                assert(av[j] == active@[j]@);
            }
        }
        let oids = Seq::new(p.len(), |j: int| ids[p[j]]);
        assert forall|j: int| 0 <= j < ov.len() implies title_key(#[trigger] ov[j]) == ks[p[j]] by {
            assert(ks[p[j]] == keys@[p[j]]@);
        }
        assert(by_title(ov));
        assert(oids.no_duplicates()) by {
            assert forall|a: int, b: int| 0 <= a < oids.len() && 0 <= b < oids.len() && a != b implies oids[a] != oids[b] by {
                assert(p[a] != p[b]);
            }
        }
        assert forall|k: u32| oids.contains(k) <==> (m.contains_key(k) && keep(m[k])) by {
            if oids.contains(k) {
                let j = choose|j: int| 0 <= j < oids.len() && oids[j] == k;
                assert(ids.contains(ids[p[j]]));
            }
            if m.contains_key(k) && keep(m[k]) {
                assert(ids.contains(k));
                let x = choose|x: int| 0 <= x < ids.len() && ids[x] == k;
                assert(p.contains(x));
                let j = choose|j: int| 0 <= j < p.len() && p[j] == x;
                assert(oids[j] == k);
            }
        }
        assert forall|j: int| 0 <= j < oids.len() implies ov[j] == m[oids[j]] by {
            assert(ov[j] == av[p[j]]);
        }
        assert(listed_by(m, keep, ov, oids));
    }
    out
}


/// The Unix second of the last bookmark of `r`.
pub open spec fn last_stamp(r: ReadingView) -> i64 {
    r.bookmarks.last().date.secs
}

/// Whether `r` is still being read: neither finished nor deleted.
pub open spec fn open_reading(r: ReadingView) -> bool {
    !r.finished && !r.deleted
}

/// Whether `m` holds an open reading.
pub open spec fn has_open(m: Map<u32, ReadingView>) -> bool {
    exists|k: u32| #[trigger] m.contains_key(k) && open_reading(m[k])
}

/// Whether `x` is an open reading of `m` whose last bookmark is no later
/// than that of any other open reading of `m`.
pub open spec fn is_oldest(m: Map<u32, ReadingView>, x: ReadingView) -> bool {
    &&& exists|k: u32| #[trigger] m.contains_key(k) && m[k] == x
    &&& open_reading(x)
    &&& forall|k: u32| #[trigger] m.contains_key(k) && open_reading(m[k]) ==> last_stamp(m[k]) >= last_stamp(x)
}

/// The open reading whose last bookmark is the oldest, or nothing when no
/// reading is open.
pub fn oldest_reading(readings: &Readings) -> (r: Option<Reading>)
    requires
        all_bookmarked(library(*readings)),
    ensures
        match r {
            Some(x) => is_oldest(library(*readings), x@),
            None => !has_open(library(*readings)),
        },
{
    let ghost m = library(*readings);
    let mut oldest_read: i64 = 0;
    let mut to_read: Option<Reading> = None;
    let ks = ids_of(readings);
    let mut i: usize = 0;
    while i < ks.len()
        invariant
            m == library(*readings),
            all_bookmarked(m),
            ks@.to_set() == readings@.dom(),
            i <= ks.len(),
            match to_read {
                Some(x) => {
                    &&& oldest_read == last_stamp(x@)
                    &&& open_reading(x@)
                    &&& exists|k: u32| #[trigger] m.contains_key(k) && m[k] == x@
                },
                None => forall|j: int| 0 <= j < i ==> !open_reading(m[ks@[j]]),
            },
            forall|j: int| 0 <= j < i && open_reading(m[ks@[j]]) ==> last_stamp(m[ks@[j]]) >= oldest_read,
        decreases ks.len() - i,
    {
        let k = ks[i];
        assert(ks@.to_set().contains(k));
        assert(readings@.contains_key(k));
        assert(m.contains_key(k));
        let book = readings.get(&k).unwrap();
        assert(m[k] == book@);
        let stamp = book.bookmarks[book.bookmarks.len() - 1].date.secs;
        if !book.finished && !book.deleted && (to_read.is_none() || stamp < oldest_read) {
            oldest_read = stamp;
            to_read = Some(book.copy());
        }
        i = i + 1;
    }
    proof {
        assert forall|k: u32| #[trigger] m.contains_key(k) && open_reading(m[k]) implies to_read is Some && last_stamp(m[k]) >= oldest_read by {
            assert(readings@.dom().contains(k));
            assert(ks@.contains(k));
            let j = choose|j: int| 0 <= j < ks@.len() && ks@[j] == k;
        }
    }
    to_read
}

/// How many readings are in progress: neither finished nor deleted, and
/// past page 0.
pub open spec fn in_progress_count(m: Map<u32, ReadingView>) -> nat {
    m.dom().filter(|k: u32| shelf_keeps(Shelf::InProgress, m[k])).len()
}

/// Whether `list` holds the readings in progress of `m`, in increasing
/// order of their ids `ids`.
pub open spec fn progress_list(m: Map<u32, ReadingView>, list: Seq<ReadingView>, ids: Seq<u32>) -> bool {
    increasing(ids) && listed_by(m, |r: ReadingView| shelf_keeps(Shelf::InProgress, r), list, ids)
}

/// Whether `x` is the reading in progress at position `i` when the
/// readings in progress are taken in increasing order of id.
pub open spec fn nth_in_progress(m: Map<u32, ReadingView>, i: int, x: ReadingView) -> bool {
    exists|list: Seq<ReadingView>, ids: Seq<u32>|
        #[trigger] progress_list(m, list, ids) && 0 <= i < list.len() && list[i] == x
}

/// A list of the readings in progress of `m` is as long as their number.
proof fn lemma_listed_len(m: Map<u32, ReadingView>, list: Seq<ReadingView>, ids: Seq<u32>)
    requires
        listed_by(m, |r: ReadingView| shelf_keeps(Shelf::InProgress, r), list, ids),
    ensures
        list.len() == in_progress_count(m),
{
    ids.unique_seq_to_set();
    assert(ids.to_set() =~= m.dom().filter(|k: u32| shelf_keeps(Shelf::InProgress, m[k]))) by {
        assert forall|k: u32| ids.to_set().contains(k) <==> m.dom().filter(|k: u32| shelf_keeps(Shelf::InProgress, m[k])).contains(k) by {
            if m.dom().contains(k) {
                assert(m.contains_key(k));
            }
        }
    }
}

/// The reading in progress at position `index` in increasing order of id,
/// or nothing when fewer readings are in progress.
pub fn reading_at(readings: &Readings, index: usize) -> (r: Option<Reading>)
    requires
        all_bookmarked(library(*readings)),
    ensures
        match r {
            Some(x) => nth_in_progress(library(*readings), index as int, x@),
            None => index >= in_progress_count(library(*readings)),
        },
{
    let ghost m = library(*readings);
    let candidates = listing(readings, &Shelf::InProgress);
    proof {
        let ids = choose|ids: Seq<u32>| #[trigger] increasing(ids)
            && listed_by(m, |r: ReadingView| shelf_keeps(Shelf::InProgress, r), views_of(candidates@), ids);
        lemma_listed_len(m, views_of(candidates@), ids);
    }
    if index < candidates.len() {
        proof {
            let ids = choose|ids: Seq<u32>| #[trigger] increasing(ids)
                && listed_by(m, |r: ReadingView| shelf_keeps(Shelf::InProgress, r), views_of(candidates@), ids);
            assert(views_of(candidates@)[index as int] == candidates@[index as int]@);
            assert(progress_list(m, views_of(candidates@), ids));
        }
        Some(candidates[index].copy())
    } else {
        None
    }
}

/// A reading in progress chosen at random: the one at a drawn position
/// among the readings in progress in increasing order of id.
pub fn random_reading(readings: &Readings) -> (r: Reading)
    requires
        all_bookmarked(library(*readings)),
        in_progress_count(library(*readings)) >= 1,
    ensures
        exists|i: int| 0 <= i < in_progress_count(library(*readings)) && #[trigger] nth_in_progress(library(*readings), i, r@),
        exists|k: u32| #[trigger] library(*readings).contains_key(k) && shelf_keeps(Shelf::InProgress, library(*readings)[k])
            && library(*readings)[k] == r@,
{
    let ghost m = library(*readings);
    let count = count_in_progress(readings);
    let i = random_between(0, count);
    let r = reading_at(readings, i).unwrap();
    proof {
        let (list, ids) = choose|list: Seq<ReadingView>, ids: Seq<u32>|
            #[trigger] progress_list(m, list, ids) && 0 <= i < list.len() && list[i as int] == r@;
        assert(ids.contains(ids[i as int]));
        assert(m.contains_key(ids[i as int]));
    }
    r
}


/// The index of the last of the first `n` bookmarks of `bs` that is past
/// page 0, or 0 when there is none: the bookmark that the next one is
/// measured from.
pub open spec fn last_counted(bs: Seq<Bookmark>, n: int) -> int
    decreases n,
{
    if n <= 0 {
        0
    } else if bs[n - 1].page == 0 {
        last_counted(bs, n - 1)
    } else {
        n - 1
    }
}

/// The whole days, as `chrono` counts them, from the bookmark that bookmark
/// `i` of `bs` is measured from to bookmark `i`.
pub open spec fn day_gaps(bs: Seq<Bookmark>) -> Seq<Option<i64>> {
    Seq::new(bs.len(), |i: int| {
        let a = bs[i].date;
        let b = bs[last_counted(bs, i)].date;
        days_elapsed(a.secs, a.nanos, b.secs, b.nanos)
    })
}

/// The pages read per reading day after the first `n` bookmarks of `bs`,
/// where `gaps[i]` is the number of whole days from the bookmark that
/// bookmark `i` is measured from. Bookmarks at page 0 are skipped; a
/// bookmark with a gap of `Some(0)` adds to the last day, any other starts
/// a day.
pub open spec fn flat_days(bs: Seq<Bookmark>, gaps: Seq<Option<i64>>, n: int) -> Seq<int>
    decreases n,
{
    if n <= 0 {
        seq![]
    } else {
        let days = flat_days(bs, gaps, n - 1);
        let b = bs[n - 1];
        if b.page == 0 {
            days
        } else {
            let read = b.page - bs[last_counted(bs, n - 1)].page;
            if gaps[n - 1] == Some(0i64) && days.len() > 0 {
                days.update(days.len() - 1, days.last() + read)
            } else {
                days.push(read)
            }
        }
    }
}

/// Whether counting the days of the first `n` bookmarks of `bs` with the
/// gaps `gaps` never goes back a page and keeps every day's count within a
/// `u32`.
pub open spec fn flat_ok(bs: Seq<Bookmark>, gaps: Seq<Option<i64>>, n: int) -> bool
    decreases n,
{
    if n <= 0 {
        true
    } else {
        let days = flat_days(bs, gaps, n - 1);
        let b = bs[n - 1];
        let prev = last_counted(bs, n - 1);
        &&& flat_ok(bs, gaps, n - 1)
        &&& b.page != 0 ==> {
            &&& bs[prev].page <= b.page
            &&& (gaps[n - 1] == Some(0i64) && days.len() > 0) ==> days.last() + (b.page - bs[prev].page) <= u32::MAX
        }
    }
}

/// Whether bookmark `i` of `bs` and the bookmark it is measured from are
/// both plain instants (see `plain_instant`).
pub open spec fn plain_gap(bs: Seq<Bookmark>, i: int) -> bool {
    let a = bs[i].date;
    let b = bs[last_counted(bs, i)].date;
    plain_instant(a.secs, a.nanos) && plain_instant(b.secs, b.nanos)
}

/// The whole days from the bookmark that each bookmark is measured from to
/// that bookmark; between plain instants, the span truncated toward zero.
pub fn day_gaps_of(bookmarks: &Vec<Bookmark>) -> (gaps: Vec<Option<i64>>)
    ensures
        gaps@ == day_gaps(bookmarks@),
        forall|i: int| 0 <= i < bookmarks@.len() ==> #[trigger] plain_gap(bookmarks@, i) ==> gaps@[i] == Some(
            whole_days(
                bookmarks@[i].date.secs,
                bookmarks@[i].date.nanos,
                bookmarks@[last_counted(bookmarks@, i)].date.secs,
                bookmarks@[last_counted(bookmarks@, i)].date.nanos,
            ) as i64,
        ),
{
    let mut gaps: Vec<Option<i64>> = Vec::new();
    let mut previous: usize = 0;
    let mut i: usize = 0;
    while i < bookmarks.len()
        invariant
            i <= bookmarks.len(),
            previous == last_counted(bookmarks@, i as int),
            previous < bookmarks.len() || bookmarks.len() == 0,
            gaps@.len() == i,
            forall|j: int| 0 <= j < i ==> gaps@[j] == #[trigger] day_gaps(bookmarks@)[j],
            forall|j: int| 0 <= j < i ==> #[trigger] plain_gap(bookmarks@, j) ==> gaps@[j] == Some(
                whole_days(
                    bookmarks@[j].date.secs,
                    bookmarks@[j].date.nanos,
                    bookmarks@[last_counted(bookmarks@, j)].date.secs,
                    bookmarks@[last_counted(bookmarks@, j)].date.nanos,
                ) as i64,
            ),
        decreases bookmarks.len() - i,
    {
        proof {
            lemma_last_counted(bookmarks@, i as int);
        }
        let gap = days_between(bookmarks[i].date, bookmarks[previous].date);
        gaps.push(gap);
        if bookmarks[i].page != 0 {
            previous = i;
        }
        i = i + 1;
    }
    assert(gaps@ =~= day_gaps(bookmarks@));
    gaps
}

/// The pages read per reading day, oldest first, with the day gaps given:
/// the bookmarks after the first, less those at page 0, each counted from
/// the bookmark before it, with those of a gap of no whole day added to the
/// day before.
pub fn flatten_with_gaps(bookmarks: &Vec<Bookmark>, gaps: &Vec<Option<i64>>) -> (pages: Vec<u32>)
    requires
        gaps@.len() == bookmarks@.len(),
        flat_ok(bookmarks@, gaps@, bookmarks@.len() as int),
    ensures
        pages@.map_values(|p: u32| p as int) == flat_days(bookmarks@, gaps@, bookmarks@.len() as int),
{
    let mut pages: Vec<u32> = Vec::new();
    let mut previous: usize = 0;
    let mut i: usize = 0;
    while i < bookmarks.len()
        invariant
            i <= bookmarks.len(),
            gaps@.len() == bookmarks@.len(),
            flat_ok(bookmarks@, gaps@, bookmarks@.len() as int),
            pages@.map_values(|p: u32| p as int) == flat_days(bookmarks@, gaps@, i as int),
            previous == last_counted(bookmarks@, i as int),
            previous < bookmarks.len() || bookmarks.len() == 0,
        decreases bookmarks.len() - i,
    {
        proof {
            lemma_flat_ok_prefix(bookmarks@, gaps@, bookmarks@.len() as int, i + 1);
            lemma_last_counted(bookmarks@, i as int);
        }
        let bookmark = bookmarks[i];
        if bookmark.page == 0 {
            i = i + 1;
            continue;
        }
        let pages_read = bookmark.page - bookmarks[previous].page;
        if gaps[i] == Some(0i64) && pages.len() > 0 {
            let last = pages.len() - 1;
            let total = pages[last] + pages_read;
            pages.set(last, total);
            assert(pages@.map_values(|p: u32| p as int) =~= flat_days(bookmarks@, gaps@, i + 1));
        } else {
            pages.push(pages_read);
            assert(pages@.map_values(|p: u32| p as int) =~= flat_days(bookmarks@, gaps@, i + 1));
        }
        previous = i;
        i = i + 1;
    }
    pages
}

/// The pages read per reading day, oldest first: the bookmarks after the
/// first, less those at page 0, each counted from the bookmark before it,
/// with bookmarks of the same day, as `chrono` counts days, added together.
pub fn flatten_bookmarks(bookmarks: &Vec<Bookmark>) -> (pages: Vec<u32>)
    requires
        bookmarks@.len() > 0,
        flat_ok(bookmarks@, day_gaps(bookmarks@), bookmarks@.len() as int),
    ensures
        pages@.map_values(|p: u32| p as int) == flat_days(bookmarks@, day_gaps(bookmarks@), bookmarks@.len() as int),
{
    let gaps = day_gaps_of(bookmarks);
    flatten_with_gaps(bookmarks, &gaps)
}

/// Whether `flatten_with_gaps` can run on `bookmarks` and `gaps`: no
/// counted bookmark goes back a page, and every day's count fits a `u32`.
pub fn can_flatten_with(bookmarks: &Vec<Bookmark>, gaps: &Vec<Option<i64>>) -> (b: bool)
    requires
        gaps@.len() == bookmarks@.len(),
    ensures
        b == flat_ok(bookmarks@, gaps@, bookmarks@.len() as int),
{
    let mut last_day: u64 = 0;
    let mut days: usize = 0;
    let mut previous: usize = 0;
    let mut i: usize = 0;
    while i < bookmarks.len()
        invariant
            i <= bookmarks.len(),
            gaps@.len() == bookmarks@.len(),
            flat_ok(bookmarks@, gaps@, i as int),
            days == flat_days(bookmarks@, gaps@, i as int).len(),
            days <= i,
            days > 0 ==> last_day == flat_days(bookmarks@, gaps@, i as int).last(),
            last_day <= u32::MAX,
            previous == last_counted(bookmarks@, i as int),
            previous < bookmarks.len() || bookmarks.len() == 0,
        decreases bookmarks.len() - i,
    {
        proof {
            lemma_last_counted(bookmarks@, i as int);
        }
        let bookmark = bookmarks[i];
        if bookmark.page != 0 {
            if bookmarks[previous].page > bookmark.page {
                proof {
                    lemma_flat_not_ok(bookmarks@, gaps@, i + 1, bookmarks@.len() as int);
                }
                return false;
            }
            let pages_read = (bookmark.page - bookmarks[previous].page) as u64;
            if gaps[i] == Some(0i64) && days > 0 {
                if last_day + pages_read > 0xffff_ffff {
                    proof {
                        lemma_flat_not_ok(bookmarks@, gaps@, i + 1, bookmarks@.len() as int);
                    }
                    return false;
                }
                last_day = last_day + pages_read;
            } else {
                last_day = pages_read;
                days = days + 1;
            }
            previous = i;
        }
        i = i + 1;
    }
    true
}

/// Whether `flatten_bookmarks` can run on `bookmarks`: there is one, no
/// counted bookmark goes back a page, and every day's count fits a `u32`.
pub fn can_flatten(bookmarks: &Vec<Bookmark>) -> (b: bool)
    ensures
        b == (bookmarks@.len() > 0 && flat_ok(bookmarks@, day_gaps(bookmarks@), bookmarks@.len() as int)),
{
    if bookmarks.len() == 0 {
        return false;
    }
    let gaps = day_gaps_of(bookmarks);
    can_flatten_with(bookmarks, &gaps)
}

/// The pages read per reading day, or `None` where counting them would go
/// back a page or overflow a day's count.
pub fn daily_pages(bookmarks: &Vec<Bookmark>) -> (r: Option<Vec<u32>>)
    ensures
        match r {
            Some(pages) => bookmarks@.len() > 0 && flat_ok(bookmarks@, day_gaps(bookmarks@), bookmarks@.len() as int)
                && pages@.map_values(|p: u32| p as int) == flat_days(bookmarks@, day_gaps(bookmarks@), bookmarks@.len() as int),
            None => !(bookmarks@.len() > 0 && flat_ok(bookmarks@, day_gaps(bookmarks@), bookmarks@.len() as int)),
        },
{
    if can_flatten(bookmarks) {
        Some(flatten_bookmarks(bookmarks))
    } else {
        None
    }
}

proof fn lemma_flat_not_ok(bs: Seq<Bookmark>, gaps: Seq<Option<i64>>, k: int, n: int)
    requires
        0 <= k <= n,
        !flat_ok(bs, gaps, k),
    ensures
        !flat_ok(bs, gaps, n),
    decreases n - k,
{
    if k < n {
        lemma_flat_not_ok(bs, gaps, k, n - 1);
    }
}

proof fn lemma_flat_ok_prefix(bs: Seq<Bookmark>, gaps: Seq<Option<i64>>, n: int, k: int)
    requires
        flat_ok(bs, gaps, n),
        0 <= k <= n,
    ensures
        flat_ok(bs, gaps, k),
    decreases n - k,
{
    if k < n {
        lemma_flat_ok_prefix(bs, gaps, n - 1, k);
    }
}

pub(crate) proof fn lemma_last_counted(bs: Seq<Bookmark>, n: int)
    requires
        0 <= n,
    ensures
        0 <= last_counted(bs, n) < if n == 0 { 1 } else { n },
    decreases n,
{
    if n > 0 {
        lemma_last_counted(bs, n - 1);
    }
}


/// Whether every reading has a bookmark.
pub fn every_bookmarked(readings: &Readings) -> (b: bool)
    ensures
        b == all_bookmarked(library(*readings)),
{
    let ghost m = library(*readings);
    let ks = ids_of(readings);
    let mut i: usize = 0;
    while i < ks.len()
        invariant
            m == library(*readings),
            ks@.to_set() == readings@.dom(),
            i <= ks.len(),
            forall|j: int| 0 <= j < i ==> m[ks@[j]].bookmarks.len() > 0,
        decreases ks.len() - i,
    {
        let k = ks[i];
        assert(ks@.to_set().contains(k));
        assert(readings@.contains_key(k));
        let r = readings.get(&k).unwrap();
        if r.bookmarks.len() == 0 {
            assert(m.contains_key(k));
            return false;
        }
        i = i + 1;
    }
    assert forall|k: u32| #[trigger] m.contains_key(k) implies m[k].bookmarks.len() > 0 by {
        assert(ks@.to_set().contains(k));
        let j = choose|j: int| 0 <= j < ks@.len() && ks@[j] == k;
    }
    true
}

/// Whether the bookmarks `bs` can be counted after `t`.
pub fn can_count_since(bs: &Vec<Bookmark>, t: i64) -> (b: bool)
    ensures
        b == countable_since(bs@, t),
{
    if bs.len() == 0 {
        return false;
    }
    let mut total: u64 = 0;
    let mut i: usize = 1;
    assert(bs@.take(1).drop_last() =~= bs@.take(0));
    while i < bs.len()
        invariant
            1 <= i <= bs.len(),
            forall|j: int| 1 <= j < i && bs@[j].date.secs > t ==> bs@[j - 1].page <= bs@[j].page,
            total == pages_since(bs@.take(i as int), t),
            total <= u32::MAX,
        decreases bs.len() - i,
    {
        proof {
            lemma_pages_take(bs@, t, i as int);
        }
        if bs[i].date.secs > t {
            if bs[i - 1].page > bs[i].page {
                return false;
            }
            total = total + (bs[i].page - bs[i - 1].page) as u64;
            if total > 0xffff_ffff {
                proof {
                    assert(bs@.take(i + 1).drop_last() =~= bs@.take(i as int));
                    if forall|j: int| 1 <= j < bs@.len() && bs@[j].date.secs > t ==> bs@[j - 1].page <= bs@[j].page {
                        lemma_pages_grow(bs@, t, i + 1, bs@.len() as int);
                        assert(bs@.take(bs@.len() as int) =~= bs@);
                    }
                }
                return false;
            }
        }
        i = i + 1;
    }
    assert(bs@.take(bs@.len() as int) =~= bs@);
    true
}

proof fn lemma_pages_grow(bs: Seq<Bookmark>, t: i64, j: int, k: int)
    requires
        1 <= j <= k <= bs.len(),
        forall|i: int| 1 <= i < bs.len() && bs[i].date.secs > t ==> bs[i - 1].page <= bs[i].page,
    ensures
        pages_since(bs.take(j), t) <= pages_since(bs.take(k), t),
    decreases k - j,
{
    if j < k {
        lemma_pages_grow(bs, t, j, k - 1);
        lemma_pages_take(bs, t, k - 1);
    }
}

/// Whether the pages of every reading can be counted after `t`.
pub fn every_countable(readings: &Readings, t: i64) -> (b: bool)
    ensures
        b == all_countable(library(*readings), t),
{
    let ghost m = library(*readings);
    let ks = ids_of(readings);
    let mut i: usize = 0;
    while i < ks.len()
        invariant
            m == library(*readings),
            ks@.to_set() == readings@.dom(),
            i <= ks.len(),
            forall|j: int| 0 <= j < i ==> countable_since(m[ks@[j]].bookmarks, t),
        decreases ks.len() - i,
    {
        let k = ks[i];
        assert(ks@.to_set().contains(k));
        assert(readings@.contains_key(k));
        let r = readings.get(&k).unwrap();
        if !can_count_since(&r.bookmarks, t) {
            assert(m.contains_key(k));
            return false;
        }
        i = i + 1;
    }
    assert forall|k: u32| #[trigger] m.contains_key(k) implies countable_since(m[k].bookmarks, t) by {
        assert(ks@.to_set().contains(k));
        let j = choose|j: int| 0 <= j < ks@.len() && ks@[j] == k;
    }
    true
}

/// How many readings are in progress.
pub fn count_in_progress(readings: &Readings) -> (n: usize)
    requires
        all_bookmarked(library(*readings)),
    ensures
        n == in_progress_count(library(*readings)),
{
    let ghost m = library(*readings);
    let v = shelve(readings, &Shelf::InProgress);
    proof {
        let keep = |r: ReadingView| shelf_keeps(Shelf::InProgress, r);
        let ids = choose|ids: Seq<u32>| #[trigger] listed_by(m, keep, views_of(v@), ids);
        lemma_listed_len(m, views_of(v@), ids);
    }
    v.len()
}

} // verus!
