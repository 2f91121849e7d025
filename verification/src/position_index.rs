//! The position index: which scope holds a given offset of the source.
//!
//! The intervals are kept by `rust_lapper::Lapper`. What this module claims
//! of it stands in the contracts of the four functions that call it. The
//! query on top of them is proved.

use rust_lapper::{Interval, Lapper};
use vstd::prelude::*;

verus! {

/// Whether the entry `(start, stop, scope)` of a position index holds `offset`.
pub open spec fn covers(entry: (u32, u32, u32), offset: u32) -> bool {
    entry.0 <= offset < entry.1
}

/// Whether `a` stands before `b` in a position index: it starts earlier, or
/// where `b` starts and stops earlier. The scope does not count.
pub open spec fn entry_before(a: (u32, u32, u32), b: (u32, u32, u32)) -> bool {
    a.0 < b.0 || (a.0 == b.0 && a.1 < b.1)
}

/// Whether no entry stands behind one that it should stand before.
pub open spec fn entries_sorted(entries: Seq<(u32, u32, u32)>) -> bool {
    forall|i: int, j: int|
        0 <= i < j < entries.len() ==> !entry_before(#[trigger] entries[j], #[trigger] entries[i])
}

/// The number of entries at the front of `entries` that stand before `entry`.
/// In a sorted index this is the first place at which `entry` can stand.
pub open spec fn insertion_point(entries: Seq<(u32, u32, u32)>, entry: (u32, u32, u32)) -> int
    decreases entries.len(),
{
    if entries.len() == 0 || !entry_before(entries[0], entry) {
        0
    } else {
        1 + insertion_point(entries.drop_first(), entry)
    }
}

/// The entries of `entries` that overlap the range from `start` to `stop`,
/// in their order.
pub open spec fn overlapping(entries: Seq<(u32, u32, u32)>, start: u32, stop: u32) -> Seq<
    (u32, u32, u32),
> {
    entries.filter(|entry: (u32, u32, u32)| entry.0 < stop && entry.1 > start)
}

/// The scope of the last entry of `entries` that holds `offset`. In a sorted
/// index that is the entry which starts last, the innermost.
pub open spec fn innermost_at(entries: Seq<(u32, u32, u32)>, offset: u32) -> Option<u32> {
    if exists|i: int| 0 <= i < entries.len() && covers(#[trigger] entries[i], offset) {
        let last = choose|i: int|
            0 <= i < entries.len() && covers(#[trigger] entries[i], offset) && forall|j: int|
                i < j < entries.len() ==> !covers(#[trigger] entries[j], offset);
        Some(entries[last].2)
    } else {
        None
    }
}

/// An index from ranges of the source to scopes, held in a
/// `rust_lapper::Lapper<u32, u32>`.
#[verifier::external_body]
#[derive(Debug)]
pub struct PositionIndex {
    intervals: Lapper<u32, u32>,
}

/// The intervals of `index` as the `Lapper` holds them in its field
/// `intervals`, each as `(start, stop, val)`.
pub uninterp spec fn index_entries(index: PositionIndex) -> Seq<(u32, u32, u32)>;

impl View for PositionIndex {
    type V = Seq<(u32, u32, u32)>;

    open spec fn view(&self) -> Seq<(u32, u32, u32)> {
        index_entries(*self)
    }
}

impl Clone for PositionIndex {
    /// `Clone::clone` of `Lapper`, which the crate derives: the copy holds
    /// the same intervals in the same order.
    #[verifier::external_body]
    fn clone(&self) -> (copy: Self)
        ensures
            index_entries(copy) == index_entries(*self),
    {
        PositionIndex { intervals: self.intervals.clone() }
    }
}

impl PositionIndex {
    /// `Lapper::new` on one interval: the index holds that interval and no
    /// other.
    #[verifier::external_body]
    pub(crate) fn with_interval(start: u32, stop: u32, val: u32) -> (index: Self)
        ensures
            index_entries(index) == seq![(start, stop, val)],
    {
        PositionIndex { intervals: Lapper::new(vec![Interval { start, stop, val }]) }
    }

    /// `Lapper::insert`. The `Lapper` keeps its intervals ordered by start
    /// and then by stop, and searches that order for the first place at which
    /// the new interval can stand: behind every interval that starts earlier,
    /// or starts where it does and stops earlier, and before all others. The
    /// other intervals keep their order.
    #[verifier::external_body]
    pub(crate) fn insert(&mut self, start: u32, stop: u32, val: u32)
        requires
            entries_sorted(index_entries(*old(self))),
        ensures
            index_entries(*final(self)) == index_entries(*old(self)).insert(
                insertion_point(index_entries(*old(self)), (start, stop, val)),
                (start, stop, val),
            ),
    {
        self.intervals.insert(Interval { start, stop, val });
    }

    /// `Lapper::find`: the intervals that overlap the range from `start` to
    /// `stop`, those with `interval.start < stop` and `interval.stop > start`,
    /// in the order in which the `Lapper` holds them.
    #[verifier::external_body]
    pub(crate) fn find(&self, start: u32, stop: u32) -> (found: Vec<(u32, u32, u32)>)
        requires
            entries_sorted(index_entries(*self)),
        ensures
            found@ == overlapping(index_entries(*self), start, stop),
    {
        self.intervals
            .find(start, stop)
            .map(|interval| (interval.start, interval.stop, interval.val))
            .collect()
    }

    /// The scope of the innermost interval that holds `offset`: of the
    /// intervals that hold it, the one that stands last in the index.
    pub fn innermost_at(&self, offset: u32) -> (scope: Option<u32>)
        requires
            entries_sorted(self@),
        ensures
            scope == innermost_at(self@, offset),
    {
        if offset == u32::MAX {
            assert(forall|i: int| 0 <= i < self@.len() ==> !covers(#[trigger] self@[i], offset));
            return None;
        }
        let found = self.find(offset, offset + 1);
        proof {
            lemma_innermost_is_last_overlap(self@, offset);
        }
        if found.len() == 0 {
            None
        } else {
            Some(found[found.len() - 1].2)
        }
    }
}

/// In a sorted index the insertion point of an entry parts the entries that
/// stand before it from those that do not.
pub proof fn lemma_insertion_point(entries: Seq<(u32, u32, u32)>, entry: (u32, u32, u32))
    requires
        entries_sorted(entries),
    ensures
        0 <= insertion_point(entries, entry) <= entries.len(),
        forall|i: int|
            0 <= i < insertion_point(entries, entry) ==> entry_before(#[trigger] entries[i], entry),
        forall|i: int|
            insertion_point(entries, entry) <= i < entries.len() ==> !entry_before(
                #[trigger] entries[i],
                entry,
            ),
    decreases entries.len(),
{
    if entries.len() == 0 {
    } else if !entry_before(entries[0], entry) {
        assert forall|i: int| 0 <= i < entries.len() implies !entry_before(
            #[trigger] entries[i],
            entry,
        ) by {
            if i > 0 {
                assert(!entry_before(entries[i], entries[0]));
            }
        }
    } else {
        let rest = entries.drop_first();
        assert(entries_sorted(rest)) by {
            assert forall|i: int, j: int| 0 <= i < j < rest.len() implies !entry_before(
                #[trigger] rest[j],
                #[trigger] rest[i],
            ) by {
                assert(!entry_before(entries[j + 1], entries[i + 1]));
            }
        }
        lemma_insertion_point(rest, entry);
        let p = insertion_point(rest, entry);
        assert forall|i: int| 0 <= i < p + 1 implies entry_before(#[trigger] entries[i], entry) by {
            if i > 0 {
                assert(entry_before(rest[i - 1], entry));
            }
        }
        assert forall|i: int| p + 1 <= i < entries.len() implies !entry_before(
            #[trigger] entries[i],
            entry,
        ) by {
            assert(!entry_before(rest[i - 1], entry));
        }
    }
}

/// An entry that is put at its insertion point leaves a sorted index sorted.
pub proof fn lemma_insert_keeps_sorted(entries: Seq<(u32, u32, u32)>, entry: (u32, u32, u32))
    requires
        entries_sorted(entries),
    ensures
        entries_sorted(entries.insert(insertion_point(entries, entry), entry)),
{
    lemma_insertion_point(entries, entry);
    let p = insertion_point(entries, entry);
    let after = entries.insert(p, entry);
    assert forall|i: int, j: int| 0 <= i < j < after.len() implies !entry_before(
        #[trigger] after[j],
        #[trigger] after[i],
    ) by {
        if j < p {
            assert(after[i] == entries[i] && after[j] == entries[j]);
        } else if j == p {
            assert(after[i] == entries[i]);
            assert(entry_before(entries[i], entry));
        } else if i < p {
            assert(after[i] == entries[i] && after[j] == entries[j - 1]);
        } else if i == p {
            assert(after[j] == entries[j - 1]);
            assert(!entry_before(entries[j - 1], entry));
        } else {
            assert(after[i] == entries[i - 1] && after[j] == entries[j - 1]);
        }
    }
}

/// Nothing is left of `entries` under `keep` if `keep` holds of no entry.
proof fn lemma_filter_none(entries: Seq<(u32, u32, u32)>, keep: spec_fn((u32, u32, u32)) -> bool)
    requires
        forall|i: int| 0 <= i < entries.len() ==> !keep(#[trigger] entries[i]),
    ensures
        entries.filter(keep).len() == 0,
    decreases entries.len(),
{
    reveal(Seq::filter);
    if entries.len() > 0 {
        let front = entries.drop_last();
        assert forall|i: int| 0 <= i < front.len() implies !keep(#[trigger] front[i]) by {
            assert(front[i] == entries[i]);
        }
        lemma_filter_none(front, keep);
        assert(!keep(entries[entries.len() - 1]));
    }
}

/// What is left of `entries` under `keep` ends with the last entry of which
/// `keep` holds.
proof fn lemma_filter_last(
    entries: Seq<(u32, u32, u32)>,
    keep: spec_fn((u32, u32, u32)) -> bool,
    last: int,
)
    requires
        0 <= last < entries.len(),
        keep(entries[last]),
        forall|j: int| last < j < entries.len() ==> !keep(#[trigger] entries[j]),
    ensures
        entries.filter(keep).len() > 0,
        entries.filter(keep).last() == entries[last],
    decreases entries.len(),
{
    reveal(Seq::filter);
    let front = entries.drop_last();
    if last == entries.len() - 1 {
        assert(entries.last() == entries[last]);
        assert(entries.filter(keep) == front.filter(keep).push(entries.last()));
    } else {
        assert(!keep(entries[entries.len() - 1]));
        assert(entries.filter(keep) == front.filter(keep));
        assert(front[last] == entries[last]);
        assert forall|j: int| last < j < front.len() implies !keep(#[trigger] front[j]) by {
            assert(front[j] == entries[j]);
        }
        lemma_filter_last(front, keep, last);
    }
}

/// The innermost scope at `offset` is the scope of the last entry that
/// overlaps the range of that one offset.
pub proof fn lemma_innermost_is_last_overlap(entries: Seq<(u32, u32, u32)>, offset: u32)
    requires
        offset < u32::MAX,
    ensures
        innermost_at(entries, offset) == if overlapping(
            entries,
            offset,
            (offset + 1) as u32,
        ).len() == 0 {
            None
        } else {
            Some(overlapping(entries, offset, (offset + 1) as u32).last().2)
        },
{
    let stop = (offset + 1) as u32;
    let overlaps = |entry: (u32, u32, u32)| entry.0 < stop && entry.1 > offset;
    let hits = entries.filter(overlaps);
    assert(hits == overlapping(entries, offset, stop));
    if exists|i: int| 0 <= i < entries.len() && covers(#[trigger] entries[i], offset) {
        lemma_last_covering_exists(entries, offset, entries.len() as int);
        let last = choose|i: int|
            0 <= i < entries.len() && covers(#[trigger] entries[i], offset) && forall|j: int|
                i < j < entries.len() ==> !covers(#[trigger] entries[j], offset);
        assert(overlaps(entries[last]));
        assert forall|j: int| last < j < entries.len() implies !overlaps(#[trigger] entries[j]) by {
            assert(!covers(entries[j], offset));
        }
        lemma_filter_last(entries, overlaps, last);
    } else {
        assert forall|i: int| 0 <= i < entries.len() implies !overlaps(#[trigger] entries[i]) by {
            assert(!covers(entries[i], offset));
        }
        lemma_filter_none(entries, overlaps);
    }
}

/// Among the first `n` entries, if one holds `offset` then one is the last
/// to hold it.
pub proof fn lemma_last_covering_exists(entries: Seq<(u32, u32, u32)>, offset: u32, n: int)
    requires
        0 <= n <= entries.len(),
        exists|i: int| 0 <= i < n && covers(#[trigger] entries[i], offset),
    ensures
        exists|i: int|
            0 <= i < n && covers(#[trigger] entries[i], offset) && forall|j: int|
                i < j < n ==> !covers(#[trigger] entries[j], offset),
    decreases n,
{
    if covers(entries[n - 1], offset) {
        let i = n - 1;
        assert(0 <= i < n && covers(entries[i], offset) && forall|j: int|
            i < j < n ==> !covers(#[trigger] entries[j], offset));
    } else {
        let some = choose|i: int| 0 <= i < n && covers(#[trigger] entries[i], offset);
        assert(some < n - 1);
        lemma_last_covering_exists(entries, offset, n - 1);
        let i = choose|i: int|
            0 <= i < n - 1 && covers(#[trigger] entries[i], offset) && forall|j: int|
                i < j < n - 1 ==> !covers(#[trigger] entries[j], offset);
        assert(0 <= i < n && covers(entries[i], offset) && forall|j: int|
            i < j < n ==> !covers(#[trigger] entries[j], offset));
    }
}

} // verus!
