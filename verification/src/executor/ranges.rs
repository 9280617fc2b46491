//! Row ranges, and the morsels they are grouped into.

use core::ops::Range;

use vstd::prelude::*;

verus! {

/// Bridge small zone-map holes so requests from one physical segment remain visible together.
/// The scan's exact predicate still filters these false-positive rows.
pub const MAX_PRUNING_GAP_ROWS: u64 = 8192;

/// Keep stats evaluation bounded while exposing enough adjacent morsels for stats reads to batch.
pub const PRUNING_LOOKAHEAD_MORSELS: usize = 16;

/// The rows a mask keeps.
pub enum RowMask {
    /// Every row.
    All,
    /// No row.
    Nothing,
    /// The rows of these half-open slices, relative to the masked range.
    Slices(Vec<(usize, usize)>),
}

/// A morsel with the row ranges of it that are asked for.
pub struct SelectedMorsel {
    /// The ranges, in row order.
    pub selected_ranges: Vec<Range<u64>>,
}

/// Whether a row is in a range.
pub open spec fn in_range(range: Range<u64>, row: int) -> bool {
    range.start <= row < range.end
}

/// Whether a row is in one of the ranges.
pub open spec fn in_ranges(ranges: Seq<Range<u64>>, row: int) -> bool {
    exists|i: int| 0 <= i < ranges.len() && #[trigger] in_range(ranges[i], row)
}

impl RowMask {
    /// Whether every slice of the mask is inside a range of `len` rows.
    pub open spec fn fits(self, len: int) -> bool {
        match self {
            RowMask::Slices(slices) => forall|i: int|
                0 <= i < slices@.len() ==> (#[trigger] slices@[i]).0 <= slices@[i].1 <= len,
            _ => true,
        }
    }

    /// The ranges of `range` that the mask keeps.
    pub open spec fn ranges_of(self, range: Range<u64>) -> Seq<Range<u64>> {
        match self {
            RowMask::All => seq![range],
            RowMask::Nothing => Seq::empty(),
            RowMask::Slices(slices) => slices@.map_values(
                |slice: (usize, usize)|
                    Range {
                        start: (range.start + slice.0) as u64,
                        end: (range.start + slice.1) as u64,
                    },
            ),
        }
    }
}

/// The absolute ranges of `range` that `mask` keeps.
pub fn mask_ranges(range: &Range<u64>, mask: &RowMask) -> (ranges: Vec<Range<u64>>)
    requires
        range.start <= range.end,
        mask.fits(range.end - range.start),
    ensures
        ranges@ == mask.ranges_of(*range),
{
    let mut ranges: Vec<Range<u64>> = Vec::new();
    match mask {
        RowMask::All => {
            ranges.push(range.start..range.end);
            assert(ranges@ =~= seq![*range]);
        },
        RowMask::Nothing => {
            assert(ranges@ =~= Seq::empty());
        },
        RowMask::Slices(slices) => {
            let mut i: usize = 0;
            while i < slices.len()
                invariant
                    i <= slices@.len(),
                    ranges@.len() == i,
                    *mask == RowMask::Slices(*slices),
                    forall|j: int|
                        0 <= j < slices@.len() ==> (#[trigger] slices@[j]).0 <= slices@[j].1
                            <= range.end - range.start,
                    range.start <= range.end,
                    forall|j: int|
                        0 <= j < i ==> #[trigger] ranges@[j] == mask.ranges_of(*range)[j],
                decreases slices@.len() - i,
            {
                let slice: (usize, usize) = slices[i];
                ranges.push(range.start + slice.0 as u64..range.start + slice.1 as u64);
                i = i + 1;
            }
            assert(ranges@ =~= mask.ranges_of(*range));
        },
    }
    ranges
}

/// Whether the ranges are well formed and in order: none starts before the previous one ends.
pub open spec fn ascending(ranges: Seq<Range<u64>>) -> bool {
    &&& forall|i: int| 0 <= i < ranges.len() ==> (#[trigger] ranges[i]).start <= ranges[i].end
    &&& forall|i: int, j: int|
        0 <= i < j < ranges.len() ==> (#[trigger] ranges[i]).end <= (#[trigger] ranges[j]).start
}

/// Whether a range continues the one before it across a gap of at most `max_gap`.
pub open spec fn joins(previous: Range<u64>, range: Range<u64>, max_gap: u64) -> bool {
    range.start - previous.end <= max_gap
}

/// The ranges with every one that starts at most `max_gap` after the end of the one before it
/// joined to that one.
pub open spec fn coalesced(ranges: Seq<Range<u64>>, max_gap: u64) -> Seq<Range<u64>>
    decreases ranges.len(),
{
    if ranges.len() == 0 {
        Seq::empty()
    } else {
        let before = coalesced(ranges.drop_last(), max_gap);
        let range = ranges.last();
        if before.len() > 0 && joins(before.last(), range, max_gap) {
            let last = before.last();
            before.drop_last().push(
                Range {
                    start: last.start,
                    end: if last.end < range.end {
                        range.end
                    } else {
                        last.end
                    },
                },
            )
        } else {
            before.push(range)
        }
    }
}

/// Join ranges across gaps of at most `max_gap` rows.
pub fn coalesce_ranges(ranges: Vec<Range<u64>>, max_gap: u64) -> (joined: Vec<Range<u64>>)
    ensures
        joined@ == coalesced(ranges@, max_gap),
{
    let mut joined: Vec<Range<u64>> = Vec::new();
    let mut i: usize = 0;
    assert(ranges@.take(0) =~= Seq::empty());
    while i < ranges.len()
        invariant
            i <= ranges@.len(),
            joined@ == coalesced(ranges@.take(i as int), max_gap),
        decreases ranges@.len() - i,
    {
        let start: u64 = ranges[i].start;
        let end: u64 = ranges[i].end;
        assert(ranges@.take(i + 1).drop_last() =~= ranges@.take(i as int));
        assert(ranges@.take(i + 1).last() == ranges@[i as int]);
        let ghost before = joined@;
        let n: usize = joined.len();
        if n > 0 && start.saturating_sub(joined[n - 1].end) <= max_gap {
            let last_start: u64 = joined[n - 1].start;
            let last_end: u64 = joined[n - 1].end;
            let joined_end: u64 = if last_end < end {
                end
            } else {
                last_end
            };
            joined.set(n - 1, last_start..joined_end);
            assert(joined@ =~= before.drop_last().push(
                Range { start: last_start, end: joined_end },
            ));
        } else {
            joined.push(start..end);
        }
        i = i + 1;
    }
    assert(ranges@.take(i as int) =~= ranges@);
    joined
}

/// Whether the ranges are well formed and sorted by their starts. They may overlap.
pub open spec fn sorted_by_start(ranges: Seq<Range<u64>>) -> bool {
    &&& forall|i: int| 0 <= i < ranges.len() ==> (#[trigger] ranges[i]).start <= ranges[i].end
    &&& forall|i: int, j: int|
        0 <= i < j < ranges.len() ==> (#[trigger] ranges[i]).start <= (#[trigger] ranges[j]).start
}

/// Ranges that are in order are sorted by their starts.
proof fn lemma_ascending_sorted(ranges: Seq<Range<u64>>)
    requires
        ascending(ranges),
    ensures
        sorted_by_start(ranges),
{
    assert forall|i: int, j: int| 0 <= i < j < ranges.len() implies (#[trigger] ranges[i]).start
        <= (#[trigger] ranges[j]).start by {
        assert(ranges[i].start <= ranges[i].end);
    }
}

/// Whether a row lies between the end of range `i` and the start of range `j`, at most `max_gap`
/// later.
pub open spec fn in_gap(ranges: Seq<Range<u64>>, i: int, j: int, row: int, max_gap: u64) -> bool {
    &&& ranges[i].end <= row < ranges[j].start
    &&& ranges[j].start - ranges[i].end <= max_gap
}

/// Whether a row lies in a gap of at most `max_gap` rows.
pub open spec fn in_small_gap(ranges: Seq<Range<u64>>, row: int, max_gap: u64) -> bool {
    exists|i: int, j: int|
        0 <= i < j < ranges.len() && #[trigger] in_gap(ranges, i, j, row, max_gap)
}

/// Whether `end` is the last end of the ranges.
pub open spec fn ends_at(ranges: Seq<Range<u64>>, end: u64) -> bool {
    &&& exists|i: int| 0 <= i < ranges.len() && (#[trigger] ranges[i]).end == end
    &&& forall|i: int| 0 <= i < ranges.len() ==> (#[trigger] ranges[i]).end <= end
}

/// Whether one of the ranges starts at `start`.
pub open spec fn starts_at(ranges: Seq<Range<u64>>, start: u64) -> bool {
    exists|i: int| 0 <= i < ranges.len() && (#[trigger] ranges[i]).start == start
}

/// Coalescing ranges that are sorted by their starts keeps every row, adds only rows of gaps no
/// longer than `max_gap`, and leaves ranges in order that are further apart than that. None is empty
/// where none was.
pub proof fn law_coalesced(ranges: Seq<Range<u64>>, max_gap: u64)
    requires
        sorted_by_start(ranges),
    ensures
        ascending(coalesced(ranges, max_gap)),
        forall|row: int| #[trigger]
            in_ranges(ranges, row) ==> in_ranges(coalesced(ranges, max_gap), row),
        forall|row: int| #[trigger]
            in_ranges(coalesced(ranges, max_gap), row) ==> in_ranges(ranges, row) || in_small_gap(
                ranges,
                row,
                max_gap,
            ),
        (forall|i: int| 0 <= i < ranges.len() ==> (#[trigger] ranges[i]).start < ranges[i].end)
            ==> forall|i: int|
            0 <= i < coalesced(ranges, max_gap).len() ==> (#[trigger] coalesced(
                ranges,
                max_gap,
            )[i]).start < coalesced(ranges, max_gap)[i].end,
        forall|i: int, j: int|
            #![trigger coalesced(ranges, max_gap)[i], coalesced(ranges, max_gap)[j]]
            0 <= i < j < coalesced(ranges, max_gap).len() ==> coalesced(ranges, max_gap)[j].start
                - coalesced(ranges, max_gap)[i].end > max_gap,
        ranges.len() > 0 ==> coalesced(ranges, max_gap).len() > 0 && ends_at(
            ranges,
            coalesced(ranges, max_gap).last().end,
        ) && coalesced(ranges, max_gap)[0].start == ranges[0].start && starts_at(
            ranges,
            coalesced(ranges, max_gap).last().start,
        ),
        ranges.len() == 0 ==> coalesced(ranges, max_gap).len() == 0,
    decreases ranges.len(),
{
    if ranges.len() > 0 {
        let front = ranges.drop_last();
        let range = ranges.last();
        let before = coalesced(front, max_gap);
        let after = coalesced(ranges, max_gap);
        assert(sorted_by_start(front)) by {
            assert forall|i: int, j: int| 0 <= i < j < front.len() implies (
            #[trigger] front[i]).start <= (#[trigger] front[j]).start by {
                assert(ranges[i].start <= ranges[j].start);
            }
            assert forall|i: int| 0 <= i < front.len() implies (#[trigger] front[i]).start
                <= front[i].end by {
                assert(ranges[i].start <= ranges[i].end);
            }
        }
        law_coalesced(front, max_gap);
        assert(ranges[ranges.len() - 1] == range);
        assert(range.start <= range.end);
        if front.len() > 0 {
            assert(front.last() == ranges[front.len() - 1]);
            assert(ranges[front.len() - 1].start <= ranges[ranges.len() - 1].start);
            assert(front[0] == ranges[0]);
            assert(before[before.len() - 1] == before.last());
        }
        assert(ends_at(ranges, after.last().end)) by {
            if front.len() > 0 {
                let i = choose|i: int|
                    0 <= i < front.len() && (#[trigger] front[i]).end == before.last().end;
                assert(ranges[i] == front[i]);
            }
            assert forall|i: int| 0 <= i < ranges.len() implies (#[trigger] ranges[i]).end
                <= after.last().end by {
                if i < front.len() {
                    assert(front[i] == ranges[i]);
                }
            }
        }
        assert forall|row: int| #[trigger] in_ranges(ranges, row) implies in_ranges(after, row) by {
            let i = choose|i: int| 0 <= i < ranges.len() && #[trigger] in_range(ranges[i], row);
            if i < front.len() {
                assert(in_range(front[i], row));
                assert(in_ranges(front, row));
                let k = choose|k: int|
                    0 <= k < before.len() && #[trigger] in_range(before[k], row);
                if k < before.len() - 1 {
                    assert(after[k] == before[k]);
                    assert(in_range(after[k], row));
                } else {
                    assert(in_range(after[k], row));
                }
            } else {
                assert(in_range(after[after.len() - 1], row));
            }
        }
        assert(starts_at(ranges, after.last().start)) by {
            if front.len() > 0 {
                let i = choose|i: int|
                    0 <= i < front.len() && (#[trigger] front[i]).start == before.last().start;
                assert(ranges[i] == front[i]);
            }
        }
        assert forall|row: int| #[trigger] in_ranges(after, row) implies in_ranges(ranges, row)
            || in_small_gap(ranges, row, max_gap) by {
            let k = choose|k: int| 0 <= k < after.len() && #[trigger] in_range(after[k], row);
            if in_range(range, row) {
                assert(in_range(ranges[ranges.len() - 1], row));
            } else if k < before.len() && in_range(before[k], row) {
                assert(in_ranges(before, row));
                if in_ranges(front, row) {
                    let i = choose|i: int|
                        0 <= i < front.len() && #[trigger] in_range(front[i], row);
                    assert(in_range(ranges[i], row));
                } else {
                    let (i, j) = choose|i: int, j: int|
                        0 <= i < j < front.len() && #[trigger] in_gap(front, i, j, row, max_gap);
                    assert(in_gap(ranges, i, j, row, max_gap));
                }
            } else {
                let i = choose|i: int|
                    0 <= i < front.len() && (#[trigger] front[i]).end == before.last().end;
                assert(ranges[i] == front[i]);
                assert(in_gap(ranges, i, ranges.len() - 1, row, max_gap));
            }
        }
    }
}

/// Coalescing bridges every gap of at most `max_gap` rows.
pub proof fn law_small_gaps_are_bridged(ranges: Seq<Range<u64>>, max_gap: u64, row: int)
    requires
        sorted_by_start(ranges),
        in_small_gap(ranges, row, max_gap),
    ensures
        in_ranges(coalesced(ranges, max_gap), row),
    decreases ranges.len(),
{
    let front = ranges.drop_last();
    let range = ranges.last();
    let before = coalesced(front, max_gap);
    let after = coalesced(ranges, max_gap);
    let (i, j) = choose|i: int, j: int|
        0 <= i < j < ranges.len() && #[trigger] in_gap(ranges, i, j, row, max_gap);
    assert(sorted_by_start(front)) by {
        assert forall|a: int, b: int| 0 <= a < b < front.len() implies (#[trigger] front[a]).start
            <= (#[trigger] front[b]).start by {
            assert(ranges[a].start <= ranges[b].start);
        }
        assert forall|a: int| 0 <= a < front.len() implies (#[trigger] front[a]).start
            <= front[a].end by {
            assert(ranges[a].start <= ranges[a].end);
        }
    }
    law_coalesced(front, max_gap);
    let last = before.last();
    let m = choose|m: int| 0 <= m < front.len() && (#[trigger] front[m]).start == last.start;
    assert(front[i] == ranges[i] && front[m] == ranges[m]);
    assert(front[i].end <= last.end);
    if j == front.len() && last.start <= row {
        assert(ranges[j] == range);
        assert(in_range(after[after.len() - 1], row));
    } else {
        if j < front.len() {
            assert(in_gap(front, i, j, row, max_gap));
        } else {
            assert(ranges[m].start <= ranges[j].start);
            if m <= i {
                assert(m == i || ranges[m].start <= ranges[i].start);
                assert(ranges[i].start <= ranges[i].end);
            }
            assert(in_gap(front, i, m, row, max_gap));
        }
        law_small_gaps_are_bridged(front, max_gap, row);
        let k = choose|k: int| 0 <= k < before.len() && #[trigger] in_range(before[k], row);
        if k < before.len() - 1 {
            assert(after[k] == before[k]);
        }
        assert(in_range(after[k], row));
    }
}

/// The number of rows in the ranges.
pub open spec fn rows_of(ranges: Seq<Range<u64>>) -> int
    decreases ranges.len(),
{
    if ranges.len() == 0 {
        0
    } else {
        rows_of(ranges.drop_last()) + (ranges.last().end - ranges.last().start)
    }
}

/// The ranges of a sequence of morsels.
pub open spec fn morsel_ranges(morsels: Seq<SelectedMorsel>) -> Seq<Seq<Range<u64>>> {
    morsels.map_values(|morsel: SelectedMorsel| morsel.selected_ranges@)
}

/// The part of `range` inside `row_range`.
pub open spec fn clip(range: Range<u64>, row_range: Range<u64>) -> Range<u64> {
    Range {
        start: if range.start < row_range.start {
            row_range.start
        } else {
            range.start
        },
        end: if row_range.end < range.end {
            row_range.end
        } else {
            range.end
        },
    }
}

/// The parts of the morsels inside the row range, without the empty ones.
pub open spec fn clipped(morsels: Seq<Range<u64>>, row_range: Range<u64>) -> Seq<Range<u64>>
    decreases morsels.len(),
{
    if morsels.len() == 0 {
        Seq::empty()
    } else {
        let before = clipped(morsels.drop_last(), row_range);
        let part = clip(morsels.last(), row_range);
        if part.start < part.end {
            before.push(part)
        } else {
            before
        }
    }
}

/// Cut the morsels to the row range, dropping those outside it.
pub fn clip_morsels(morsels: &Vec<Range<u64>>, row_range: &Range<u64>) -> (parts: Vec<Range<u64>>)
    ensures
        parts@ == clipped(morsels@, *row_range),
        forall|i: int| 0 <= i < parts@.len() ==> (#[trigger] parts@[i]).start < parts@[i].end,
        forall|row: int| #[trigger]
            in_ranges(parts@, row) <==> in_ranges(morsels@, row) && in_range(*row_range, row),
{
    let mut parts: Vec<Range<u64>> = Vec::new();
    let mut i: usize = 0;
    assert(morsels@.take(0) =~= Seq::empty());
    while i < morsels.len()
        invariant
            i <= morsels@.len(),
            parts@ == clipped(morsels@.take(i as int), *row_range),
            forall|j: int| 0 <= j < parts@.len() ==> (#[trigger] parts@[j]).start < parts@[j].end,
        decreases morsels@.len() - i,
    {
        assert(morsels@.take(i + 1).drop_last() =~= morsels@.take(i as int));
        assert(morsels@.take(i + 1).last() == morsels@[i as int]);
        let start: u64 = if morsels[i].start < row_range.start {
            row_range.start
        } else {
            morsels[i].start
        };
        let end: u64 = if row_range.end < morsels[i].end {
            row_range.end
        } else {
            morsels[i].end
        };
        if start < end {
            parts.push(start..end);
        }
        i = i + 1;
    }
    assert(morsels@.take(i as int) =~= morsels@);
    proof {
        let _ = law_clipped_rows(morsels@, *row_range);
    }
    parts
}

/// Whether there is one mask per part, each inside its part.
pub open spec fn masks_fit(parts: Seq<Range<u64>>, masks: Seq<RowMask>) -> bool {
    &&& parts.len() == masks.len()
    &&& forall|i: int|
        0 <= i < parts.len() ==> (#[trigger] masks[i]).fits(parts[i].end - parts[i].start)
}

/// The ranges that the masks keep of the parts, without the parts they keep nothing of.
pub open spec fn selected(parts: Seq<Range<u64>>, masks: Seq<RowMask>) -> Seq<Seq<Range<u64>>>
    decreases parts.len(),
{
    if parts.len() == 0 {
        Seq::empty()
    } else {
        let before = selected(parts.drop_last(), masks.drop_last());
        let ranges = masks.last().ranges_of(parts.last());
        if ranges.len() == 0 {
            before
        } else {
            before.push(ranges)
        }
    }
}

/// The morsels of the row range, each with the ranges that its selection mask keeps. `masks` has
/// one mask per morsel that is not empty in the row range.
pub fn selected_morsels(
    morsels: &Vec<Range<u64>>,
    row_range: &Range<u64>,
    masks: &Vec<RowMask>,
) -> (kept: Vec<SelectedMorsel>)
    requires
        masks_fit(clipped(morsels@, *row_range), masks@),
    ensures
        morsel_ranges(kept@) == selected(clipped(morsels@, *row_range), masks@),
        forall|row: int| #[trigger]
            in_lists(morsel_ranges(kept@), row) <==> kept_row(
                clipped(morsels@, *row_range),
                masks@,
                row,
            ),
        forall|row: int| #[trigger]
            in_ranges(clipped(morsels@, *row_range), row) <==> in_ranges(morsels@, row)
                && in_range(*row_range, row),
{
    let parts = clip_morsels(morsels, row_range);
    let mut kept: Vec<SelectedMorsel> = Vec::new();
    let mut i: usize = 0;
    assert(parts@.take(0) =~= Seq::empty());
    assert(masks@.take(0) =~= Seq::empty());
    assert(morsel_ranges(kept@) =~= Seq::empty());
    while i < parts.len()
        invariant
            i <= parts@.len(),
            masks_fit(parts@, masks@),
            forall|j: int| 0 <= j < parts@.len() ==> (#[trigger] parts@[j]).start < parts@[j].end,
            morsel_ranges(kept@) == selected(parts@.take(i as int), masks@.take(i as int)),
        decreases parts@.len() - i,
    {
        proof {
            assert(parts@.take(i + 1).drop_last() =~= parts@.take(i as int));
            assert(masks@.take(i + 1).drop_last() =~= masks@.take(i as int));
            assert(parts@.take(i + 1).last() == parts@[i as int]);
            assert(masks@.take(i + 1).last() == masks@[i as int]);
            assert(masks@[i as int].fits(parts@[i as int].end - parts@[i as int].start));
        }
        let ranges = mask_ranges(&parts[i], &masks[i]);
        if ranges.len() > 0 {
            let ghost before = kept@;
            let ghost added = ranges@;
            kept.push(SelectedMorsel { selected_ranges: ranges });
            assert(morsel_ranges(kept@) =~= morsel_ranges(before).push(added));
        }
        i = i + 1;
    }
    assert(parts@.take(i as int) =~= parts@);
    assert(masks@.take(i as int) =~= masks@);
    proof {
        let _ = law_clipped_rows(morsels@, *row_range);
        let _ = law_selected_rows(parts@, masks@);
    }
    kept
}

/// How many of the morsels have rows in the row range.
pub open spec fn intersecting(morsels: Seq<Range<u64>>, row_range: Range<u64>) -> int
    decreases morsels.len(),
{
    if morsels.len() == 0 {
        0
    } else {
        intersecting(morsels.drop_last(), row_range) + if morsels.last().start < row_range.end
            && row_range.start < morsels.last().end {
            1int
        } else {
            0
        }
    }
}

/// Count the morsels that reach into the row range.
pub fn count_intersecting_morsels(morsels: &Vec<Range<u64>>, row_range: &Range<u64>) -> (n: u64)
    ensures
        n == intersecting(morsels@, *row_range),
{
    let mut n: u64 = 0;
    let mut i: usize = 0;
    assert(morsels@.take(0) =~= Seq::empty());
    while i < morsels.len()
        invariant
            i <= morsels@.len(),
            n <= i,
            n == intersecting(morsels@.take(i as int), *row_range),
        decreases morsels@.len() - i,
    {
        assert(morsels@.take(i + 1).drop_last() =~= morsels@.take(i as int));
        if morsels[i].start < row_range.end && row_range.start < morsels[i].end {
            n = n + 1;
        }
        i = i + 1;
    }
    assert(morsels@.take(i as int) =~= morsels@);
    n
}

/// How many of the range lists are not empty.
pub open spec fn nonempty(ranges: Seq<Seq<Range<u64>>>) -> int
    decreases ranges.len(),
{
    if ranges.len() == 0 {
        0
    } else {
        nonempty(ranges.drop_last()) + if ranges.last().len() > 0 {
            1int
        } else {
            0
        }
    }
}

/// How many ranges there are in all the lists.
pub open spec fn total_ranges(ranges: Seq<Seq<Range<u64>>>) -> int
    decreases ranges.len(),
{
    if ranges.len() == 0 {
        0
    } else {
        total_ranges(ranges.drop_last()) + ranges.last().len()
    }
}

/// Count the morsels that have a range.
pub fn count_nonempty_morsels(morsels: &Vec<SelectedMorsel>) -> (n: u64)
    ensures
        n == nonempty(morsel_ranges(morsels@)),
{
    let mut n: u64 = 0;
    let mut i: usize = 0;
    let ghost lists = morsel_ranges(morsels@);
    assert(lists.take(0) =~= Seq::empty());
    while i < morsels.len()
        invariant
            i <= morsels@.len(),
            n <= i,
            lists == morsel_ranges(morsels@),
            n == nonempty(lists.take(i as int)),
        decreases morsels@.len() - i,
    {
        assert(lists.take(i + 1).drop_last() =~= lists.take(i as int));
        if morsels[i].selected_ranges.len() > 0 {
            n = n + 1;
        }
        i = i + 1;
    }
    assert(lists.take(i as int) =~= lists);
    n
}

/// A part of the lists has no more ranges than all of them.
proof fn lemma_total_ranges_prefix(lists: Seq<Seq<Range<u64>>>, k: int)
    requires
        0 <= k <= lists.len(),
    ensures
        0 <= total_ranges(lists.take(k)) <= total_ranges(lists),
    decreases lists.len(),
{
    if k < lists.len() {
        lemma_total_ranges_prefix(lists.drop_last(), k);
        assert(lists.drop_last().take(k) =~= lists.take(k));
    } else {
        assert(lists.take(k) =~= lists);
        if lists.len() > 0 {
            lemma_total_ranges_prefix(lists.drop_last(), lists.len() - 1);
            assert(lists.drop_last().take(lists.len() - 1) =~= lists.drop_last());
        }
    }
}

/// Count the ranges of all the morsels.
pub fn count_ranges(morsels: &Vec<SelectedMorsel>) -> (n: u64)
    requires
        total_ranges(morsel_ranges(morsels@)) <= u64::MAX,
    ensures
        n == total_ranges(morsel_ranges(morsels@)),
{
    let mut n: u64 = 0;
    let mut i: usize = 0;
    let ghost lists = morsel_ranges(morsels@);
    assert(lists.take(0) =~= Seq::empty());
    while i < morsels.len()
        invariant
            i <= morsels@.len(),
            lists == morsel_ranges(morsels@),
            total_ranges(lists) <= u64::MAX,
            n == total_ranges(lists.take(i as int)),
        decreases morsels@.len() - i,
    {
        proof {
            assert(lists.take(i + 1).drop_last() =~= lists.take(i as int));
            lemma_total_ranges_prefix(lists, i + 1);
        }
        n = n + morsels[i].selected_ranges.len() as u64;
        i = i + 1;
    }
    assert(lists.take(i as int) =~= lists);
    n
}

/// Whether a row is in a slice.
pub open spec fn in_slice(slice: (usize, usize), row: int) -> bool {
    slice.0 <= row < slice.1
}

/// Whether a row is in one of the slices.
pub open spec fn in_slices(slices: Seq<(usize, usize)>, row: int) -> bool {
    exists|i: int| 0 <= i < slices.len() && #[trigger] in_slice(slices[i], row)
}

/// Whether the slices are runs of rows in order: none is empty, and none starts before the previous
/// one ends.
pub open spec fn sorted_slices(slices: Seq<(usize, usize)>) -> bool {
    &&& forall|i: int| 0 <= i < slices.len() ==> (#[trigger] slices[i]).0 < slices[i].1
    &&& forall|i: int, j: int|
        0 <= i < j < slices.len() ==> (#[trigger] slices[i]).1 <= (#[trigger] slices[j]).0
}

impl RowMask {
    /// Whether the mask keeps a row of the masked range.
    pub open spec fn keeps(self, row: int) -> bool {
        match self {
            RowMask::All => true,
            RowMask::Nothing => false,
            RowMask::Slices(slices) => in_slices(slices@, row),
        }
    }

    /// Whether the slices of the mask are runs of rows in order.
    pub open spec fn in_order(self) -> bool {
        match self {
            RowMask::Slices(slices) => sorted_slices(slices@),
            _ => true,
        }
    }
}

/// Whether a slice ends no later than one of the slices.
pub open spec fn ends_inside(slices: Seq<(usize, usize)>, slice: (usize, usize)) -> bool {
    exists|m: int| 0 <= m < slices.len() && slice.1 <= (#[trigger] slices[m]).1
}

/// Appending a slice adds its rows and no others.
proof fn lemma_in_slices_push(slices: Seq<(usize, usize)>, slice: (usize, usize), row: int)
    ensures
        in_slices(slices.push(slice), row) <==> in_slices(slices, row) || in_slice(slice, row),
{
    let more = slices.push(slice);
    if in_slices(slices, row) {
        let i = choose|i: int| 0 <= i < slices.len() && #[trigger] in_slice(slices[i], row);
        assert(in_slice(more[i], row));
    }
    if in_slice(slice, row) {
        assert(in_slice(more[slices.len() as int], row));
    }
    if in_slices(more, row) {
        let i = choose|i: int| 0 <= i < more.len() && #[trigger] in_slice(more[i], row);
        if i < slices.len() {
            assert(in_slice(slices[i], row));
        }
    }
}

/// The slices that two lists of slices share.
fn shared_slices(left: &Vec<(usize, usize)>, right: &Vec<(usize, usize)>) -> (shared: Vec<
    (usize, usize),
>)
    requires
        sorted_slices(left@),
        sorted_slices(right@),
    ensures
        sorted_slices(shared@),
        forall|row: int| #[trigger]
            in_slices(shared@, row) <==> in_slices(left@, row) && in_slices(right@, row),
        forall|k: int| 0 <= k < shared@.len() ==> ends_inside(left@, #[trigger] shared@[k]),
{
    let mut shared: Vec<(usize, usize)> = Vec::new();
    let mut i: usize = 0;
    let mut j: usize = 0;
    while i < left.len() && j < right.len()
        invariant
            i <= left@.len(),
            j <= right@.len(),
            sorted_slices(left@),
            sorted_slices(right@),
            sorted_slices(shared@),
            forall|k: int|
                0 <= k < shared@.len() && i < left@.len() && j < right@.len() ==> (
                #[trigger] shared@[k]).1 <= left@[i as int].0 || shared@[k].1
                    <= right@[j as int].0,
            forall|k: int| 0 <= k < shared@.len() ==> ends_inside(left@, #[trigger] shared@[k]),
            forall|row: int| #[trigger]
                in_slices(shared@, row) ==> in_slices(left@, row) && in_slices(right@, row),
            forall|k: int, row: int|
                0 <= k < i && #[trigger] in_slice(left@[k], row) && #[trigger] in_slices(
                    right@,
                    row,
                ) ==> in_slices(shared@, row),
            forall|k: int, row: int|
                0 <= k < j && #[trigger] in_slice(right@[k], row) && #[trigger] in_slices(
                    left@,
                    row,
                ) ==> in_slices(shared@, row),
        decreases left@.len() - i + right@.len() - j,
    {
        let a: (usize, usize) = left[i];
        let b: (usize, usize) = right[j];
        let lo: usize = if a.0 < b.0 {
            b.0
        } else {
            a.0
        };
        let hi: usize = if a.1 < b.1 {
            a.1
        } else {
            b.1
        };
        let ghost before = shared@;
        if lo < hi {
            shared.push((lo, hi));
            proof {
                assert forall|row: int| #[trigger] in_slices(shared@, row) implies in_slices(
                    left@,
                    row,
                ) && in_slices(right@, row) by {
                    lemma_in_slices_push(before, (lo, hi), row);
                    if in_slice((lo, hi), row) {
                        assert(in_slice(left@[i as int], row));
                        assert(in_slice(right@[j as int], row));
                    }
                }
                assert(left@[i as int].1 >= hi);
                assert(ends_inside(left@, (lo, hi)));
            }
        }
        assert forall|row: int| in_slices(before, row) || (in_slice(a, row) && in_slice(b, row))
            implies #[trigger] in_slices(shared@, row) by {
            if lo < hi {
                lemma_in_slices_push(before, (lo, hi), row);
            }
        }
        if a.1 <= b.1 {
            assert forall|k: int, row: int|
                0 <= k < i + 1 && #[trigger] in_slice(left@[k], row) && #[trigger] in_slices(
                    right@,
                    row,
                ) implies in_slices(shared@, row) by {
                if k == i {
                    let m = choose|m: int|
                        0 <= m < right@.len() && #[trigger] in_slice(right@[m], row);
                    assert(in_slices(left@, row));
                    if m < j {
                        assert(in_slices(before, row));
                    } else if m > j {
                        assert(right@[j as int].1 <= right@[m].0);
                    }
                } else {
                    assert(in_slices(before, row));
                }
            }
            i = i + 1;
        } else {
            assert forall|k: int, row: int|
                0 <= k < j + 1 && #[trigger] in_slice(right@[k], row) && #[trigger] in_slices(
                    left@,
                    row,
                ) implies in_slices(shared@, row) by {
                if k == j {
                    let m = choose|m: int|
                        0 <= m < left@.len() && #[trigger] in_slice(left@[m], row);
                    assert(in_slices(right@, row));
                    if m < i {
                        assert(in_slices(before, row));
                    } else if m > i {
                        assert(left@[i as int].1 <= left@[m].0);
                    }
                } else {
                    assert(in_slices(before, row));
                }
            }
            j = j + 1;
        }
    }
    assert forall|row: int| #[trigger] in_slices(shared@, row) <==> in_slices(left@, row)
        && in_slices(right@, row) by {
        if in_slices(left@, row) && in_slices(right@, row) {
            let k = choose|k: int| 0 <= k < left@.len() && #[trigger] in_slice(left@[k], row);
            let m = choose|m: int| 0 <= m < right@.len() && #[trigger] in_slice(right@[m], row);
            if i == left@.len() {
                assert(in_slice(left@[k], row));
            } else {
                assert(in_slice(right@[m], row));
            }
        }
    }
    shared
}

/// A copy of a list of slices.
fn copy_slices(slices: &Vec<(usize, usize)>) -> (copy: Vec<(usize, usize)>)
    ensures
        copy@ == slices@,
{
    let mut copy: Vec<(usize, usize)> = Vec::new();
    let mut i: usize = 0;
    while i < slices.len()
        invariant
            i <= slices@.len(),
            copy@ == slices@.take(i as int),
        decreases slices@.len() - i,
    {
        copy.push(slices[i]);
        i = i + 1;
        assert(slices@.take(i as int) =~= slices@.take(i - 1).push(slices@[i - 1]));
    }
    assert(slices@.take(i as int) =~= slices@);
    copy
}

impl RowMask {
    /// The mask that keeps the rows that both masks keep.
    pub fn intersect(&self, other: &RowMask) -> (both: RowMask)
        requires
            self.in_order(),
            other.in_order(),
        ensures
            both.in_order(),
            forall|row: int| #[trigger] both.keeps(row) <==> self.keeps(row) && other.keeps(row),
            forall|len: int| self.fits(len) && other.fits(len) ==> #[trigger] both.fits(len),
    {
        match (self, other) {
            (RowMask::Nothing, _) | (_, RowMask::Nothing) => RowMask::Nothing,
            (RowMask::All, RowMask::All) => RowMask::All,
            (RowMask::All, RowMask::Slices(slices)) => RowMask::Slices(copy_slices(slices)),
            (RowMask::Slices(slices), RowMask::All) => RowMask::Slices(copy_slices(slices)),
            (RowMask::Slices(left), RowMask::Slices(right)) => RowMask::Slices(
                shared_slices(left, right),
            ),
        }
    }
}

/// The mask that keeps the rows that all of the masks keep: one per conjunct of a filter.
pub fn intersect_masks(masks: &Vec<RowMask>) -> (all: RowMask)
    requires
        forall|i: int| 0 <= i < masks@.len() ==> (#[trigger] masks@[i]).in_order(),
    ensures
        all.in_order(),
        forall|row: int| #[trigger]
            all.keeps(row) <==> forall|i: int|
                0 <= i < masks@.len() ==> (#[trigger] masks@[i]).keeps(row),
        forall|len: int|
            (forall|i: int| 0 <= i < masks@.len() ==> (#[trigger] masks@[i]).fits(len))
                ==> #[trigger] all.fits(len),
{
    let mut all = RowMask::All;
    let mut i: usize = 0;
    while i < masks.len()
        invariant
            i <= masks@.len(),
            forall|j: int| 0 <= j < masks@.len() ==> (#[trigger] masks@[j]).in_order(),
            all.in_order(),
            forall|row: int| #[trigger]
                all.keeps(row) <==> forall|j: int|
                    0 <= j < i ==> (#[trigger] masks@[j]).keeps(row),
            forall|len: int|
                (forall|j: int| 0 <= j < i ==> (#[trigger] masks@[j]).fits(len))
                    ==> #[trigger] all.fits(len),
        decreases masks@.len() - i,
    {
        let ghost before = all;
        all = all.intersect(&masks[i]);
        proof {
            assert forall|row: int| #[trigger] all.keeps(row) <==> forall|j: int|
                0 <= j < i + 1 ==> (#[trigger] masks@[j]).keeps(row) by {
                assert(before.keeps(row) <==> forall|j: int|
                    0 <= j < i ==> (#[trigger] masks@[j]).keeps(row));
                assert(masks@[i as int].keeps(row) == masks@[i as int].keeps(row));
            }
            assert forall|len: int|
                (forall|j: int| 0 <= j < i + 1 ==> (#[trigger] masks@[j]).fits(len))
                implies #[trigger] all.fits(len) by {
                assert(before.fits(len));
                assert(masks@[i as int].fits(len));
            }
        }
        i = i + 1;
    }
    all
}

/// The ranges that a mask keeps hold exactly the rows of the masked range that it keeps.
pub proof fn law_mask_ranges(mask: RowMask, range: Range<u64>, row: int)
    requires
        range.start <= range.end,
        mask.fits(range.end - range.start),
    ensures
        in_ranges(mask.ranges_of(range), row) <==> in_range(range, row) && mask.keeps(
            row - range.start,
        ),
        mask.in_order() ==> ascending(mask.ranges_of(range)),
{
    let ranges = mask.ranges_of(range);
    match mask {
        RowMask::All => {
            if in_range(range, row) {
                assert(in_range(ranges[0], row));
            }
        },
        RowMask::Nothing => {},
        RowMask::Slices(slices) => {
            if in_ranges(ranges, row) {
                let i = choose|i: int| 0 <= i < ranges.len() && #[trigger] in_range(ranges[i], row);
                assert(slices@[i].0 <= slices@[i].1 <= range.end - range.start);
                assert(in_slice(slices@[i], row - range.start));
            }
            if in_slices(slices@, row - range.start) {
                let i = choose|i: int|
                    0 <= i < slices@.len() && #[trigger] in_slice(slices@[i], row - range.start);
                assert(slices@[i].0 <= slices@[i].1 <= range.end - range.start);
                assert(in_range(ranges[i], row));
            }
            if sorted_slices(slices@) {
                assert forall|i: int, j: int| 0 <= i < j < ranges.len() implies (
                #[trigger] ranges[i]).end <= (#[trigger] ranges[j]).start by {
                    assert(slices@[i].1 <= slices@[j].0);
                    assert(slices@[j].0 <= slices@[j].1 <= range.end - range.start);
                }
                assert forall|i: int| 0 <= i < ranges.len() implies (#[trigger] ranges[i]).start
                    <= ranges[i].end by {
                    assert(slices@[i].0 <= slices@[i].1 <= range.end - range.start);
                }
            }
        },
    }
}

/// Whether a row is in one of the range lists.
pub open spec fn in_lists(lists: Seq<Seq<Range<u64>>>, row: int) -> bool {
    exists|m: int| 0 <= m < lists.len() && #[trigger] in_ranges(lists[m], row)
}

/// Whether a row is in part `i` and its mask keeps it.
pub open spec fn kept_in(parts: Seq<Range<u64>>, masks: Seq<RowMask>, i: int, row: int) -> bool {
    in_range(parts[i], row) && masks[i].keeps(row - parts[i].start)
}

/// Whether a row is in one of the parts and the mask of that part keeps it.
pub open spec fn kept_row(parts: Seq<Range<u64>>, masks: Seq<RowMask>, row: int) -> bool {
    exists|i: int| 0 <= i < parts.len() && #[trigger] kept_in(parts, masks, i, row)
}

/// Whether a range holds exactly the rows that two ranges have in common.
pub open spec fn is_overlap(part: Range<u64>, left: Range<u64>, right: Range<u64>) -> bool {
    forall|row: int| #[trigger] in_range(part, row) <==> in_range(left, row) && in_range(right, row)
}

/// Whether a list holds exactly the rows of part `i` that its mask keeps.
pub open spec fn is_kept_of(
    list: Seq<Range<u64>>,
    parts: Seq<Range<u64>>,
    masks: Seq<RowMask>,
    i: int,
) -> bool {
    forall|row: int| #[trigger] in_ranges(list, row) <==> kept_in(parts, masks, i, row)
}

/// Whether places are in increasing order, and there are `n` of them below `end`.
pub open spec fn places(at: Seq<int>, n: nat, end: nat) -> bool {
    &&& at.len() == n
    &&& forall|p: int| 0 <= p < n ==> 0 <= #[trigger] at[p] < end
    &&& forall|p: int, q: int| 0 <= p < q < n ==> #[trigger] at[p] < #[trigger] at[q]
}

/// Whether the parts are, in the order of the morsels at the places `at`, all that those morsels
/// have in the row range.
pub open spec fn cut_from(
    parts: Seq<Range<u64>>,
    morsels: Seq<Range<u64>>,
    row_range: Range<u64>,
    at: Seq<int>,
) -> bool {
    &&& places(at, parts.len(), morsels.len())
    &&& forall|p: int|
        0 <= p < parts.len() ==> is_overlap(#[trigger] parts[p], morsels[at[p]], row_range)
}

/// Whether the lists are, in the order of the parts at the places `at`, all that the masks of those
/// parts keep.
pub open spec fn kept_from(
    lists: Seq<Seq<Range<u64>>>,
    parts: Seq<Range<u64>>,
    masks: Seq<RowMask>,
    at: Seq<int>,
) -> bool {
    &&& places(at, lists.len(), parts.len())
    &&& forall|m: int|
        0 <= m < lists.len() ==> is_kept_of(#[trigger] lists[m], parts, masks, at[m])
}

/// Cutting the morsels to a row range keeps the rows of the morsels that are in the row range, and
/// no others. No part is empty, and each part is all that one morsel has in the row range, in the
/// order of the morsels.
pub proof fn law_clipped_rows(morsels: Seq<Range<u64>>, row_range: Range<u64>) -> (at: Seq<int>)
    ensures
        forall|row: int| #[trigger]
            in_ranges(clipped(morsels, row_range), row) <==> in_ranges(morsels, row) && in_range(
                row_range,
                row,
            ),
        forall|p: int|
            0 <= p < clipped(morsels, row_range).len() ==> (#[trigger] clipped(
                morsels,
                row_range,
            )[p]).start < clipped(morsels, row_range)[p].end,
        cut_from(clipped(morsels, row_range), morsels, row_range, at),
    decreases morsels.len(),
{
    let parts = clipped(morsels, row_range);
    if morsels.len() == 0 {
        Seq::empty()
    } else {
        let front = morsels.drop_last();
        let before = clipped(front, row_range);
        let last = morsels.len() - 1;
        let part = clip(morsels.last(), row_range);
        let front_at = law_clipped_rows(front, row_range);
        assert forall|row: int| #[trigger]
            in_ranges(parts, row) <==> in_ranges(morsels, row) && in_range(row_range, row) by {
            assert(in_range(part, row) <==> in_range(morsels.last(), row) && in_range(
                row_range,
                row,
            ));
            assert(morsels =~= front + seq![morsels.last()]);
            lemma_in_ranges_concat(front, seq![morsels.last()], row);
            lemma_in_ranges_single(morsels.last(), row);
            assert(in_ranges(before, row) <==> in_ranges(front, row) && in_range(row_range, row));
            if part.start < part.end {
                assert(parts =~= before + seq![part]);
                lemma_in_ranges_concat(before, seq![part], row);
                lemma_in_ranges_single(part, row);
            }
        }
        let at = if part.start < part.end {
            front_at.push(last)
        } else {
            front_at
        };
        assert forall|p: int| 0 <= p < parts.len() implies is_overlap(
            #[trigger] parts[p],
            morsels[at[p]],
            row_range,
        ) by {
            if p < before.len() {
                assert(is_overlap(before[p], front[front_at[p]], row_range));
                assert(0 <= front_at[p] < front.len());
            }
        }
        at
    }
}

/// A single range holds its own rows.
proof fn lemma_in_ranges_single(range: Range<u64>, row: int)
    ensures
        in_ranges(seq![range], row) <==> in_range(range, row),
{
    if in_range(range, row) {
        assert(in_range(seq![range][0], row));
    }
}

/// As many parts are left as there are morsels that reach into the row range.
pub proof fn law_clipped_count(morsels: Seq<Range<u64>>, row_range: Range<u64>)
    requires
        row_range.start < row_range.end,
        forall|i: int| 0 <= i < morsels.len() ==> (#[trigger] morsels[i]).start < morsels[i].end,
    ensures
        clipped(morsels, row_range).len() == intersecting(morsels, row_range),
    decreases morsels.len(),
{
    if morsels.len() > 0 {
        let front = morsels.drop_last();
        assert forall|i: int| 0 <= i < front.len() implies (#[trigger] front[i]).start
            < front[i].end by {
            assert(front[i] == morsels[i]);
        }
        law_clipped_count(front, row_range);
        assert(morsels[morsels.len() - 1].start < morsels[morsels.len() - 1].end);
    }
}

/// The selection holds the rows of the parts that their masks keep, and no others. No list of it is
/// empty, and each is all that the mask of one part keeps, in the order of the parts.
pub proof fn law_selected_rows(parts: Seq<Range<u64>>, masks: Seq<RowMask>) -> (at: Seq<int>)
    requires
        masks_fit(parts, masks),
        forall|i: int| 0 <= i < parts.len() ==> (#[trigger] parts[i]).start <= parts[i].end,
    ensures
        forall|row: int| #[trigger]
            in_lists(selected(parts, masks), row) <==> kept_row(parts, masks, row),
        forall|m: int|
            0 <= m < selected(parts, masks).len() ==> (#[trigger] selected(parts, masks)[m]).len()
                > 0,
        kept_from(selected(parts, masks), parts, masks, at),
    decreases parts.len(),
{
    let lists = selected(parts, masks);
    if parts.len() == 0 {
        assert forall|row: int| #[trigger] in_lists(lists, row) <==> kept_row(
            parts,
            masks,
            row,
        ) by {}
        Seq::empty()
    } else {
        let n = parts.len() - 1;
        let front = parts.drop_last();
        let front_masks = masks.drop_last();
        let before = selected(front, front_masks);
        let ranges = masks.last().ranges_of(parts.last());
        assert forall|i: int| 0 <= i < front.len() implies (#[trigger] front_masks[i]).fits(
            front[i].end - front[i].start,
        ) by {
            assert(front_masks[i] == masks[i]);
        }
        assert forall|i: int| 0 <= i < front.len() implies (#[trigger] front[i]).start
            <= front[i].end by {
            assert(front[i] == parts[i]);
        }
        let front_at = law_selected_rows(front, front_masks);
        assert(masks[n].fits(parts[n].end - parts[n].start));
        assert(parts[n].start <= parts[n].end);
        assert(is_kept_of(ranges, parts, masks, n)) by {
            assert forall|row: int| #[trigger] in_ranges(ranges, row) <==> kept_in(
                parts,
                masks,
                n,
                row,
            ) by {
                law_mask_ranges(masks.last(), parts.last(), row);
            }
        }
        assert forall|i: int, row: int| 0 <= i < n implies #[trigger] kept_in(
            parts,
            masks,
            i,
            row,
        ) == kept_in(front, front_masks, i, row) by {
            assert(front[i] == parts[i]);
            assert(front_masks[i] == masks[i]);
        }
        assert forall|row: int| #[trigger] in_lists(lists, row) <==> kept_row(
            parts,
            masks,
            row,
        ) by {
            assert(in_lists(before, row) <==> kept_row(front, front_masks, row));
            if in_lists(lists, row) {
                let m = choose|m: int| 0 <= m < lists.len() && #[trigger] in_ranges(lists[m], row);
                if m < before.len() {
                    assert(in_ranges(before[m], row));
                    let i = choose|i: int|
                        0 <= i < front.len() && #[trigger] kept_in(front, front_masks, i, row);
                    assert(kept_in(parts, masks, i, row));
                } else {
                    assert(in_ranges(ranges, row));
                    assert(kept_in(parts, masks, n, row));
                }
            }
            if kept_row(parts, masks, row) {
                let i = choose|i: int| 0 <= i < parts.len() && #[trigger] kept_in(
                    parts,
                    masks,
                    i,
                    row,
                );
                if i < n {
                    assert(kept_in(front, front_masks, i, row));
                    let m = choose|m: int|
                        0 <= m < before.len() && #[trigger] in_ranges(before[m], row);
                    assert(in_ranges(lists[m], row));
                } else {
                    assert(in_ranges(ranges, row));
                    assert(in_ranges(lists[lists.len() - 1], row));
                }
            }
        }
        let at = if ranges.len() == 0 {
            front_at
        } else {
            front_at.push(n)
        };
        assert forall|m: int| 0 <= m < lists.len() implies is_kept_of(
            #[trigger] lists[m],
            parts,
            masks,
            at[m],
        ) by {
            if m < before.len() {
                let i = front_at[m];
                assert(is_kept_of(before[m], front, front_masks, i));
                assert forall|row: int| #[trigger] in_ranges(lists[m], row) <==> kept_in(
                    parts,
                    masks,
                    i,
                    row,
                ) by {
                    assert(in_ranges(before[m], row) <==> kept_in(front, front_masks, i, row));
                }
            }
        }
        at
    }
}

/// What pruning leaves of the ranges of a morsel: the rows each range's mask keeps, with small
/// gaps bridged, range by range.
pub open spec fn pruned(ranges: Seq<Range<u64>>, masks: Seq<RowMask>) -> Seq<Range<u64>>
    decreases ranges.len(),
{
    if ranges.len() == 0 {
        Seq::empty()
    } else {
        pruned(ranges.drop_last(), masks.drop_last()) + coalesced(
            masks.last().ranges_of(ranges.last()),
            MAX_PRUNING_GAP_ROWS,
        )
    }
}

/// Prune a morsel by masks, one per range.
fn prune_ranges(morsel: SelectedMorsel, masks: Vec<RowMask>) -> (left: SelectedMorsel)
    requires
        masks_fit(morsel.selected_ranges@, masks@),
        forall|i: int|
            0 <= i < morsel.selected_ranges@.len() ==> (#[trigger] morsel.selected_ranges@[i]).start
                <= morsel.selected_ranges@[i].end,
    ensures
        left.selected_ranges@ == pruned(morsel.selected_ranges@, masks@),
{
    let ranges = morsel.selected_ranges;
    let mut left: Vec<Range<u64>> = Vec::new();
    let mut i: usize = 0;
    assert(ranges@.take(0) =~= Seq::empty());
    assert(masks@.take(0) =~= Seq::empty());
    while i < ranges.len()
        invariant
            i <= ranges@.len(),
            masks_fit(ranges@, masks@),
            forall|j: int|
                0 <= j < ranges@.len() ==> (#[trigger] ranges@[j]).start <= ranges@[j].end,
            left@ == pruned(ranges@.take(i as int), masks@.take(i as int)),
        decreases ranges@.len() - i,
    {
        proof {
            assert(ranges@.take(i + 1).drop_last() =~= ranges@.take(i as int));
            assert(masks@.take(i + 1).drop_last() =~= masks@.take(i as int));
            assert(ranges@.take(i + 1).last() == ranges@[i as int]);
            assert(masks@.take(i + 1).last() == masks@[i as int]);
            assert(masks@[i as int].fits(ranges@[i as int].end - ranges@[i as int].start));
        }
        let mut kept = coalesce_ranges(mask_ranges(&ranges[i], &masks[i]), MAX_PRUNING_GAP_ROWS);
        left.append(&mut kept);
        i = i + 1;
    }
    assert(ranges@.take(i as int) =~= ranges@);
    assert(masks@.take(i as int) =~= masks@);
    SelectedMorsel { selected_ranges: left }
}

/// A row of the concatenation of two lists of ranges is a row of one of them.
proof fn lemma_in_ranges_concat(left: Seq<Range<u64>>, right: Seq<Range<u64>>, row: int)
    ensures
        in_ranges(left + right, row) <==> in_ranges(left, row) || in_ranges(right, row),
{
    let whole = left + right;
    if in_ranges(left, row) {
        let i = choose|i: int| 0 <= i < left.len() && #[trigger] in_range(left[i], row);
        assert(in_range(whole[i], row));
    }
    if in_ranges(right, row) {
        let i = choose|i: int| 0 <= i < right.len() && #[trigger] in_range(right[i], row);
        assert(in_range(whole[left.len() + i], row));
    }
    if in_ranges(whole, row) {
        let i = choose|i: int| 0 <= i < whole.len() && #[trigger] in_range(whole[i], row);
        if i < left.len() {
            assert(in_range(left[i], row));
        } else {
            assert(in_range(right[i - left.len()], row));
        }
    }
}

/// Whether the ranges that each mask keeps are in order.
pub open spec fn masks_ascend(ranges: Seq<Range<u64>>, masks: Seq<RowMask>) -> bool {
    forall|i: int|
        0 <= i < ranges.len() ==> ascending((#[trigger] masks[i]).ranges_of(ranges[i]))
}

/// Pruning never drops a row that its mask keeps.
pub proof fn law_pruning_keeps(ranges: Seq<Range<u64>>, masks: Seq<RowMask>, k: int, row: int)
    requires
        ranges.len() == masks.len(),
        masks_ascend(ranges, masks),
        0 <= k < ranges.len(),
        in_ranges(masks[k].ranges_of(ranges[k]), row),
    ensures
        in_ranges(pruned(ranges, masks), row),
    decreases ranges.len(),
{
    let (front, front_masks) = (ranges.drop_last(), masks.drop_last());
    let last = masks.last().ranges_of(ranges.last());
    let n = ranges.len() - 1;
    assert(masks[n] == masks.last() && ranges[n] == ranges.last());
    if k < n {
        assert(masks_ascend(front, front_masks)) by {
            assert forall|i: int| 0 <= i < front.len() implies ascending(
                (#[trigger] front_masks[i]).ranges_of(front[i]),
            ) by {
                assert(ascending(masks[i].ranges_of(ranges[i])));
            }
        }
        law_pruning_keeps(front, front_masks, k, row);
    } else {
        lemma_ascending_sorted(last);
        law_coalesced(last, MAX_PRUNING_GAP_ROWS);
    }
    lemma_in_ranges_concat(
        pruned(front, front_masks),
        coalesced(last, MAX_PRUNING_GAP_ROWS),
        row,
    );
}

/// The rows that a mask keeps of a range, and the gaps between them, are rows of the range.
proof fn lemma_kept_inside(range: Range<u64>, mask: RowMask, row: int)
    requires
        range.start <= range.end,
        mask.fits(range.end - range.start),
        ascending(mask.ranges_of(range)),
        in_ranges(coalesced(mask.ranges_of(range), MAX_PRUNING_GAP_ROWS), row),
    ensures
        in_range(range, row),
{
    let kept = mask.ranges_of(range);
    lemma_ascending_sorted(kept);
    law_coalesced(kept, MAX_PRUNING_GAP_ROWS);
    if in_ranges(kept, row) {
        let i = choose|i: int| 0 <= i < kept.len() && #[trigger] in_range(kept[i], row);
        if let RowMask::Slices(slices) = mask {
            assert(slices@[i].1 <= range.end - range.start);
        }
    } else {
        let (i, j) = choose|i: int, j: int|
            0 <= i < j < kept.len() && #[trigger] in_gap(kept, i, j, row, MAX_PRUNING_GAP_ROWS);
        if let RowMask::Slices(slices) = mask {
            assert(slices@[i].1 <= range.end - range.start);
            assert(slices@[j].1 <= range.end - range.start);
            assert(slices@[j].0 <= slices@[j].1);
        }
    }
}

/// Pruning adds no row that was not selected.
pub proof fn law_pruning_adds_nothing(ranges: Seq<Range<u64>>, masks: Seq<RowMask>, row: int)
    requires
        masks_fit(ranges, masks),
        masks_ascend(ranges, masks),
        forall|i: int| 0 <= i < ranges.len() ==> (#[trigger] ranges[i]).start <= ranges[i].end,
        in_ranges(pruned(ranges, masks), row),
    ensures
        in_ranges(ranges, row),
    decreases ranges.len(),
{
    if ranges.len() == 0 {
        assert(pruned(ranges, masks) =~= Seq::<Range<u64>>::empty());
    } else {
        let (front, front_masks) = (ranges.drop_last(), masks.drop_last());
        let last = masks.last().ranges_of(ranges.last());
        let n = ranges.len() - 1;
        assert(masks[n] == masks.last() && ranges[n] == ranges.last());
        lemma_in_ranges_concat(
            pruned(front, front_masks),
            coalesced(last, MAX_PRUNING_GAP_ROWS),
            row,
        );
        if in_ranges(coalesced(last, MAX_PRUNING_GAP_ROWS), row) {
            assert(masks[n].fits(ranges[n].end - ranges[n].start));
            lemma_kept_inside(ranges[n], masks[n], row);
            assert(in_range(ranges[n], row));
        } else {
            assert forall|i: int| 0 <= i < front.len() implies ascending(
                (#[trigger] front_masks[i]).ranges_of(front[i]),
            ) by {
                assert(ascending(masks[i].ranges_of(ranges[i])));
            }
            assert forall|i: int| 0 <= i < front.len() implies (#[trigger] front[i]).start
                <= front[i].end by {
                assert(ranges[i].start <= ranges[i].end);
            }
            assert(masks_fit(front, front_masks)) by {
                assert forall|i: int| 0 <= i < front.len() implies (
                #[trigger] front_masks[i]).fits(front[i].end - front[i].start) by {
                    assert(masks[i].fits(ranges[i].end - ranges[i].start));
                }
            }
            law_pruning_adds_nothing(front, front_masks, row);
            let i = choose|i: int| 0 <= i < front.len() && #[trigger] in_range(front[i], row);
            assert(in_range(ranges[i], row));
        }
    }
}

/// Whether pruning leaves a row of a range of which these rows are kept: it is kept itself, or lies
/// in a gap of at most [`MAX_PRUNING_GAP_ROWS`] between two kept rows of the range.
pub open spec fn bridged(kept: spec_fn(int) -> bool, range: Range<u64>, row: int) -> bool {
    &&& in_range(range, row)
    &&& kept(row) || exists|p: int, q: int|
        in_range(range, p) && in_range(range, q) && p < row < q && q - p - 1
            <= MAX_PRUNING_GAP_ROWS && #[trigger] kept(p) && #[trigger] kept(q)
}

impl RowMask {
    /// The rows of the masked range that the mask keeps, by their numbers in the file.
    pub open spec fn kept_of(self, range: Range<u64>) -> spec_fn(int) -> bool {
        |row: int| self.keeps(row - range.start)
    }
}

/// Of a range, the rows that its mask keeps and those of small gaps between them are left, and no
/// others.
pub proof fn law_pruned_range(range: Range<u64>, mask: RowMask, row: int)
    requires
        range.start <= range.end,
        mask.fits(range.end - range.start),
        mask.in_order(),
    ensures
        in_ranges(coalesced(mask.ranges_of(range), MAX_PRUNING_GAP_ROWS), row) <==> bridged(
            mask.kept_of(range),
            range,
            row,
        ),
{
    let ranges = mask.ranges_of(range);
    let left = coalesced(ranges, MAX_PRUNING_GAP_ROWS);
    let kept = mask.kept_of(range);
    law_mask_ranges(mask, range, row);
    lemma_ascending_sorted(ranges);
    law_coalesced(ranges, MAX_PRUNING_GAP_ROWS);
    if in_ranges(left, row) {
        lemma_kept_inside(range, mask, row);
        if !in_ranges(ranges, row) {
            let (i, j) = choose|i: int, j: int|
                0 <= i < j < ranges.len() && #[trigger] in_gap(
                    ranges,
                    i,
                    j,
                    row,
                    MAX_PRUNING_GAP_ROWS,
                );
            if let RowMask::Slices(slices) = mask {
                assert(slices@[i].0 < slices@[i].1 <= range.end - range.start);
                assert(slices@[j].0 < slices@[j].1 <= range.end - range.start);
                let (p, q) = (ranges[i].end - 1, ranges[j].start as int);
                assert(in_slice(slices@[i], p - range.start));
                assert(in_slice(slices@[j], q - range.start));
                assert(kept(p) && kept(q));
            }
        }
    }
    if bridged(kept, range, row) && !kept(row) {
        let (p, q) = choose|p: int, q: int|
            in_range(range, p) && in_range(range, q) && p < row < q && q - p - 1
                <= MAX_PRUNING_GAP_ROWS && #[trigger] kept(p) && #[trigger] kept(q);
        if let RowMask::Slices(slices) = mask {
            let i = choose|i: int|
                0 <= i < slices@.len() && #[trigger] in_slice(slices@[i], p - range.start);
            let j = choose|j: int|
                0 <= j < slices@.len() && #[trigger] in_slice(slices@[j], q - range.start);
            assert(slices@[i].1 <= range.end - range.start);
            assert(slices@[j].1 <= range.end - range.start);
            assert(!in_slice(slices@[i], row - range.start));
            assert(!in_slice(slices@[j], row - range.start));
            if j < i {
                assert(slices@[j].1 <= slices@[i].0);
            }
            assert(in_gap(ranges, i, j, row, MAX_PRUNING_GAP_ROWS));
            law_small_gaps_are_bridged(ranges, MAX_PRUNING_GAP_ROWS, row);
        }
    }
}

/// A mask that keeps no row of a range that has rows leaves nothing of it.
pub proof fn law_ruled_out_range(range: Range<u64>, mask: RowMask)
    requires
        range.start < range.end,
        mask.fits(range.end - range.start),
        mask.in_order(),
        forall|row: int| in_range(range, row) ==> !#[trigger] mask.keeps(row - range.start),
    ensures
        coalesced(mask.ranges_of(range), MAX_PRUNING_GAP_ROWS).len() == 0,
{
    match mask {
        RowMask::All => {
            assert(in_range(range, range.start as int));
            assert(mask.keeps(range.start - range.start));
        },
        RowMask::Nothing => {
            assert(mask.ranges_of(range).len() == 0);
        },
        RowMask::Slices(slices) => {
            if slices@.len() > 0 {
                assert(slices@[0].0 < slices@[0].1 <= range.end - range.start);
                let row = range.start + slices@[0].0;
                assert(in_slice(slices@[0], row - range.start));
                assert(in_range(range, row));
                assert(mask.keeps(row - range.start));
            }
            assert(mask.ranges_of(range).len() == 0);
        },
    }
}

/// What a mask leaves of a range that has rows is not empty in any part.
proof fn lemma_left_has_rows(range: Range<u64>, mask: RowMask)
    requires
        range.start < range.end,
        mask.fits(range.end - range.start),
        mask.in_order(),
    ensures
        forall|i: int|
            0 <= i < coalesced(mask.ranges_of(range), MAX_PRUNING_GAP_ROWS).len() ==> (
            #[trigger] coalesced(mask.ranges_of(range), MAX_PRUNING_GAP_ROWS)[i]).start
                < coalesced(mask.ranges_of(range), MAX_PRUNING_GAP_ROWS)[i].end,
{
    let ranges = mask.ranges_of(range);
    law_mask_ranges(mask, range, 0);
    lemma_ascending_sorted(ranges);
    law_coalesced(ranges, MAX_PRUNING_GAP_ROWS);
    assert forall|i: int| 0 <= i < ranges.len() implies (#[trigger] ranges[i]).start
        < ranges[i].end by {
        if let RowMask::Slices(slices) = mask {
            assert(slices@[i].0 < slices@[i].1 <= range.end - range.start);
        }
    }
}

/// Whether row `row` is left of range `k`.
pub open spec fn left_of(ranges: Seq<Range<u64>>, masks: Seq<RowMask>, k: int, row: int) -> bool {
    bridged(masks[k].kept_of(ranges[k]), ranges[k], row)
}

/// Whether there is an ordered mask for each well-formed range.
pub open spec fn prunable(ranges: Seq<Range<u64>>, masks: Seq<RowMask>) -> bool {
    &&& masks_fit(ranges, masks)
    &&& forall|i: int|
        0 <= i < ranges.len() ==> (#[trigger] ranges[i]).start <= ranges[i].end
            && masks[i].in_order()
}

proof fn lemma_prunable_front(ranges: Seq<Range<u64>>, masks: Seq<RowMask>)
    requires
        prunable(ranges, masks),
        ranges.len() > 0,
    ensures
        prunable(ranges.drop_last(), masks.drop_last()),
        ranges.last().start <= ranges.last().end,
        masks.last().in_order(),
        masks.last().fits(ranges.last().end - ranges.last().start),
{
    let (front, front_masks) = (ranges.drop_last(), masks.drop_last());
    assert forall|i: int| 0 <= i < front.len() implies (#[trigger] front_masks[i]).fits(
        front[i].end - front[i].start,
    ) by {
        assert(masks[i].fits(ranges[i].end - ranges[i].start));
    }
    assert forall|i: int| 0 <= i < front.len() implies (#[trigger] front[i]).start <= front[i].end
        && front_masks[i].in_order() by {
        assert(front[i] == ranges[i]);
    }
    let n = ranges.len() - 1;
    assert(ranges[n].start <= ranges[n].end && masks[n].fits(ranges[n].end - ranges[n].start));
}

/// Pruning leaves exactly the rows that the masks leave of the ranges, each by its own mask. No
/// range that is left is empty if none was.
pub proof fn law_pruned_rows(ranges: Seq<Range<u64>>, masks: Seq<RowMask>, row: int)
    requires
        prunable(ranges, masks),
    ensures
        in_ranges(pruned(ranges, masks), row) <==> exists|k: int|
            0 <= k < ranges.len() && #[trigger] left_of(ranges, masks, k, row),
        (forall|i: int| 0 <= i < ranges.len() ==> (#[trigger] ranges[i]).start < ranges[i].end)
            ==> forall|i: int|
            0 <= i < pruned(ranges, masks).len() ==> (#[trigger] pruned(ranges, masks)[i]).start
                < pruned(ranges, masks)[i].end,
    decreases ranges.len(),
{
    if ranges.len() > 0 {
        let (front, front_masks) = (ranges.drop_last(), masks.drop_last());
        let n = ranges.len() - 1;
        let piece = coalesced(masks.last().ranges_of(ranges.last()), MAX_PRUNING_GAP_ROWS);
        lemma_prunable_front(ranges, masks);
        law_pruned_rows(front, front_masks, row);
        law_pruned_range(ranges.last(), masks.last(), row);
        lemma_in_ranges_concat(pruned(front, front_masks), piece, row);
        assert(left_of(ranges, masks, n, row) <==> in_ranges(piece, row));
        if exists|k: int| 0 <= k < front.len() && #[trigger] left_of(front, front_masks, k, row) {
            let k = choose|k: int|
                0 <= k < front.len() && #[trigger] left_of(front, front_masks, k, row);
            assert(left_of(ranges, masks, k, row));
        }
        if exists|k: int| 0 <= k < ranges.len() && #[trigger] left_of(ranges, masks, k, row) {
            let k = choose|k: int|
                0 <= k < ranges.len() && #[trigger] left_of(ranges, masks, k, row);
            if k < n {
                assert(left_of(front, front_masks, k, row));
            }
        }
        if forall|i: int| 0 <= i < ranges.len() ==> (#[trigger] ranges[i]).start < ranges[i].end {
            assert forall|i: int| 0 <= i < front.len() implies (#[trigger] front[i]).start
                < front[i].end by {
                assert(ranges[i].start < ranges[i].end);
            }
            assert(ranges[n].start < ranges[n].end);
            lemma_left_has_rows(ranges.last(), masks.last());
        }
    } else {
        assert(pruned(ranges, masks) =~= Seq::<Range<u64>>::empty());
    }
}

/// Whether ranges with rows are in order, with rows between them.
pub open spec fn apart(ranges: Seq<Range<u64>>) -> bool {
    &&& forall|i: int| 0 <= i < ranges.len() ==> (#[trigger] ranges[i]).start < ranges[i].end
    &&& forall|i: int, j: int|
        0 <= i < j < ranges.len() ==> (#[trigger] ranges[i]).end < (#[trigger] ranges[j]).start
}

/// Ranges that are apart are decided by their rows.
proof fn lemma_apart_unique(a: Seq<Range<u64>>, b: Seq<Range<u64>>)
    requires
        apart(a),
        apart(b),
        forall|row: int| #[trigger] in_ranges(a, row) <==> in_ranges(b, row),
    ensures
        a == b,
    decreases a.len(),
{
    if a.len() == 0 || b.len() == 0 {
        if a.len() > 0 {
            assert(in_range(a[0], a[0].start as int));
            assert(in_ranges(a, a[0].start as int));
        }
        if b.len() > 0 {
            assert(in_range(b[0], b[0].start as int));
            assert(in_ranges(b, b[0].start as int));
            assert(in_ranges(a, b[0].start as int));
        }
    } else {
        lemma_last_covers(a, b);
        lemma_last_covers(b, a);
        assert(a.last() == b.last());
        let (front_a, front_b) = (a.drop_last(), b.drop_last());
        lemma_apart_front(a);
        lemma_apart_front(b);
        assert forall|row: int| #[trigger] in_ranges(front_a, row) <==> in_ranges(front_b, row) by {
            assert(in_ranges(a, row) <==> in_ranges(b, row));
        }
        lemma_apart_unique(front_a, front_b);
        assert(a =~= front_a.push(a.last()));
        assert(b =~= front_b.push(b.last()));
    }
}

/// The last range of ranges that are apart reaches as far as the last of others with the same rows.
proof fn lemma_last_covers(a: Seq<Range<u64>>, b: Seq<Range<u64>>)
    requires
        apart(a),
        apart(b),
        a.len() > 0,
        b.len() > 0,
        forall|row: int| #[trigger] in_ranges(a, row) <==> in_ranges(b, row),
    ensures
        a.last().end <= b.last().end,
        a.last().end == b.last().end ==> b.last().start <= a.last().start,
{
    let n = a.len() - 1;
    let m = b.len() - 1;
    assert(a[n].start < a[n].end && b[m].start < b[m].end);
    let top = a[n].end - 1;
    assert(in_range(a[n], top));
    assert(in_ranges(a, top));
    assert(in_ranges(b, top));
    let i = choose|i: int| 0 <= i < b.len() && #[trigger] in_range(b[i], top);
    if i < m {
        assert(b[i].end < b[m].start);
    }
    if a[n].end == b[m].end && a[n].start < b[m].start {
        let row = b[m].start - 1;
        assert(in_range(a[n], row));
        assert(in_ranges(a, row));
        assert(in_ranges(b, row));
        let j = choose|j: int| 0 <= j < b.len() && #[trigger] in_range(b[j], row);
        if j < m {
            assert(b[j].end < b[m].start);
        }
    }
}

/// The rows of all ranges but the last are the rows that are not in the last.
proof fn lemma_apart_front(ranges: Seq<Range<u64>>)
    requires
        apart(ranges),
        ranges.len() > 0,
    ensures
        apart(ranges.drop_last()),
        forall|row: int| #[trigger]
            in_ranges(ranges.drop_last(), row) <==> in_ranges(ranges, row) && !in_range(
                ranges.last(),
                row,
            ),
{
    let front = ranges.drop_last();
    let n = ranges.len() - 1;
    assert forall|i: int| 0 <= i < front.len() implies (#[trigger] front[i]).start
        < front[i].end by {
        assert(ranges[i].start < ranges[i].end);
    }
    assert forall|i: int, j: int| 0 <= i < j < front.len() implies (#[trigger] front[i]).end < (
    #[trigger] front[j]).start by {
        assert(ranges[i].end < ranges[j].start);
    }
    assert forall|row: int| #[trigger] in_ranges(front, row) <==> in_ranges(ranges, row)
        && !in_range(ranges.last(), row) by {
        if in_ranges(front, row) {
            let i = choose|i: int| 0 <= i < front.len() && #[trigger] in_range(front[i], row);
            assert(in_range(ranges[i], row));
            assert(ranges[i].end < ranges[n].start);
        }
        if in_ranges(ranges, row) && !in_range(ranges.last(), row) {
            let i = choose|i: int| 0 <= i < ranges.len() && #[trigger] in_range(ranges[i], row);
            assert(i < n);
            assert(in_range(front[i], row));
        }
    }
}

/// What a mask leaves of a range is decided by the rows that it keeps.
proof fn lemma_piece_decided(range: Range<u64>, a: RowMask, b: RowMask)
    requires
        range.start <= range.end,
        a.fits(range.end - range.start),
        b.fits(range.end - range.start),
        a.in_order(),
        b.in_order(),
        forall|row: int| #[trigger] a.keeps(row) == b.keeps(row),
    ensures
        coalesced(a.ranges_of(range), MAX_PRUNING_GAP_ROWS) == coalesced(
            b.ranges_of(range),
            MAX_PRUNING_GAP_ROWS,
        ),
{
    let (left_a, left_b) = (
        coalesced(a.ranges_of(range), MAX_PRUNING_GAP_ROWS),
        coalesced(b.ranges_of(range), MAX_PRUNING_GAP_ROWS),
    );
    // A mask that keeps every number there is keeps one below zero, which no slice does.
    assert(a.keeps(-1) == b.keeps(-1));
    if a is All {
        assert(b is All) by {
            if let RowMask::Slices(slices) = b {
                assert(!in_slices(slices@, -1));
            }
        }
    } else {
        assert(!(b is All)) by {
            if let RowMask::Slices(slices) = a {
                assert(!in_slices(slices@, -1));
            }
        }
        if range.start < range.end {
            lemma_left_apart(range, a);
            lemma_left_apart(range, b);
            assert(a.kept_of(range) =~= b.kept_of(range));
            assert forall|row: int| #[trigger] in_ranges(left_a, row) <==> in_ranges(
                left_b,
                row,
            ) by {
                law_pruned_range(range, a, row);
                law_pruned_range(range, b, row);
            }
            lemma_apart_unique(left_a, left_b);
        } else {
            lemma_no_slices(range, a);
            lemma_no_slices(range, b);
        }
    }
}

/// A mask with slices keeps no part of an empty range.
proof fn lemma_no_slices(range: Range<u64>, mask: RowMask)
    requires
        range.start == range.end,
        mask.fits(0),
        mask.in_order(),
        !(mask is All),
    ensures
        mask.ranges_of(range) == Seq::<Range<u64>>::empty(),
{
    if let RowMask::Slices(slices) = mask {
        if slices@.len() > 0 {
            assert(slices@[0].0 < slices@[0].1 <= 0);
        }
    }
    assert(mask.ranges_of(range) =~= Seq::<Range<u64>>::empty());
}

/// What a mask leaves of a range that has rows is apart.
proof fn lemma_left_apart(range: Range<u64>, mask: RowMask)
    requires
        range.start < range.end,
        mask.fits(range.end - range.start),
        mask.in_order(),
    ensures
        apart(coalesced(mask.ranges_of(range), MAX_PRUNING_GAP_ROWS)),
{
    let ranges = mask.ranges_of(range);
    let left = coalesced(ranges, MAX_PRUNING_GAP_ROWS);
    lemma_left_has_rows(range, mask);
    law_mask_ranges(mask, range, 0);
    lemma_ascending_sorted(ranges);
    law_coalesced(ranges, MAX_PRUNING_GAP_ROWS);
    assert forall|i: int, j: int| 0 <= i < j < left.len() implies (#[trigger] left[i]).end < (
    #[trigger] left[j]).start by {
        assert(left[j].start - left[i].end > MAX_PRUNING_GAP_ROWS);
    }
}

/// What pruning leaves is decided by the rows that the masks keep: masks that keep the same rows of
/// each range leave the same.
pub proof fn law_pruning_is_decided(
    ranges: Seq<Range<u64>>,
    a: Seq<RowMask>,
    b: Seq<RowMask>,
)
    requires
        masks_fit(ranges, a),
        masks_fit(ranges, b),
        forall|i: int|
            0 <= i < ranges.len() ==> (#[trigger] ranges[i]).start <= ranges[i].end
                && a[i].in_order() && b[i].in_order(),
        forall|i: int, row: int|
            0 <= i < ranges.len() ==> #[trigger] a[i].keeps(row) == b[i].keeps(row),
    ensures
        pruned(ranges, a) == pruned(ranges, b),
    decreases ranges.len(),
{
    if ranges.len() > 0 {
        let n = ranges.len() - 1;
        let (front, front_a, front_b) = (ranges.drop_last(), a.drop_last(), b.drop_last());
        assert(prunable(ranges, a) && prunable(ranges, b));
        lemma_prunable_front(ranges, a);
        lemma_prunable_front(ranges, b);
        assert forall|i: int| 0 <= i < front.len() implies (#[trigger] front[i]).start
            <= front[i].end && front_a[i].in_order() && front_b[i].in_order() by {
            assert(front[i] == ranges[i]);
        }
        assert forall|i: int, row: int| 0 <= i < front.len() implies #[trigger] front_a[i].keeps(
            row,
        ) == front_b[i].keeps(row) by {
            assert(a[i].keeps(row) == b[i].keeps(row));
        }
        law_pruning_is_decided(front, front_a, front_b);
        assert forall|row: int| #[trigger] a.last().keeps(row) == b.last().keeps(row) by {
            assert(a[n].keeps(row) == b[n].keeps(row));
        }
        lemma_piece_decided(ranges.last(), a.last(), b.last());
    }
}

/// A range of which its mask keeps no row might as well not have been there.
pub proof fn law_ruled_out_leaves_nothing(ranges: Seq<Range<u64>>, masks: Seq<RowMask>, k: int)
    requires
        masks_fit(ranges, masks),
        0 <= k < ranges.len(),
        ranges[k].start < ranges[k].end,
        masks[k].in_order(),
        forall|row: int|
            in_range(ranges[k], row) ==> !#[trigger] masks[k].keeps(row - ranges[k].start),
    ensures
        pruned(ranges, masks) == pruned(ranges.remove(k), masks.remove(k)),
    decreases ranges.len(),
{
    let (front, front_masks) = (ranges.drop_last(), masks.drop_last());
    let n = ranges.len() - 1;
    assert(masks[k].fits(ranges[k].end - ranges[k].start));
    if k == n {
        law_ruled_out_range(ranges[k], masks[k]);
        assert(ranges.remove(k) =~= front);
        assert(masks.remove(k) =~= front_masks);
        assert(pruned(ranges, masks) =~= pruned(front, front_masks));
    } else {
        assert(masks_fit(front, front_masks)) by {
            assert forall|i: int| 0 <= i < front.len() implies (#[trigger] front_masks[i]).fits(
                front[i].end - front[i].start,
            ) by {
                assert(masks[i].fits(ranges[i].end - ranges[i].start));
            }
        }
        law_ruled_out_leaves_nothing(front, front_masks, k);
        assert(ranges.remove(k).drop_last() =~= front.remove(k));
        assert(masks.remove(k).drop_last() =~= front_masks.remove(k));
    }
}

/// Whether a row of range `k` is kept by every mask that the statistics gave for that range.
pub open spec fn kept_by_all(masks: Seq<Vec<RowMask>>, k: int, row: int) -> bool {
    forall|c: int| 0 <= c < masks[k]@.len() ==> (#[trigger] masks[k]@[c]).keeps(row)
}

/// Whether pruning leaves a row of range `k`: every mask of the range keeps it, or it lies in a
/// small gap between two rows of the range that every mask keeps.
pub open spec fn left_by_all(
    ranges: Seq<Range<u64>>,
    masks: Seq<Vec<RowMask>>,
    k: int,
    row: int,
) -> bool {
    bridged(|r: int| kept_by_all(masks, k, r - ranges[k].start), ranges[k], row)
}

/// Whether `combined` keeps of each range what every mask of that range keeps.
pub open spec fn combines(masks: Seq<Vec<RowMask>>, combined: Seq<RowMask>) -> bool {
    &&& combined.len() == masks.len()
    &&& forall|k: int| 0 <= k < combined.len() ==> (#[trigger] combined[k]).in_order()
    &&& forall|k: int, row: int|
        0 <= k < combined.len() ==> #[trigger] combined[k].keeps(row) == kept_by_all(masks, k, row)
}

/// Whether there are masks for each range, each of runs of rows inside its range, in order.
pub open spec fn conjunct_masks_fit(ranges: Seq<Range<u64>>, masks: Seq<Vec<RowMask>>) -> bool {
    &&& ranges.len() == masks.len()
    &&& forall|k: int, c: int|
        0 <= k < ranges.len() && 0 <= c < masks[k]@.len() ==> (#[trigger] masks[k]@[c]).fits(
            ranges[k].end - ranges[k].start,
        ) && masks[k]@[c].in_order()
}

/// Prune a morsel by the masks that its statistics gave, for each range one per conjunct: the rows
/// that a mask rules out are dropped, but for those in small gaps between rows that are not. Without
/// masks there is nothing to prune by, and the morsel stays as it is.
pub fn prune_morsel(morsel: SelectedMorsel, masks: Option<Vec<Vec<RowMask>>>) -> (left:
    SelectedMorsel)
    requires
        masks matches Some(masks) ==> conjunct_masks_fit(morsel.selected_ranges@, masks@),
        forall|i: int|
            0 <= i < morsel.selected_ranges@.len() ==> (#[trigger] morsel.selected_ranges@[i]).start
                <= morsel.selected_ranges@[i].end,
    ensures
        match masks {
            None => left == morsel,
            Some(masks) => {
                &&& exists|combined: Seq<RowMask>|
                    combines(masks@, combined) && masks_fit(morsel.selected_ranges@, combined)
                        && left.selected_ranges@ == #[trigger] pruned(
                        morsel.selected_ranges@,
                        combined,
                    )
                &&& forall|row: int| #[trigger]
                    in_ranges(left.selected_ranges@, row) <==> exists|k: int|
                        0 <= k < morsel.selected_ranges@.len() && #[trigger] left_by_all(
                            morsel.selected_ranges@,
                            masks@,
                            k,
                            row,
                        )
                &&& (forall|i: int|
                    0 <= i < morsel.selected_ranges@.len() ==> (
                    #[trigger] morsel.selected_ranges@[i]).start < morsel.selected_ranges@[i].end)
                    ==> forall|i: int|
                    0 <= i < left.selected_ranges@.len() ==> (
                    #[trigger] left.selected_ranges@[i]).start < left.selected_ranges@[i].end
            },
        },
{
    let masks: Vec<Vec<RowMask>> = match masks {
        None => return morsel,
        Some(masks) => masks,
    };
    let ghost ranges = morsel.selected_ranges@;
    let mut combined: Vec<RowMask> = Vec::new();
    let mut k: usize = 0;
    while k < masks.len()
        invariant
            k <= masks@.len(),
            conjunct_masks_fit(ranges, masks@),
            combined@.len() == k,
            forall|j: int|
                0 <= j < k ==> (#[trigger] combined@[j]).in_order() && combined@[j].fits(
                    ranges[j].end - ranges[j].start,
                ),
            forall|j: int, row: int|
                0 <= j < k ==> #[trigger] combined@[j].keeps(row) == kept_by_all(masks@, j, row),
        decreases masks@.len() - k,
    {
        assert forall|c: int| 0 <= c < masks@[k as int]@.len() implies (
        #[trigger] masks@[k as int]@[c]).fits(
            ranges[k as int].end - ranges[k as int].start,
        ) && masks@[k as int]@[c].in_order() by {}
        let all = intersect_masks(&masks[k]);
        proof {
            assert(all.fits(ranges[k as int].end - ranges[k as int].start));
            assert forall|row: int| #[trigger] all.keeps(row) == kept_by_all(
                masks@,
                k as int,
                row,
            ) by {}
        }
        combined.push(all);
        k = k + 1;
    }
    let ghost all = combined@;
    proof {
        assert(combines(masks@, all));
        assert(masks_fit(ranges, all));
        assert(prunable(ranges, all));
    }
    let left = prune_ranges(morsel, combined);
    proof {
        law_pruned_rows(ranges, all, 0);
        assert forall|row: int| #[trigger] in_ranges(left.selected_ranges@, row) <==> exists|
            k: int,
        |
            0 <= k < ranges.len() && #[trigger] left_by_all(ranges, masks@, k, row) by {
            law_pruned_rows(ranges, all, row);
            assert forall|k: int| 0 <= k < ranges.len() implies #[trigger] left_of(
                ranges,
                all,
                k,
                row,
            ) == left_by_all(ranges, masks@, k, row) by {
                assert(all[k].kept_of(ranges[k]) =~= (|r: int|
                    kept_by_all(masks@, k, r - ranges[k].start)));
            }
            if exists|k: int| 0 <= k < ranges.len() && #[trigger] left_by_all(
                ranges,
                masks@,
                k,
                row,
            ) {
                let k = choose|k: int|
                    0 <= k < ranges.len() && #[trigger] left_by_all(ranges, masks@, k, row);
                assert(left_of(ranges, all, k, row));
            }
        }
    }
    left
}

/// The batches in which `n` morsels are pruned: consecutive, in order, and of at most
/// [`PRUNING_LOOKAHEAD_MORSELS`] each.
pub fn pruning_batches(n: usize) -> (batches: Vec<Range<usize>>)
    ensures
        batches@.len() == (n + PRUNING_LOOKAHEAD_MORSELS - 1) / (PRUNING_LOOKAHEAD_MORSELS as int),
        forall|i: int|
            0 <= i < batches@.len() ==> (#[trigger] batches@[i]).start
                == PRUNING_LOOKAHEAD_MORSELS * i && batches@[i].end == (if i + 1
                == batches@.len() {
                n as int
            } else {
                PRUNING_LOOKAHEAD_MORSELS * (i + 1)
            }),
{
    let mut batches: Vec<Range<usize>> = Vec::new();
    let mut start: usize = 0;
    while start < n
        invariant
            start <= n,
            start == n || start == PRUNING_LOOKAHEAD_MORSELS * batches@.len(),
            start == n ==> batches@.len() == (n + PRUNING_LOOKAHEAD_MORSELS - 1) / (
            PRUNING_LOOKAHEAD_MORSELS as int),
            forall|i: int|
                0 <= i < batches@.len() ==> (#[trigger] batches@[i]).start
                    == PRUNING_LOOKAHEAD_MORSELS * i && batches@[i].end == (if i + 1
                    == batches@.len() {
                    start as int
                } else {
                    PRUNING_LOOKAHEAD_MORSELS * (i + 1)
                }),
        decreases n - start,
    {
        let end: usize = if n - start < PRUNING_LOOKAHEAD_MORSELS {
            n
        } else {
            start + PRUNING_LOOKAHEAD_MORSELS
        };
        batches.push(start..end);
        start = end;
    }
    batches
}

/// The rows of ranges add up, however the ranges are split, and a single range has its own.
pub proof fn law_rows_of_ranges(front: Seq<Range<u64>>, back: Seq<Range<u64>>, range: Range<u64>)
    ensures
        rows_of(front + back) == rows_of(front) + rows_of(back),
        rows_of(seq![range]) == range.end - range.start,
    decreases back.len(),
{
    reveal_with_fuel(rows_of, 2);
    assert(seq![range].drop_last() =~= Seq::empty());
    if back.len() > 0 {
        law_rows_of_ranges(front, back.drop_last(), range);
        assert((front + back).drop_last() =~= front + back.drop_last());
    } else {
        assert(front + back =~= front);
    }
}

/// Morsels are counted one by one: one that has rows counts if it shares a row with the row range.
pub proof fn law_intersecting_morsels(
    front: Seq<Range<u64>>,
    back: Seq<Range<u64>>,
    morsel: Range<u64>,
    row_range: Range<u64>,
)
    ensures
        intersecting(front + back, row_range) == intersecting(front, row_range) + intersecting(
            back,
            row_range,
        ),
        intersecting(seq![morsel], row_range) == 0 || intersecting(seq![morsel], row_range) == 1,
        morsel.start < morsel.end && row_range.start < row_range.end ==> (intersecting(
            seq![morsel],
            row_range,
        ) == 1 <==> exists|row: int| in_range(morsel, row) && #[trigger] in_range(row_range, row)),
    decreases back.len(),
{
    reveal_with_fuel(intersecting, 2);
    assert(seq![morsel].drop_last() =~= Seq::empty());
    if back.len() > 0 {
        law_intersecting_morsels(front, back.drop_last(), morsel, row_range);
        assert((front + back).drop_last() =~= front + back.drop_last());
    } else {
        assert(front + back =~= front);
    }
    let first: int = if morsel.start < row_range.start {
        row_range.start as int
    } else {
        morsel.start as int
    };
    if intersecting(seq![morsel], row_range) == 1 && morsel.start < morsel.end && row_range.start
        < row_range.end {
        assert(in_range(morsel, first) && in_range(row_range, first));
    }
}

/// Morsels with a range are counted one by one.
pub proof fn law_nonempty_morsels(
    front: Seq<Seq<Range<u64>>>,
    back: Seq<Seq<Range<u64>>>,
    list: Seq<Range<u64>>,
)
    ensures
        nonempty(front + back) == nonempty(front) + nonempty(back),
        nonempty(seq![list]) == (if list.len() > 0 {
            1int
        } else {
            0
        }),
    decreases back.len(),
{
    reveal_with_fuel(nonempty, 2);
    assert(seq![list].drop_last() =~= Seq::empty());
    if back.len() > 0 {
        law_nonempty_morsels(front, back.drop_last(), list);
        assert((front + back).drop_last() =~= front + back.drop_last());
    } else {
        assert(front + back =~= front);
    }
}

/// A mask keeps one range per slice, with as many rows and as far from the start, or the whole range,
/// or none.
pub proof fn law_ranges_of_slices(mask: RowMask, range: Range<u64>, i: int)
    requires
        range.start <= range.end,
        mask.fits(range.end - range.start),
    ensures
        ({
            let ranges = mask.ranges_of(range);
            match mask {
                RowMask::All => ranges.len() == 1 && ranges[0] == range,
                RowMask::Nothing => ranges.len() == 0,
                RowMask::Slices(slices) => {
                    &&& ranges.len() == slices@.len()
                    &&& 0 <= i < slices@.len() ==> ranges[i].start - range.start == slices@[i].0
                        && ranges[i].end - ranges[i].start == slices@[i].1 - slices@[i].0
                },
            }
        }),
{
    if let RowMask::Slices(slices) = mask {
        if 0 <= i < slices@.len() {
            assert(slices@[i].0 <= slices@[i].1 <= range.end - range.start);
        }
    }
}

} // verus!
