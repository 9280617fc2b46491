//! The rows that the outputs of a scan deliver.

use core::ops::Range;

use vstd::prelude::*;

use super::bundle::bundle_models;
use super::bundle::flattened;
use super::bundle::law_bundles_partition;
use super::bundle::unbundled;
use super::bundle::BundleModel;
use super::bundle::BundleOutputs;
use super::output::arrays;
use super::output::cap_of;
use super::output::cut_of;
use super::output::rows_in;
use super::ranges::in_lists;
use super::ranges::in_range;
use super::ranges::in_ranges;
use super::ranges::morsel_ranges;
use super::ranges::rows_of;
use super::scan::caps_spec;
use super::scan::countable;
use super::scan::countable_ranges;
use super::scan::lengths_fit;
use super::scan::total_rows;
use super::scan::PushMorselScanExecutor;
use super::scan::ScanOutputs;
use super::scan::ScanRequest;

verus! {

/// The rows of a range, in order.
pub open spec fn span(range: Range<u64>) -> Seq<u64> {
    Seq::new(
        if range.start < range.end {
            (range.end - range.start) as nat
        } else {
            0
        },
        |i: int| (range.start + i) as u64,
    )
}

/// The rows of ranges, one range after the other.
pub open spec fn listed_rows(ranges: Seq<Range<u64>>) -> Seq<u64>
    decreases ranges.len(),
{
    if ranges.len() == 0 {
        Seq::empty()
    } else {
        listed_rows(ranges.drop_last()) + span(ranges.last())
    }
}

/// The rows of morsels, one morsel after the other.
pub open spec fn picked_rows(lists: Seq<Seq<Range<u64>>>) -> Seq<u64>
    decreases lists.len(),
{
    if lists.len() == 0 {
        Seq::empty()
    } else {
        picked_rows(lists.drop_last()) + listed_rows(lists.last())
    }
}

/// The rows of an output, cut to its cap.
pub open spec fn cut_rows(rows: Seq<u64>, row_cap: Option<usize>) -> Seq<u64> {
    match cut_of(rows.len() as int, row_cap) {
        Some(cap) => rows.take(cap as int),
        None => rows,
    }
}

/// The rows of outputs that read these ranges under these caps, one output after the other.
pub open spec fn delivered_rows(outputs: Seq<(Seq<Range<u64>>, Option<usize>)>) -> Seq<u64>
    decreases outputs.len(),
{
    if outputs.len() == 0 {
        Seq::empty()
    } else {
        delivered_rows(outputs.drop_last()) + cut_rows(
            listed_rows(outputs.last().0),
            outputs.last().1,
        )
    }
}

impl ScanOutputs {
    /// The ranges that each output reads, and its cap.
    pub open spec fn reads(self) -> Seq<(Seq<Range<u64>>, Option<usize>)> {
        match self {
            ScanOutputs::Nothing => Seq::empty(),
            ScanOutputs::Internal { morsels, row_caps } => Seq::new(
                morsels@.len(),
                |i: int| (morsels@[i].selected_ranges@, cap_of(row_caps, i)),
            ),
            ScanOutputs::External { outputs, .. } => Seq::new(
                outputs@.len(),
                |i: int| (outputs@[i].morsel.selected_ranges@, outputs@[i].row_cap),
            ),
            ScanOutputs::Bundled { bundles: BundleOutputs::PerMorsel(morsels), .. } => Seq::new(
                morsels@.len(),
                |i: int| (morsels@[i].selected_ranges@, None),
            ),
            ScanOutputs::Bundled { bundles: BundleOutputs::Bundled(bundles), .. } => Seq::new(
                bundles@.len(),
                |i: int| (flattened(bundles@[i]@.morsels()), None),
            ),
        }
    }
}

/// The rows of batches, one batch after the other, where `rows` are those of each.
pub open spec fn batch_rows<B>(batches: Seq<B>, rows: spec_fn(B) -> Seq<u64>) -> Seq<u64>
    decreases batches.len(),
{
    if batches.len() == 0 {
        Seq::empty()
    } else {
        batch_rows(batches.drop_last(), rows) + rows(batches.last())
    }
}

/// An output whose batches hold the rows of its ranges delivers these rows, cut to its cap.
pub proof fn law_output_is_cut<B>(
    ranges: Seq<Range<u64>>,
    batches: Seq<(B, usize)>,
    row_cap: Option<usize>,
    rows: spec_fn(B) -> Seq<u64>,
)
    requires
        batches.len() == ranges.len(),
        forall|i: int|
            0 <= i < batches.len() ==> rows((#[trigger] batches[i]).0) == span(ranges[i])
                && batches[i].1 == span(ranges[i]).len(),
    ensures
        ({
            let all = batch_rows(arrays(batches), rows);
            let delivered = match cut_of(rows_in(batches), row_cap) {
                Some(cap) => all.take(cap as int),
                None => all,
            };
            delivered == cut_rows(listed_rows(ranges), row_cap)
        }),
{
    lemma_batches_hold_ranges(ranges, batches, rows);
}

proof fn lemma_batches_hold_ranges<B>(
    ranges: Seq<Range<u64>>,
    batches: Seq<(B, usize)>,
    rows: spec_fn(B) -> Seq<u64>,
)
    requires
        batches.len() == ranges.len(),
        forall|i: int|
            0 <= i < batches.len() ==> rows((#[trigger] batches[i]).0) == span(ranges[i])
                && batches[i].1 == span(ranges[i]).len(),
    ensures
        batch_rows(arrays(batches), rows) == listed_rows(ranges),
        rows_in(batches) == listed_rows(ranges).len(),
    decreases batches.len(),
{
    if batches.len() > 0 {
        let front = batches.drop_last();
        assert forall|i: int| 0 <= i < front.len() implies rows((#[trigger] front[i]).0) == span(
            ranges.drop_last()[i],
        ) && front[i].1 == span(ranges.drop_last()[i]).len() by {
            assert(front[i] == batches[i]);
        }
        lemma_batches_hold_ranges(ranges.drop_last(), front, rows);
        assert(arrays(batches).drop_last() =~= arrays(front));
        assert(batches[batches.len() - 1] == batches.last());
    }
}

/// The rows of well-formed ranges are as many as are counted.
proof fn lemma_listed_count(ranges: Seq<Range<u64>>)
    requires
        forall|i: int| 0 <= i < ranges.len() ==> (#[trigger] ranges[i]).start <= ranges[i].end,
    ensures
        listed_rows(ranges).len() == rows_of(ranges),
    decreases ranges.len(),
{
    if ranges.len() > 0 {
        let front = ranges.drop_last();
        assert forall|i: int| 0 <= i < front.len() implies (#[trigger] front[i]).start
            <= front[i].end by {
            assert(front[i] == ranges[i]);
        }
        lemma_listed_count(front);
        assert(ranges[ranges.len() - 1] == ranges.last());
    }
}

/// The first morsels of countable ones are countable.
proof fn lemma_countable_front(lists: Seq<Seq<Range<u64>>>)
    requires
        countable(lists),
        lists.len() > 0,
    ensures
        countable(lists.drop_last()),
        countable_ranges(lists.last()),
{
    let front = lists.drop_last();
    assert forall|i: int| 0 <= i < front.len() implies #[trigger] countable_ranges(front[i]) by {
        assert(countable_ranges(lists[i]));
    }
    assert(countable_ranges(lists[lists.len() - 1]));
}

/// The rows of morsels are as many as are counted.
proof fn lemma_picked_count(lists: Seq<Seq<Range<u64>>>)
    requires
        countable(lists),
    ensures
        picked_rows(lists).len() == total_rows(lists),
    decreases lists.len(),
{
    if lists.len() > 0 {
        lemma_countable_front(lists);
        lemma_picked_count(lists.drop_last());
        lemma_listed_count(lists.last());
    }
}

/// The outputs of morsels under caps.
spec fn under_caps(lists: Seq<Seq<Range<u64>>>, caps: Seq<usize>) -> Seq<
    (Seq<Range<u64>>, Option<usize>),
> {
    Seq::new(lists.len(), |i: int| (lists[i], Some(caps[i])))
}

/// A limit leaves as many rows as it asks for, or all there are.
pub open spec fn limited_count(rows: int, limit: Option<u64>) -> int {
    match limit {
        Some(limit) => if limit < rows {
            limit as int
        } else {
            rows
        },
        None => rows,
    }
}

/// A morsel has a cap exactly if fewer rows than the limit come before it.
proof fn lemma_caps_count(lists: Seq<Seq<Range<u64>>>, limit: u64)
    requires
        countable(lists),
    ensures
        caps_spec(lists, limit).len() <= lists.len(),
        forall|i: int|
            0 <= i < lists.len() ==> (i < caps_spec(lists, limit).len() <==> total_rows(
                #[trigger] lists.take(i),
            ) < limit),
        total_rows(lists) < limit ==> caps_spec(lists, limit).len() == lists.len(),
        0 <= total_rows(lists),
    decreases lists.len(),
{
    if lists.len() > 0 {
        let front = lists.drop_last();
        lemma_countable_front(lists);
        lemma_caps_count(front, limit);
        lemma_listed_count(lists.last());
        let caps = caps_spec(lists, limit);
        assert forall|i: int| 0 <= i < lists.len() implies (i < caps.len() <==> total_rows(
            #[trigger] lists.take(i),
        ) < limit) by {
            if i < front.len() {
                assert(front.take(i) =~= lists.take(i));
            } else {
                assert(lists.take(i) =~= front);
            }
        }
    }
}

/// The capped morsels deliver the first rows, up to the limit.
proof fn lemma_capped_rows(lists: Seq<Seq<Range<u64>>>, limit: u64)
    requires
        countable(lists),
        lengths_fit(lists, limit),
    ensures
        ({
            let caps = caps_spec(lists, limit);
            delivered_rows(under_caps(lists.take(caps.len() as int), caps)) == picked_rows(
                lists,
            ).take(limited_count(total_rows(lists), Some(limit)))
        }),
    decreases lists.len(),
{
    let caps = caps_spec(lists, limit);
    lemma_caps_count(lists, limit);
    lemma_picked_count(lists);
    if lists.len() == 0 {
        assert(under_caps(lists.take(0), caps) =~= Seq::empty());
        assert(picked_rows(lists).take(0) =~= Seq::empty());
    } else {
        let front = lists.drop_last();
        let last = lists.last();
        lemma_countable_front(lists);
        assert(lengths_fit(front, limit)) by {
            if limit > usize::MAX {
                assert forall|i: int| 0 <= i < front.len() implies rows_of(#[trigger] front[i])
                    <= usize::MAX by {
                    assert(front[i] == lists[i]);
                }
            }
        }
        lemma_capped_rows(front, limit);
        lemma_caps_count(front, limit);
        lemma_picked_count(front);
        lemma_listed_count(last);
        let before = caps_spec(front, limit);
        if total_rows(front) >= limit {
            assert(lists.take(caps.len() as int) =~= front.take(before.len() as int));
            assert(picked_rows(lists).take(limit as int) =~= picked_rows(front).take(
                limit as int,
            ));
        } else {
            assert(lists[lists.len() - 1] == last);
            let outputs = under_caps(lists.take(caps.len() as int), caps);
            assert(lists.take(caps.len() as int) =~= lists);
            assert(front.take(before.len() as int) =~= front);
            assert(outputs.drop_last() =~= under_caps(front, before));
            assert(picked_rows(front).take(total_rows(front)) =~= picked_rows(front));
            assert(delivered_rows(outputs) =~= picked_rows(lists).take(
                limited_count(total_rows(lists), Some(limit)),
            ));
        }
    }
}

/// Without caps every row is delivered.
proof fn lemma_uncapped_rows(lists: Seq<Seq<Range<u64>>>)
    ensures
        delivered_rows(Seq::new(lists.len(), |i: int| (lists[i], None::<usize>))) == picked_rows(
            lists,
        ),
    decreases lists.len(),
{
    let outputs = Seq::new(lists.len(), |i: int| (lists[i], None::<usize>));
    if lists.len() > 0 {
        let front = lists.drop_last();
        lemma_uncapped_rows(front);
        assert(outputs.drop_last() =~= Seq::new(front.len(), |i: int| (front[i], None::<usize>)));
    }
}

/// A limit on an unfiltered scan is honoured exactly: the outputs of the scan deliver, one after
/// the other, the first selected rows, as many as the limit asks for or all there are. No morsel
/// past the limit is read. Without a limit every selected row is delivered.
pub proof fn law_limit_is_honoured(
    executor: PushMorselScanExecutor,
    request: ScanRequest,
    outputs: ScanOutputs,
)
    requires
        request.wf(),
        !request.has_filter,
        request.limit matches Some(limit) ==> lengths_fit(request.selection(), limit),
        executor.plans(request, outputs),
    ensures
        delivered_rows(outputs.reads()) == picked_rows(request.selection()).take(
            limited_count(total_rows(request.selection()), request.limit),
        ),
        picked_rows(request.selection()).len() == total_rows(request.selection()),
        delivered_rows(outputs.reads()).len() == limited_count(
            total_rows(request.selection()),
            request.limit,
        ),
        request.limit matches Some(limit) ==> forall|i: int|
            0 <= i < request.selection().len() ==> (i < outputs.reads().len() <==> total_rows(
                #[trigger] request.selection().take(i),
            ) < limit),
        request.limit is None ==> outputs.reads().len() == request.selection().len(),
{
    let lists = request.selection();
    lemma_picked_count(lists);
    match request.limit {
        Some(limit) => {
            let caps = caps_spec(lists, limit);
            lemma_capped_rows(lists, limit);
            lemma_caps_count(lists, limit);
            if limit == 0 {
                assert forall|i: int| 0 <= i < lists.len() implies total_rows(
                    #[trigger] lists.take(i),
                ) >= 0 by {
                    assert(countable(lists.take(i))) by {
                        assert forall|j: int| 0 <= j < i implies #[trigger] countable_ranges(
                            lists.take(i)[j],
                        ) by {
                            assert(countable_ranges(lists[j]));
                        }
                    }
                    lemma_caps_count(lists.take(i), limit);
                }
                assert(picked_rows(lists).take(0) =~= Seq::empty());
            } else {
                let kept = lists.take(caps.len() as int);
                assert(outputs.reads().len() == kept.len());
                assert forall|i: int| 0 <= i < kept.len() implies #[trigger] outputs.reads()[i] == (
                    kept[i],
                    Some(caps[i]),
                ) by {
                    if let ScanOutputs::Internal { morsels, .. } = outputs {
                        assert(morsel_ranges(morsels@)[i] == kept[i]);
                    }
                }
                assert(outputs.reads() =~= under_caps(kept, caps));
            }
        },
        None => {
            lemma_uncapped_rows(lists);
            assert(outputs.reads().len() == lists.len());
            assert forall|i: int| 0 <= i < lists.len() implies #[trigger] outputs.reads()[i] == (
                lists[i],
                None::<usize>,
            ) by {
                if let ScanOutputs::Internal { morsels, .. } = outputs {
                    assert(morsel_ranges(morsels@)[i] == lists[i]);
                }
            }
            assert(outputs.reads() =~= Seq::new(
                lists.len(),
                |i: int| (lists[i], None::<usize>),
            ));
            assert(picked_rows(lists).take(total_rows(lists)) =~= picked_rows(lists));
        },
    }
}

/// The rows of two lists of ranges, one after the other.
proof fn lemma_listed_concat(a: Seq<Range<u64>>, b: Seq<Range<u64>>)
    ensures
        listed_rows(a + b) == listed_rows(a) + listed_rows(b),
    decreases b.len(),
{
    if b.len() == 0 {
        assert(a + b =~= a);
        assert(listed_rows(a) + Seq::<u64>::empty() =~= listed_rows(a));
    } else {
        lemma_listed_concat(a, b.drop_last());
        assert((a + b).drop_last() =~= a + b.drop_last());
        assert((a + b).last() == b.last());
        assert(listed_rows(a + b) =~= listed_rows(a) + listed_rows(b));
    }
}

/// The rows of flattened morsels are those of the morsels.
proof fn lemma_flattened_rows(lists: Seq<Seq<Range<u64>>>)
    ensures
        listed_rows(flattened(lists)) == picked_rows(lists),
    decreases lists.len(),
{
    if lists.len() > 0 {
        lemma_flattened_rows(lists.drop_last());
        lemma_listed_concat(flattened(lists.drop_last()), lists.last());
    }
}

/// The rows of two lists of morsels, one after the other.
proof fn lemma_picked_concat(a: Seq<Seq<Range<u64>>>, b: Seq<Seq<Range<u64>>>)
    ensures
        picked_rows(a + b) == picked_rows(a) + picked_rows(b),
    decreases b.len(),
{
    if b.len() == 0 {
        assert(a + b =~= a);
        assert(picked_rows(a) + Seq::<u64>::empty() =~= picked_rows(a));
    } else {
        lemma_picked_concat(a, b.drop_last());
        assert((a + b).drop_last() =~= a + b.drop_last());
        assert((a + b).last() == b.last());
        assert(picked_rows(a + b) =~= picked_rows(a) + picked_rows(b));
    }
}

/// The morsels of bundles end with those of the last bundle.
proof fn lemma_unbundled_last(bundles: Seq<BundleModel>)
    requires
        bundles.len() > 0,
    ensures
        unbundled(bundles) == unbundled(bundles.drop_last()) + bundles.last().morsels(),
    decreases bundles.len(),
{
    if bundles.len() == 1 {
        reveal_with_fuel(unbundled, 2);
        assert(bundles.skip(1) =~= Seq::empty());
        assert(bundles.drop_last() =~= Seq::empty());
        assert(unbundled(bundles) =~= unbundled(bundles.drop_last()) + bundles.last().morsels());
    } else {
        let rest = bundles.skip(1);
        lemma_unbundled_last(rest);
        assert(rest.drop_last() =~= bundles.drop_last().skip(1));
        assert(rest.last() == bundles.last());
        assert(bundles.drop_last()[0] == bundles[0]);
        assert(unbundled(bundles) =~= unbundled(bundles.drop_last()) + bundles.last().morsels());
    }
}

/// The outputs of bundles deliver the rows of their morsels.
proof fn lemma_bundled_rows(bundles: Seq<BundleModel>)
    ensures
        delivered_rows(
            Seq::new(bundles.len(), |i: int| (flattened(bundles[i].morsels()), None::<usize>)),
        ) == picked_rows(unbundled(bundles)),
    decreases bundles.len(),
{
    let outputs = Seq::new(
        bundles.len(),
        |i: int| (flattened(bundles[i].morsels()), None::<usize>),
    );
    if bundles.len() > 0 {
        let front = bundles.drop_last();
        let last = bundles.last().morsels();
        lemma_bundled_rows(front);
        lemma_unbundled_last(bundles);
        lemma_flattened_rows(last);
        lemma_picked_concat(unbundled(front), last);
        assert(outputs.drop_last() =~= Seq::new(
            front.len(),
            |i: int| (flattened(front[i].morsels()), None::<usize>),
        ));
    }
}

/// A filtered scan reads every selected row, in order, however its morsels are bundled: where the
/// limit falls is not known before the filter is applied.
pub proof fn law_filtered_scan_reads_all(
    executor: PushMorselScanExecutor,
    request: ScanRequest,
    outputs: ScanOutputs,
)
    requires
        request.wf(),
        request.has_filter,
        request.limit != Some(0u64),
        executor.plans(request, outputs),
    ensures
        delivered_rows(outputs.reads()) == picked_rows(request.selection()),
{
    let lists = request.selection();
    assert(request.limited() == lists);
    lemma_uncapped_rows(lists);
    let plain = Seq::new(lists.len(), |i: int| (lists[i], None::<usize>));
    match outputs {
        ScanOutputs::Internal { morsels, .. } => {
            assert forall|i: int| 0 <= i < lists.len() implies #[trigger] outputs.reads()[i]
                == plain[i] by {
                assert(morsel_ranges(morsels@)[i] == lists[i]);
            }
            assert(outputs.reads() =~= plain);
        },
        ScanOutputs::External { .. } => {
            assert(outputs.reads() =~= plain);
        },
        ScanOutputs::Bundled { bundles: BundleOutputs::PerMorsel(morsels), .. } => {
            assert forall|i: int| 0 <= i < lists.len() implies #[trigger] outputs.reads()[i]
                == plain[i] by {
                assert(morsel_ranges(morsels@)[i] == lists[i]);
            }
            assert(outputs.reads() =~= plain);
        },
        ScanOutputs::Bundled { bundles: BundleOutputs::Bundled(bundles), .. } => {
            let models = bundle_models(bundles@);
            law_bundles_partition(lists);
            lemma_bundled_rows(models);
            assert(outputs.reads() =~= Seq::new(
                models.len(),
                |i: int| (flattened(models[i].morsels()), None::<usize>),
            ));
        },
        ScanOutputs::Nothing => {},
    }
}

/// A row is listed exactly if it is in one of the ranges.
proof fn lemma_listed_contains(ranges: Seq<Range<u64>>, row: u64)
    ensures
        listed_rows(ranges).contains(row) <==> in_ranges(ranges, row as int),
    decreases ranges.len(),
{
    if ranges.len() > 0 {
        let front = ranges.drop_last();
        let last = ranges.last();
        let before = listed_rows(front);
        let all = listed_rows(ranges);
        lemma_listed_contains(front, row);
        if all.contains(row) {
            let i = choose|i: int| 0 <= i < all.len() && all[i] == row;
            if i < before.len() {
                assert(before[i] == row);
                let k = choose|k: int| 0 <= k < front.len() && #[trigger] in_range(
                    front[k],
                    row as int,
                );
                assert(in_range(ranges[k], row as int));
            } else {
                assert(all[i] == span(last)[i - before.len()]);
                assert(in_range(ranges[ranges.len() - 1], row as int));
            }
        }
        if in_ranges(ranges, row as int) {
            let k = choose|k: int| 0 <= k < ranges.len() && #[trigger] in_range(
                ranges[k],
                row as int,
            );
            if k < front.len() {
                assert(in_range(front[k], row as int));
                let i = choose|i: int| 0 <= i < before.len() && before[i] == row;
                assert(all[i] == row);
            } else {
                let i = row - last.start;
                assert(span(last)[i] == row);
                assert(all[before.len() + i] == row);
            }
        }
    }
}

/// The rows that a scan picks are exactly those of its lists.
pub proof fn law_picked_rows(lists: Seq<Seq<Range<u64>>>, row: u64)
    ensures
        picked_rows(lists).contains(row) <==> in_lists(lists, row as int),
    decreases lists.len(),
{
    if lists.len() > 0 {
        let front = lists.drop_last();
        let before = picked_rows(front);
        let all = picked_rows(lists);
        let last = listed_rows(lists.last());
        law_picked_rows(front, row);
        lemma_listed_contains(lists.last(), row);
        if all.contains(row) {
            let i = choose|i: int| 0 <= i < all.len() && all[i] == row;
            if i < before.len() {
                assert(before[i] == row);
                let m = choose|m: int| 0 <= m < front.len() && #[trigger] in_ranges(
                    front[m],
                    row as int,
                );
                assert(in_ranges(lists[m], row as int));
            } else {
                assert(last[i - before.len()] == row);
                assert(in_ranges(lists[lists.len() - 1], row as int));
            }
        }
        if in_lists(lists, row as int) {
            let m = choose|m: int| 0 <= m < lists.len() && #[trigger] in_ranges(
                lists[m],
                row as int,
            );
            if m < front.len() {
                assert(in_ranges(front[m], row as int));
                let i = choose|i: int| 0 <= i < before.len() && before[i] == row;
                assert(all[i] == row);
            } else {
                let i = choose|i: int| 0 <= i < last.len() && last[i] == row;
                assert(all[before.len() + i] == row);
            }
        }
    }
}

} // verus!
