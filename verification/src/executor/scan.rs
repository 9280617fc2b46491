//! The push-morsel scan executor: what a scan reads, and how its outputs are driven.

use core::ops::Range;

use vstd::prelude::*;

use super::bundle::build_external_frontier_bundle_outputs;
use super::bundle::bundle_models;
use super::bundle::bundle_plan_spec;
use super::bundle::bundles_spec;
use super::bundle::external_frontier_bundle_parallelism;
use super::bundle::flattened;
use super::bundle::law_pairs_fill_waves;
use super::bundle::traces_bundles;
use super::bundle::traces_unbundled;
use super::bundle::unbundled_trace;
use super::bundle::BundleOutputs;
use super::bundle::BundleTrace;
use super::output::assign_targets;
use super::output::build_external_outputs;
use super::output::cap_of;
use super::output::empty_of;
use super::output::groups_of;
use super::output::scan_threads;
use super::output::targets_of;
use super::output::Assignment;
use super::output::ExternalOutput;
use super::policy::ExecutorIoPolicy;
use super::ranges::clipped;
use super::ranges::count_intersecting_morsels;
use super::ranges::count_nonempty_morsels;
use super::ranges::count_ranges;
use super::ranges::in_lists;
use super::ranges::in_range;
use super::ranges::in_ranges;
use super::ranges::intersecting;
use super::ranges::kept_row;
use super::ranges::law_clipped_rows;
use super::ranges::law_selected_rows;
use super::ranges::masks_fit;
use super::ranges::morsel_ranges;
use super::ranges::nonempty;
use super::ranges::rows_of;
use super::ranges::selected;
use super::ranges::selected_morsels;
use super::ranges::total_ranges;
use super::ranges::RowMask;
use super::ranges::SelectedMorsel;

verus! {

/// The counters of a scan that its planning decides.
#[derive(Clone, Copy, Debug, Eq, PartialEq, Structural)]
pub struct ScanStats {
    /// Morsels that reach into the row range.
    pub morsels_in_row_range: u64,
    /// Morsels with a selected row.
    pub morsels_after_selection: u64,
    /// Selected row ranges.
    pub ranges_after_selection: u64,
    /// Morsels left by the limit.
    pub morsels_after_limit: u64,
    /// Row ranges left by the limit.
    pub ranges_after_limit: u64,
    /// Morsels left by pruning.
    pub morsels_after_pruning: u64,
    /// Row ranges left by pruning.
    pub ranges_after_pruning: u64,
}

impl Default for ScanStats {
    fn default() -> (stats: Self)
        ensures
            stats == (ScanStats {
                morsels_in_row_range: 0,
                morsels_after_selection: 0,
                ranges_after_selection: 0,
                morsels_after_limit: 0,
                ranges_after_limit: 0,
                morsels_after_pruning: 0,
                ranges_after_pruning: 0,
            }),
    {
        ScanStats {
            morsels_in_row_range: 0,
            morsels_after_selection: 0,
            ranges_after_selection: 0,
            morsels_after_limit: 0,
            ranges_after_limit: 0,
            morsels_after_pruning: 0,
            ranges_after_pruning: 0,
        }
    }
}

/// How planning narrowed a scan, step by step.
#[derive(Clone, Copy, Debug, Eq, PartialEq, Structural)]
pub struct ScanShape {
    /// Morsels that reach into the row range.
    pub morsels_in_row_range: u64,
    /// Morsels with a selected row.
    pub morsels_after_selection: u64,
    /// Selected row ranges.
    pub ranges_after_selection: u64,
    /// Morsels left by the limit.
    pub morsels_after_limit: u64,
    /// Row ranges left by the limit.
    pub ranges_after_limit: u64,
}

impl ScanShape {
    /// The counters of a scan of this shape, given what pruning left.
    pub open spec fn applied(self, morsels_after_pruning: u64, ranges_after_pruning: u64) -> ScanStats {
        ScanStats {
            morsels_in_row_range: self.morsels_in_row_range,
            morsels_after_selection: self.morsels_after_selection,
            ranges_after_selection: self.ranges_after_selection,
            morsels_after_limit: self.morsels_after_limit,
            ranges_after_limit: self.ranges_after_limit,
            morsels_after_pruning,
            ranges_after_pruning,
        }
    }

    /// Record this shape, and what pruning left of it, in `stats`.
    pub fn apply(
        self,
        stats: &mut ScanStats,
        morsels_after_pruning: u64,
        ranges_after_pruning: u64,
    )
        ensures
            *final(stats) == self.applied(morsels_after_pruning, ranges_after_pruning),
    {
        stats.morsels_in_row_range = self.morsels_in_row_range;
        stats.morsels_after_selection = self.morsels_after_selection;
        stats.ranges_after_selection = self.ranges_after_selection;
        stats.morsels_after_limit = self.morsels_after_limit;
        stats.ranges_after_limit = self.ranges_after_limit;
        stats.morsels_after_pruning = morsels_after_pruning;
        stats.ranges_after_pruning = ranges_after_pruning;
    }
}

/// The order in which the conjuncts of a filter are evaluated.
#[derive(Clone, Copy, Debug, Eq, PartialEq, Structural)]
pub enum ConjunctMode {
    /// Each on the rows that the ones before it left.
    Cascade,
    /// All on the same rows.
    Parallel,
}

/// The number of rows in the morsels.
pub open spec fn total_rows(lists: Seq<Seq<Range<u64>>>) -> int
    decreases lists.len(),
{
    if lists.len() == 0 {
        0
    } else {
        total_rows(lists.drop_last()) + rows_of(lists.last())
    }
}

/// A number of rows as a length in memory.
pub open spec fn as_len(rows: int) -> usize {
    if rows > usize::MAX {
        usize::MAX
    } else {
        rows as usize
    }
}

/// The exact output rows of the first morsels of an unfiltered scan: all the rows of each until
/// the limit is reached, the rest of the limit for the one that reaches it, and no more morsels
/// after that.
pub open spec fn caps_spec(lists: Seq<Seq<Range<u64>>>, limit: u64) -> Seq<usize>
    decreases lists.len(),
{
    if lists.len() == 0 {
        Seq::empty()
    } else {
        let before = total_rows(lists.drop_last());
        let caps = caps_spec(lists.drop_last(), limit);
        if before >= limit {
            caps
        } else {
            let rows = rows_of(lists.last());
            caps.push(
                as_len(
                    if rows < limit - before {
                        rows
                    } else {
                        limit - before
                    },
                ),
            )
        }
    }
}

/// Whether the ranges of every morsel are well formed and their rows can be counted.
pub open spec fn countable(lists: Seq<Seq<Range<u64>>>) -> bool {
    forall|i: int| 0 <= i < lists.len() ==> #[trigger] countable_ranges(lists[i])
}

/// Whether the ranges are well formed and their rows can be counted.
pub open spec fn countable_ranges(ranges: Seq<Range<u64>>) -> bool {
    &&& rows_of(ranges) <= u64::MAX
    &&& forall|i: int| 0 <= i < ranges.len() ==> (#[trigger] ranges[i]).start <= ranges[i].end
}

/// The first ranges have no more rows than all of them.
proof fn lemma_rows_prefix(ranges: Seq<Range<u64>>, k: int)
    requires
        0 <= k <= ranges.len(),
        forall|i: int| 0 <= i < ranges.len() ==> (#[trigger] ranges[i]).start <= ranges[i].end,
    ensures
        0 <= rows_of(ranges.take(k)) <= rows_of(ranges),
    decreases ranges.len(),
{
    if ranges.len() > 0 {
        let front = ranges.drop_last();
        assert forall|i: int| 0 <= i < front.len() implies (#[trigger] front[i]).start
            <= front[i].end by {
            assert(front[i] == ranges[i]);
        }
        assert(ranges[ranges.len() - 1] == ranges.last());
        if k < ranges.len() {
            lemma_rows_prefix(front, k);
            assert(front.take(k) =~= ranges.take(k));
        } else {
            lemma_rows_prefix(front, front.len() as int);
            assert(front.take(front.len() as int) =~= front);
            assert(ranges.take(k) =~= ranges);
        }
    } else {
        assert(ranges.take(k) =~= ranges);
    }
}

/// Count the selected rows of a morsel.
fn count_rows(morsel: &SelectedMorsel) -> (rows: u64)
    requires
        countable_ranges(morsel.selected_ranges@),
    ensures
        rows == rows_of(morsel.selected_ranges@),
{
    let ghost ranges = morsel.selected_ranges@;
    let mut rows: u64 = 0;
    let mut i: usize = 0;
    assert(ranges.take(0) =~= Seq::empty());
    while i < morsel.selected_ranges.len()
        invariant
            i <= ranges.len(),
            ranges == morsel.selected_ranges@,
            countable_ranges(ranges),
            rows == rows_of(ranges.take(i as int)),
        decreases ranges.len() - i,
    {
        proof {
            assert(ranges.take(i + 1).drop_last() =~= ranges.take(i as int));
            assert(ranges.take(i + 1).last() == ranges[i as int]);
            lemma_rows_prefix(ranges, i + 1);
        }
        rows = rows + (morsel.selected_ranges[i].end - morsel.selected_ranges[i].start);
        i = i + 1;
    }
    assert(ranges.take(i as int) =~= ranges);
    rows
}

/// Once the limit is reached, later morsels add nothing.
proof fn lemma_caps_done(lists: Seq<Seq<Range<u64>>>, limit: u64, k: int)
    requires
        0 <= k <= lists.len(),
        countable(lists),
        total_rows(lists.take(k)) >= limit,
    ensures
        caps_spec(lists, limit) == caps_spec(lists.take(k), limit),
        total_rows(lists) >= limit,
    decreases lists.len(),
{
    if k < lists.len() {
        let front = lists.drop_last();
        assert(front.take(k) =~= lists.take(k));
        assert(countable(front)) by {
            assert forall|i: int| 0 <= i < front.len() implies #[trigger] countable_ranges(
                front[i],
            ) by {
                assert(countable_ranges(lists[i]));
            }
        }
        lemma_caps_done(front, limit, k);
        assert(countable_ranges(lists[lists.len() - 1]));
        lemma_rows_prefix(lists.last(), 0);
        assert(lists.last().take(0) =~= Seq::empty());
    } else {
        assert(lists.take(k) =~= lists);
    }
}

/// The caps of the first morsels, up to the one that reaches the limit.
pub fn row_caps(morsels: &Vec<SelectedMorsel>, limit: u64) -> (caps: Vec<usize>)
    requires
        countable(morsel_ranges(morsels@)),
    ensures
        caps@ == caps_spec(morsel_ranges(morsels@), limit),
        caps@.len() <= morsels@.len(),
{
    let ghost lists = morsel_ranges(morsels@);
    let mut remaining: u64 = limit;
    let mut caps: Vec<usize> = Vec::new();
    let mut i: usize = 0;
    assert(lists.take(0) =~= Seq::empty());
    while i < morsels.len() && remaining > 0
        invariant
            i <= morsels@.len(),
            lists == morsel_ranges(morsels@),
            countable(lists),
            caps@.len() <= i,
            caps@ == caps_spec(lists.take(i as int), limit),
            total_rows(lists.take(i as int)) >= 0,
            remaining == (if total_rows(lists.take(i as int)) >= limit {
                0
            } else {
                limit - total_rows(lists.take(i as int))
            }),
        decreases morsels@.len() - i,
    {
        proof {
            assert(lists.take(i + 1).drop_last() =~= lists.take(i as int));
            assert(lists.take(i + 1).last() == lists[i as int]);
            assert(countable_ranges(lists[i as int]));
            lemma_rows_prefix(lists[i as int], 0);
            assert(lists[i as int].take(0) =~= Seq::empty());
        }
        let rows: u64 = count_rows(&morsels[i]);
        let exact: u64 = if rows < remaining {
            rows
        } else {
            remaining
        };
        let cap: usize = if exact > usize::MAX as u64 {
            usize::MAX
        } else {
            exact as usize
        };
        caps.push(cap);
        remaining = remaining.saturating_sub(rows);
        i = i + 1;
    }
    proof {
        lemma_caps_done_or_all(lists, limit, i as int, remaining);
    }
    caps
}

proof fn lemma_caps_done_or_all(lists: Seq<Seq<Range<u64>>>, limit: u64, i: int, remaining: u64)
    requires
        0 <= i <= lists.len(),
        countable(lists),
        i == lists.len() || remaining == 0,
        remaining == (if total_rows(lists.take(i)) >= limit {
            0
        } else {
            limit - total_rows(lists.take(i))
        }),
    ensures
        caps_spec(lists, limit) == caps_spec(lists.take(i), limit),
{
    if i == lists.len() {
        assert(lists.take(i) =~= lists);
    } else {
        lemma_caps_done(lists, limit, i);
    }
}

/// The sum of the caps.
pub open spec fn caps_total(caps: Seq<usize>) -> int
    decreases caps.len(),
{
    if caps.len() == 0 {
        0
    } else {
        caps_total(caps.drop_last()) + caps.last()
    }
}

/// Whether the exact output rows of every morsel are lengths in memory.
pub open spec fn lengths_fit(lists: Seq<Seq<Range<u64>>>, limit: u64) -> bool {
    limit <= usize::MAX || forall|i: int|
        0 <= i < lists.len() ==> rows_of(#[trigger] lists[i]) <= usize::MAX
}

/// The caps of the morsels of an unfiltered scan add up to the rows that the limit asks for, or to
/// all there are.
pub proof fn law_caps_total(lists: Seq<Seq<Range<u64>>>, limit: u64)
    requires
        countable(lists),
        lengths_fit(lists, limit),
    ensures
        caps_total(caps_spec(lists, limit)) == (if total_rows(lists) < limit {
            total_rows(lists)
        } else {
            limit as int
        }),
        caps_spec(lists, limit).len() <= lists.len(),
        0 <= total_rows(lists),
    decreases lists.len(),
{
    if lists.len() > 0 {
        let front = lists.drop_last();
        assert(countable(front)) by {
            assert forall|i: int| 0 <= i < front.len() implies #[trigger] countable_ranges(
                front[i],
            ) by {
                assert(countable_ranges(lists[i]));
            }
        }
        assert(lengths_fit(front, limit)) by {
            if limit > usize::MAX {
                assert forall|i: int| 0 <= i < front.len() implies rows_of(#[trigger] front[i])
                    <= usize::MAX by {
                    assert(front[i] == lists[i]);
                }
            }
        }
        law_caps_total(front, limit);
        assert(countable_ranges(lists[lists.len() - 1]));
        lemma_rows_prefix(lists.last(), 0);
        assert(lists.last().take(0) =~= Seq::empty());
        let caps = caps_spec(lists, limit);
        if total_rows(front) < limit {
            assert(caps.drop_last() =~= caps_spec(front, limit));
        }
    }
}

/// Why a scan cannot be planned.
#[derive(Clone, Copy, Debug, Eq, PartialEq, Structural)]
pub enum ScanError {
    /// Scan-wide statistics are unavailable for externally driven scans.
    ExternalStatistics,
}

/// What a scan asks for.
pub struct ScanRequest {
    /// The natural morsels of the file.
    pub natural_morsels: Vec<Range<u64>>,
    /// The number of rows of the file.
    pub row_count: u64,
    /// The rows to scan; all of them by default.
    pub row_range: Option<Range<u64>>,
    /// The selection, as one mask per natural morsel that is not empty in the row range.
    pub masks: Vec<RowMask>,
    /// The number of rows wanted.
    pub limit: Option<u64>,
    /// Whether there is a filter.
    pub has_filter: bool,
}

impl ScanRequest {
    /// The rows to scan.
    pub open spec fn full_range(self) -> Range<u64> {
        match self.row_range {
            Some(range) => range,
            None => Range { start: 0, end: self.row_count },
        }
    }

    /// The selected ranges, morsel by morsel.
    pub open spec fn selection(self) -> Seq<Seq<Range<u64>>> {
        selected(clipped(self.natural_morsels@, self.full_range()), self.masks@)
    }

    /// Whether every mask is inside its morsel, and ranges and their rows can be counted.
    pub open spec fn wf(self) -> bool {
        &&& masks_fit(clipped(self.natural_morsels@, self.full_range()), self.masks@)
        &&& countable(self.selection())
        &&& total_ranges(self.selection()) <= u64::MAX
    }

    /// Whether the limit can be applied before reading. A filtered scan cannot know where the
    /// limit falls.
    pub open spec fn caps_apply(self) -> bool {
        self.limit is Some && !self.has_filter
    }

    /// The ranges left by the limit, morsel by morsel.
    pub open spec fn limited(self) -> Seq<Seq<Range<u64>>> {
        if self.caps_apply() {
            self.selection().take(caps_spec(self.selection(), self.limit->0).len() as int)
        } else {
            self.selection()
        }
    }

    /// How the scan is narrowed. With a limit of no rows nothing is scanned.
    pub open spec fn shape(self) -> ScanShape {
        let unlimited = ScanShape {
            morsels_in_row_range: intersecting(
                self.natural_morsels@,
                self.full_range(),
            ) as u64,
            morsels_after_selection: nonempty(self.selection()) as u64,
            ranges_after_selection: total_ranges(self.selection()) as u64,
            morsels_after_limit: 0,
            ranges_after_limit: 0,
        };
        if self.limit == Some(0u64) {
            unlimited
        } else {
            ScanShape {
                morsels_after_limit: nonempty(self.limited()) as u64,
                ranges_after_limit: total_ranges(self.limited()) as u64,
                ..unlimited
            }
        }
    }
}

/// A scan selects the rows of the parts of its morsels that their masks keep, and no others; a row
/// is in a part exactly if it is in a morsel and in the row range. Every selected morsel has a
/// range, and the ranges are counted one by one.
pub proof fn law_selection_rows(request: ScanRequest, row: int)
    requires
        request.wf(),
    ensures
        in_lists(request.selection(), row) <==> kept_row(
            clipped(request.natural_morsels@, request.full_range()),
            request.masks@,
            row,
        ),
        in_ranges(clipped(request.natural_morsels@, request.full_range()), row) <==> in_ranges(
            request.natural_morsels@,
            row,
        ) && in_range(request.full_range(), row),
        nonempty(request.selection()) == request.selection().len(),
        total_ranges(request.selection()) == flattened(request.selection()).len(),
{
    let parts = clipped(request.natural_morsels@, request.full_range());
    let _ = law_clipped_rows(request.natural_morsels@, request.full_range());
    let _ = law_selected_rows(parts, request.masks@);
    lemma_all_nonempty(request.selection());
    lemma_flattened_len(request.selection());
}

/// Lists that all have a range are all counted.
proof fn lemma_all_nonempty(lists: Seq<Seq<Range<u64>>>)
    requires
        forall|m: int| 0 <= m < lists.len() ==> (#[trigger] lists[m]).len() > 0,
    ensures
        nonempty(lists) == lists.len(),
    decreases lists.len(),
{
    if lists.len() > 0 {
        let front = lists.drop_last();
        assert forall|m: int| 0 <= m < front.len() implies (#[trigger] front[m]).len() > 0 by {
            assert(front[m] == lists[m]);
        }
        lemma_all_nonempty(front);
        assert(lists[lists.len() - 1].len() > 0);
    }
}

/// The ranges of the lists are as many as those of all lists together.
proof fn lemma_flattened_len(lists: Seq<Seq<Range<u64>>>)
    ensures
        total_ranges(lists) == flattened(lists).len(),
    decreases lists.len(),
{
    if lists.len() > 0 {
        lemma_flattened_len(lists.drop_last());
    }
}

/// How the outputs of a scan are driven.
pub enum ScanOutputs {
    /// There are none.
    Nothing,
    /// By the executor's own threads, one output per morsel.
    Internal {
        /// The morsels.
        morsels: Vec<SelectedMorsel>,
        /// The caps on their output rows.
        row_caps: Option<Vec<usize>>,
    },
    /// By the engine's threads, one output per morsel.
    External {
        /// The outputs.
        outputs: Vec<ExternalOutput>,
        /// The record of the decision.
        trace: BundleTrace,
    },
    /// By the engine's threads, in bundles if there are enough of them.
    Bundled {
        /// The outputs.
        bundles: BundleOutputs,
        /// The record of the decision.
        trace: BundleTrace,
    },
}

/// A planned scan.
pub struct ScanPlan {
    /// The outputs.
    pub outputs: ScanOutputs,
    /// How the scan was narrowed, when statistics are collected.
    pub shape: Option<ScanShape>,
    /// The final statistics, when they are known without scanning.
    pub completed: Option<ScanStats>,
}

/// Push-morsel execution of scans: the configuration they are planned under.
#[derive(Clone, Copy, Debug, Eq, PartialEq, Structural)]
pub struct PushMorselScanExecutor {
    /// The target number of rows per morsel.
    pub target_rows: u64,
    /// The conjunct evaluation policy.
    pub conjunct_mode: ConjunctMode,
    /// The number of workers of one shared scan.
    pub threads: usize,
    /// How I/O is admitted.
    pub io_policy: ExecutorIoPolicy,
    /// Whether the engine's threads drive the scan.
    pub external_driver: bool,
    /// The parallelism for which adjacent morsels are bundled.
    pub external_frontier_bundle_parallelism: Option<usize>,
    /// The paired-output waves per external worker before bundling.
    pub external_frontier_bundle_min_waves: usize,
}

impl PushMorselScanExecutor {
    /// An internally driven executor with the default configuration.
    pub fn new() -> (executor: Self)
        ensures
            executor == (PushMorselScanExecutor {
                target_rows: 131072,
                conjunct_mode: ConjunctMode::Cascade,
                threads: 4,
                io_policy: ExecutorIoPolicy::EagerLookahead,
                external_driver: false,
                external_frontier_bundle_parallelism: None,
                external_frontier_bundle_min_waves: 1,
            }),
    {
        PushMorselScanExecutor {
            target_rows: 131072,
            conjunct_mode: ConjunctMode::Cascade,
            threads: 4,
            io_policy: ExecutorIoPolicy::default(),
            external_driver: false,
            external_frontier_bundle_parallelism: None,
            external_frontier_bundle_min_waves: 1,
        }
    }

    /// Set the target number of rows per morsel.
    pub fn with_target_rows(self, target_rows: u64) -> (executor: Self)
        ensures
            executor == (PushMorselScanExecutor { target_rows, ..self }),
    {
        PushMorselScanExecutor { target_rows, ..self }
    }

    /// Set the conjunct evaluation policy.
    pub fn with_conjunct_mode(self, conjunct_mode: ConjunctMode) -> (executor: Self)
        ensures
            executor == (PushMorselScanExecutor { conjunct_mode, ..self }),
    {
        PushMorselScanExecutor { conjunct_mode, ..self }
    }

    /// Set the number of workers used by one shared scan: at least one.
    pub fn with_threads(self, threads: usize) -> (executor: Self)
        ensures
            executor == (PushMorselScanExecutor {
                threads: if threads < 1 {
                    1
                } else {
                    threads
                },
                ..self
            }),
    {
        PushMorselScanExecutor {
            threads: if threads < 1 {
                1
            } else {
                threads
            },
            ..self
        }
    }

    /// Select grouped-I/O frontier scheduling.
    ///
    /// The frontier defaults admit at most two later predicate groups without speculating
    /// projection or adding down-frontier lookahead. Disabling it gives the eager-lookahead
    /// policy.
    pub fn with_frontier_io(self, frontier_io: bool) -> (executor: Self)
        ensures
            executor == (PushMorselScanExecutor {
                io_policy: if frontier_io {
                    ExecutorIoPolicy::Frontier
                } else {
                    ExecutorIoPolicy::EagerLookahead
                },
                ..self
            }),
    {
        PushMorselScanExecutor {
            io_policy: ExecutorIoPolicy::from_frontier_io(frontier_io),
            ..self
        }
    }

    /// Run each output on the thread that waits for it.
    pub fn with_external_threads(self) -> (executor: Self)
        ensures
            executor == (PushMorselScanExecutor { external_driver: true, ..self }),
    {
        PushMorselScanExecutor { external_driver: true, ..self }
    }

    /// Enable the adjacent-morsel bundle for an externally driven frontier scan.
    pub fn with_external_frontier_bundle_parallelism(self, parallelism: usize) -> (executor: Self)
        ensures
            executor == (PushMorselScanExecutor {
                external_frontier_bundle_parallelism: Some(
                    if parallelism < 1 {
                        1
                    } else {
                        parallelism
                    },
                ),
                ..self
            }),
    {
        PushMorselScanExecutor {
            external_frontier_bundle_parallelism: Some(
                if parallelism < 1 {
                    1
                } else {
                    parallelism
                },
            ),
            ..self
        }
    }

    /// Require this many paired-output waves per external worker before bundling.
    pub fn with_external_frontier_bundle_min_waves(self, min_waves: usize) -> (executor: Self)
        ensures
            executor == (PushMorselScanExecutor {
                external_frontier_bundle_min_waves: if min_waves < 1 {
                    1
                } else {
                    min_waves
                },
                ..self
            }),
    {
        PushMorselScanExecutor {
            external_frontier_bundle_min_waves: if min_waves < 1 {
                1
            } else {
                min_waves
            },
            ..self
        }
    }

    /// The natural full-file row boundaries: 0, then every other natural split in order.
    pub fn full_file_splits(&self, natural_splits: &Vec<u64>) -> (boundaries: Vec<u64>)
        ensures
            boundaries@ == seq![0u64] + natural_splits@.filter(|boundary: u64| boundary != 0),
    {
        let ghost keep = |boundary: u64| boundary != 0;
        let mut boundaries: Vec<u64> = Vec::new();
        boundaries.push(0);
        let mut i: usize = 0;
        assert(natural_splits@.take(0) =~= Seq::empty());
        proof {
            reveal(Seq::filter);
            assert(natural_splits@.take(0).filter(keep) =~= Seq::empty());
            assert(boundaries@ =~= seq![0u64] + Seq::<u64>::empty());
        }
        while i < natural_splits.len()
            invariant
                i <= natural_splits@.len(),
                keep == |boundary: u64| boundary != 0,
                boundaries@ == seq![0u64] + natural_splits@.take(i as int).filter(keep),
            decreases natural_splits@.len() - i,
        {
            proof {
                reveal(Seq::filter);
                assert(natural_splits@.take(i + 1).drop_last() =~= natural_splits@.take(i as int));
                assert(natural_splits@.take(i + 1).last() == natural_splits@[i as int]);
            }
            if natural_splits[i] != 0 {
                boundaries.push(natural_splits[i]);
            }
            i = i + 1;
            assert(boundaries@ =~= seq![0u64] + natural_splits@.take(i as int).filter(keep));
        }
        assert(natural_splits@.take(i as int) =~= natural_splits@);
        boundaries
    }

    /// Whether the outputs are what this executor plans for the ranges that the limit left.
    pub open spec fn plans(self, request: ScanRequest, outputs: ScanOutputs) -> bool {
        let lists = request.limited();
        let bundles = self.io_policy == ExecutorIoPolicy::Frontier && request.has_filter
            && request.limit is None && self.external_frontier_bundle_parallelism is Some;
        if request.limit == Some(0u64) {
            outputs is Nothing
        } else if !self.external_driver {
            outputs matches ScanOutputs::Internal { morsels, row_caps } && morsel_ranges(morsels@)
                == lists && (match row_caps {
                Some(caps) => request.caps_apply() && caps@ == caps_spec(
                    request.selection(),
                    request.limit->0,
                ),
                None => !request.caps_apply(),
            })
        } else if bundles {
            outputs matches ScanOutputs::Bundled { bundles: planned, trace } && {
                let plan = bundle_plan_spec(
                    lists.len() as usize,
                    self.external_frontier_bundle_parallelism->0,
                    self.external_frontier_bundle_min_waves,
                );
                &&& traces_bundles(
                    trace,
                    lists,
                    self.external_frontier_bundle_parallelism->0,
                    self.external_frontier_bundle_min_waves,
                    request.natural_morsels@.len(),
                )
                &&& match planned {
                    BundleOutputs::PerMorsel(morsels) => plan.bundle_size == 1 && morsel_ranges(
                        morsels@,
                    ) == lists,
                    BundleOutputs::Bundled(bundled) => plan.bundle_size != 1 && bundle_models(
                        bundled@,
                    ) == bundles_spec(lists),
                }
            }
        } else {
            outputs matches ScanOutputs::External { outputs: planned, trace } && {
                &&& traces_unbundled(
                    trace,
                    self.external_frontier_bundle_parallelism,
                    self.external_frontier_bundle_min_waves,
                    self.io_policy,
                    request.has_filter,
                    request.limit is Some,
                    request.natural_morsels@.len(),
                    lists.len(),
                )
                &&& planned@.len() == lists.len()
                &&& forall|i: int|
                    0 <= i < planned@.len() ==> (
                    #[trigger] planned@[i]).morsel.selected_ranges@ == lists[i]
                        && planned@[i].row_cap == if request.caps_apply() {
                        Some(caps_spec(request.selection(), request.limit->0)[i])
                    } else {
                        None
                    }
            }
        }
    }

    /// Plan the outputs of a scan.
    ///
    /// A limit is honoured exactly on unfiltered scans: morsels past it are never read and the
    /// last one is capped. A filtered scan cannot know where the limit falls, so every matching
    /// row is an output and the caller trims.
    pub fn build(&self, request: ScanRequest) -> (outputs: ScanOutputs)
        requires
            request.wf(),
        ensures
            self.plans(request, outputs),
    {
        self.build_inner(request, false).outputs
    }

    /// Plan the outputs of a scan and how it was narrowed, for its final statistics.
    ///
    /// Externally driven scans have no single scan-wide completion point and are rejected.
    pub fn build_with_stats(&self, request: ScanRequest) -> (result: Result<ScanPlan, ScanError>)
        requires
            request.wf(),
        ensures
            match result {
                Ok(plan) => {
                    &&& !self.external_driver
                    &&& self.plans(request, plan.outputs)
                    &&& plan.shape == Some(request.shape())
                    &&& plan.completed == if request.limit == Some(0u64) {
                        Some(request.shape().applied(0, 0))
                    } else {
                        None
                    }
                },
                Err(e) => self.external_driver && e == ScanError::ExternalStatistics,
            },
    {
        if self.external_driver {
            return Err(ScanError::ExternalStatistics);
        }
        Ok(self.build_inner(request, true))
    }

    fn build_inner(&self, request: ScanRequest, collect_stats: bool) -> (plan: ScanPlan)
        requires
            request.wf(),
        ensures
            self.plans(request, plan.outputs),
            plan.shape == if collect_stats {
                Some(request.shape())
            } else {
                None
            },
            plan.completed == if collect_stats && request.limit == Some(0u64) {
                Some(request.shape().applied(0, 0))
            } else {
                None
            },
    {
        let ghost whole = request;
        let no_rows: bool = match request.limit {
            Some(limit) => limit == 0,
            None => false,
        };
        if no_rows && !collect_stats {
            return ScanPlan { outputs: ScanOutputs::Nothing, shape: None, completed: None };
        }
        let full_range: Range<u64> = match &request.row_range {
            Some(range) => range.start..range.end,
            None => 0..request.row_count,
        };
        let natural_morsel_count: usize = request.natural_morsels.len();
        let mut morsels = selected_morsels(
            &request.natural_morsels,
            &full_range,
            &request.masks,
        );
        let ghost selection = morsel_ranges(morsels@);
        assert(selection == whole.selection());
        let mut shape: Option<ScanShape> = None;
        if collect_stats {
            shape = Some(
                ScanShape {
                    morsels_in_row_range: count_intersecting_morsels(
                        &request.natural_morsels,
                        &full_range,
                    ),
                    morsels_after_selection: count_nonempty_morsels(&morsels),
                    ranges_after_selection: count_ranges(&morsels),
                    morsels_after_limit: 0,
                    ranges_after_limit: 0,
                },
            );
        }
        if no_rows {
            let completed: Option<ScanStats> = match shape {
                Some(shape) => {
                    let mut stats = ScanStats::default();
                    shape.apply(&mut stats, 0, 0);
                    Some(stats)
                },
                None => None,
            };
            return ScanPlan { outputs: ScanOutputs::Nothing, shape, completed };
        }
        // Without a filter every selected row is an output row, so the morsels past the limit
        // can be dropped before any I/O and the last one capped exactly.
        let mut caps: Option<Vec<usize>> = None;
        match request.limit {
            Some(limit) => {
                if !request.has_filter {
                    let exact = row_caps(&morsels, limit);
                    let kept: usize = exact.len();
                    morsels.truncate(kept);
                    assert(morsel_ranges(morsels@) =~= selection.take(kept as int));
                    caps = Some(exact);
                }
            },
            None => {},
        }
        let ghost lists = morsel_ranges(morsels@);
        assert(lists == whole.limited());
        proof {
            lemma_total_ranges_bound(selection, lists.len() as int);
            assert(selection.take(selection.len() as int) =~= selection);
        }
        match shape {
            Some(unlimited) => {
                shape = Some(
                    ScanShape {
                        morsels_after_limit: count_nonempty_morsels(&morsels),
                        ranges_after_limit: count_ranges(&morsels),
                        ..unlimited
                    },
                );
            },
            None => {},
        }
        let outputs = self.drive(morsels, caps, &request, natural_morsel_count);
        ScanPlan { outputs, shape, completed: None }
    }

    /// Decide how the morsels that the limit left are driven.
    fn drive(
        &self,
        morsels: Vec<SelectedMorsel>,
        caps: Option<Vec<usize>>,
        request: &ScanRequest,
        natural_morsel_count: usize,
    ) -> (outputs: ScanOutputs)
        requires
            morsel_ranges(morsels@) == request.limited(),
            natural_morsel_count == request.natural_morsels@.len(),
            request.limit != Some(0u64),
            match caps {
                Some(exact) => request.caps_apply() && exact@ == caps_spec(
                    request.selection(),
                    request.limit->0,
                ) && exact@.len() == morsels@.len(),
                None => !request.caps_apply(),
            },
        ensures
            self.plans(*request, outputs),
    {
        let ghost lists = morsel_ranges(morsels@);
        assert(lists.len() == morsels@.len());
        if !self.external_driver {
            return ScanOutputs::Internal { morsels, row_caps: caps };
        }
        let bundle_parallelism: Option<usize> = external_frontier_bundle_parallelism(
            self.external_frontier_bundle_parallelism,
            self.io_policy,
            request.has_filter,
            request.limit.is_some(),
        );
        match bundle_parallelism {
            Some(parallelism) => {
                let (outputs, trace) = build_external_frontier_bundle_outputs(
                    morsels,
                    parallelism,
                    self.external_frontier_bundle_min_waves,
                    natural_morsel_count,
                );
                ScanOutputs::Bundled { bundles: outputs, trace }
            },
            None => {
                let trace = unbundled_trace(
                    self.external_frontier_bundle_parallelism,
                    self.external_frontier_bundle_min_waves,
                    self.io_policy,
                    request.has_filter,
                    request.limit.is_some(),
                    natural_morsel_count,
                    morsels.len(),
                );
                let ghost ranges = morsels@;
                let outputs = build_external_outputs(morsels, caps);
                proof {
                    assert forall|i: int| 0 <= i < outputs@.len() implies (
                    #[trigger] outputs@[i]).morsel.selected_ranges@ == lists[i]
                        && outputs@[i].row_cap == cap_of(caps, i) by {
                        assert(outputs@[i].morsel == ranges[i]);
                    }
                }
                ScanOutputs::External { outputs, trace }
            },
        }
    }
}

/// Why a scan that was started failed.
#[derive(Clone, Copy, Debug, Eq, PartialEq, Structural)]
pub enum ScanFailure {
    /// Its morsels could not be pruned.
    Pruning,
    /// It could not be run.
    Scan,
}

impl ScanFailure {
    /// What the message of the failure starts with.
    pub fn message(self) -> (message: &'static str)
        ensures
            message@ == (match self {
                ScanFailure::Pruning => "shared morsel scan pruning failed"@,
                ScanFailure::Scan => "shared morsel scan failed"@,
            }),
    {
        match self {
            ScanFailure::Pruning => "shared morsel scan pruning failed",
            ScanFailure::Scan => "shared morsel scan failed",
        }
    }
}

/// What is done with the morsels of an internally driven scan once they are pruned.
pub enum Coordination {
    /// Nothing is left to scan: every output is empty, and these are the final statistics, when
    /// they are collected.
    Complete {
        /// The outputs.
        empty: Vec<usize>,
        /// The statistics.
        stats: Option<ScanStats>,
    },
    /// The ranges are scanned.
    Run {
        /// The ranges and what they complete.
        assignment: Assignment,
        /// The threads that scan them.
        threads: usize,
        /// Morsels left by pruning.
        morsels_after_pruning: u64,
        /// Row ranges left by pruning.
        ranges_after_pruning: u64,
    },
}

impl PushMorselScanExecutor {
    /// Lay out an internally driven scan over what pruning left of its morsels.
    pub fn coordinate(
        &self,
        pruned: Vec<SelectedMorsel>,
        row_caps: Option<Vec<usize>>,
        shape: Option<ScanShape>,
    ) -> (coordination: Coordination)
        requires
            row_caps matches Some(caps) ==> caps@.len() >= pruned@.len(),
            total_ranges(morsel_ranges(pruned@)) <= u64::MAX,
        ensures
            ({
                let lists = morsel_ranges(pruned@);
                let (morsels, ranges) = (nonempty(lists) as u64, total_ranges(lists) as u64);
                match coordination {
                    Coordination::Complete { empty, stats } => {
                        &&& flattened(lists).len() == 0
                        &&& empty@ == empty_of(lists)
                        &&& stats == (match shape {
                            Some(shape) => Some(shape.applied(morsels, ranges)),
                            None => None,
                        })
                    },
                    Coordination::Run {
                        assignment,
                        threads,
                        morsels_after_pruning,
                        ranges_after_pruning,
                    } => {
                        &&& flattened(lists).len() > 0
                        &&& assignment.ranges@ == flattened(lists)
                        &&& assignment.targets@ == targets_of(lists, row_caps)
                        &&& assignment.groups@ == groups_of(lists, row_caps)
                        &&& assignment.empty@ == empty_of(lists)
                        &&& threads == (if flattened(lists).len() < self.threads {
                            flattened(lists).len() as int
                        } else {
                            self.threads as int
                        })
                        &&& morsels_after_pruning == morsels
                        &&& ranges_after_pruning == ranges
                    },
                }
            }),
    {
        let morsels_after_pruning: u64 = count_nonempty_morsels(&pruned);
        let ranges_after_pruning: u64 = count_ranges(&pruned);
        let assignment = assign_targets(pruned, row_caps);
        let n_ranges: usize = assignment.ranges.len();
        if n_ranges == 0 {
            let stats: Option<ScanStats> = match shape {
                Some(shape) => {
                    let mut stats = ScanStats::default();
                    shape.apply(&mut stats, morsels_after_pruning, ranges_after_pruning);
                    Some(stats)
                },
                None => None,
            };
            return Coordination::Complete { empty: assignment.empty, stats };
        }
        let threads: usize = scan_threads(n_ranges, self.threads);
        Coordination::Run { assignment, threads, morsels_after_pruning, ranges_after_pruning }
    }
}

proof fn lemma_total_ranges_bound(lists: Seq<Seq<Range<u64>>>, k: int)
    requires
        0 <= k <= lists.len(),
    ensures
        0 <= total_ranges(lists.take(k)) <= total_ranges(lists),
    decreases lists.len(),
{
    if lists.len() > 0 {
        let front = lists.drop_last();
        if k < lists.len() {
            lemma_total_ranges_bound(front, k);
            assert(front.take(k) =~= lists.take(k));
        } else {
            lemma_total_ranges_bound(front, front.len() as int);
            assert(front.take(front.len() as int) =~= front);
            assert(lists.take(k) =~= lists);
        }
    } else {
        assert(lists.take(k) =~= lists);
    }
}

/// Planning only narrows a scan: the limit leaves no more morsels and ranges than the selection does,
/// and as many where there is no limit or where a filter keeps it from being applied. A limit of no
/// rows leaves none.
pub proof fn law_shape_narrows(request: ScanRequest)
    requires
        request.wf(),
        request.natural_morsels@.len() <= u64::MAX,
    ensures
        ({
            let shape = request.shape();
            &&& shape.morsels_after_limit <= shape.morsels_after_selection
            &&& shape.ranges_after_limit <= shape.ranges_after_selection
            &&& request.limit is None || (request.has_filter && request.limit != Some(0u64)) ==> {
                &&& shape.morsels_after_limit == shape.morsels_after_selection
                &&& shape.ranges_after_limit == shape.ranges_after_selection
            }
            &&& request.limit == Some(0u64) ==> shape.morsels_after_limit == 0
                && shape.ranges_after_limit == 0
        }),
{
    let selection = request.selection();
    let parts = clipped(request.natural_morsels@, request.full_range());
    let _ = law_clipped_rows(request.natural_morsels@, request.full_range());
    let _ = law_selected_rows(parts, request.masks@);
    lemma_all_nonempty(selection);
    lemma_selection_len(request.natural_morsels@, request.full_range(), request.masks@);
    lemma_caps_len(selection, request.limit->0);
    let limited = request.limited();
    assert forall|m: int| 0 <= m < limited.len() implies (#[trigger] limited[m]).len() > 0 by {
        assert(limited[m] == selection[m]);
    }
    lemma_all_nonempty(limited);
    lemma_total_ranges_bound(selection, limited.len() as int);
    assert(selection.take(selection.len() as int) =~= selection);
}

/// There are no more selected lists than morsels.
proof fn lemma_selection_len(morsels: Seq<Range<u64>>, row_range: Range<u64>, masks: Seq<RowMask>)
    ensures
        clipped(morsels, row_range).len() <= morsels.len(),
        selected(clipped(morsels, row_range), masks).len() <= morsels.len(),
{
    lemma_clipped_len(morsels, row_range);
    lemma_selected_len(clipped(morsels, row_range), masks);
}

proof fn lemma_clipped_len(morsels: Seq<Range<u64>>, row_range: Range<u64>)
    ensures
        clipped(morsels, row_range).len() <= morsels.len(),
    decreases morsels.len(),
{
    if morsels.len() > 0 {
        lemma_clipped_len(morsels.drop_last(), row_range);
    }
}

proof fn lemma_selected_len(parts: Seq<Range<u64>>, masks: Seq<RowMask>)
    ensures
        selected(parts, masks).len() <= parts.len(),
    decreases parts.len(),
{
    if parts.len() > 0 {
        lemma_selected_len(parts.drop_last(), masks.drop_last());
    }
}

/// There are no more caps than lists.
proof fn lemma_caps_len(lists: Seq<Seq<Range<u64>>>, limit: u64)
    ensures
        caps_spec(lists, limit).len() <= lists.len(),
    decreases lists.len(),
{
    if lists.len() > 0 {
        lemma_caps_len(lists.drop_last(), limit);
    }
}

/// The rows of morsels add up, however the morsels are split, and a single morsel has those of its
/// ranges.
pub proof fn law_rows_of_morsels(
    front: Seq<Seq<Range<u64>>>,
    back: Seq<Seq<Range<u64>>>,
    list: Seq<Range<u64>>,
)
    ensures
        total_rows(front + back) == total_rows(front) + total_rows(back),
        total_rows(seq![list]) == rows_of(list),
    decreases back.len(),
{
    reveal_with_fuel(total_rows, 2);
    assert(seq![list].drop_last() =~= Seq::empty());
    if back.len() > 0 {
        law_rows_of_morsels(front, back.drop_last(), list);
        assert((front + back).drop_last() =~= front + back.drop_last());
    } else {
        assert(front + back =~= front);
    }
}

/// Who drives a scan follows from the executor and the request: nobody where no rows are wanted, the
/// executor's own threads unless the engine's do, and bundles only where a predicate frontier is
/// scheduled over a filter without a limit and bundling is configured.
pub proof fn law_outputs_by_driver(
    executor: PushMorselScanExecutor,
    request: ScanRequest,
    outputs: ScanOutputs,
)
    requires
        executor.plans(request, outputs),
    ensures
        outputs is Nothing <==> request.limit == Some(0u64),
        outputs is Internal <==> request.limit != Some(0u64) && !executor.external_driver,
        outputs is Bundled <==> executor.external_driver && executor.io_policy
            == ExecutorIoPolicy::Frontier && request.has_filter && request.limit is None
            && executor.external_frontier_bundle_parallelism is Some,
        outputs matches ScanOutputs::Bundled { bundles, .. } ==> (bundles is Bundled <==> {
            let pairs = (request.limited().len() as usize as int + 1) / 2;
            let parallelism = executor.external_frontier_bundle_parallelism->0;
            let waves = executor.external_frontier_bundle_min_waves;
            &&& request.limited().len() as usize >= 2
            &&& pairs >= (if parallelism == 0 {
                1int
            } else {
                parallelism as int
            }) * (if waves == 0 {
                1int
            } else {
                waves as int
            })
        }),
{
    law_pairs_fill_waves(
        request.limited().len() as usize,
        executor.external_frontier_bundle_parallelism->0,
        executor.external_frontier_bundle_min_waves,
    );
}

} // verus!
