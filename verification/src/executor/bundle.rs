//! Pairing of adjacent morsels for externally driven frontier scans.

use core::ops::Range;

use vstd::prelude::*;

use super::policy::ExecutorDriver;
use super::policy::ExecutorIoPolicy;
use super::policy::ScanConfig;
use super::ranges::ascending;
use super::ranges::morsel_ranges;
use super::ranges::SelectedMorsel;

verus! {

/// Adjacent natural morsels owned by one externally driven frontier scheduler.
///
/// Two ranges are enough to turn independently timed predicate requests into one storage-visible
/// wave while keeping work stealing and retained output bounded tightly per engine thread.
pub const EXTERNAL_FRONTIER_BUNDLE_MORSELS: usize = 2;

/// The parallelism with which to bundle, if bundling applies: it is configured, the policy is
/// frontier scheduling, the scan is filtered, and it has no limit.
pub fn external_frontier_bundle_parallelism(
    configured_parallelism: Option<usize>,
    io_policy: ExecutorIoPolicy,
    has_filter: bool,
    has_limit: bool,
) -> (parallelism: Option<usize>)
    ensures
        parallelism == if io_policy == ExecutorIoPolicy::Frontier && has_filter && !has_limit {
            configured_parallelism
        } else {
            None
        },
{
    if io_policy == ExecutorIoPolicy::Frontier && has_filter && !has_limit {
        configured_parallelism
    } else {
        None
    }
}

/// Whether, and against what threshold, morsels are bundled.
#[derive(Clone, Copy, Debug, Eq, PartialEq, Structural)]
pub struct ExternalFrontierBundlePlan {
    /// Morsels per bundle.
    pub bundle_size: usize,
    /// The number of bundles that pairing would give.
    pub candidate_bundle_count: usize,
    /// The number of bundles needed to keep every worker busy for the required waves.
    pub threshold: usize,
}

/// At least one.
pub open spec fn at_least_one(n: usize) -> usize {
    if n < 1 {
        1
    } else {
        n
    }
}

/// The least number of bundles for which pairing pays, or the largest number there is.
pub open spec fn bundle_threshold(parallelism: usize, min_waves: usize) -> usize {
    let wanted = at_least_one(parallelism) * at_least_one(min_waves);
    if wanted > usize::MAX {
        usize::MAX
    } else {
        wanted as usize
    }
}

/// The plan for `morsel_count` morsels: pairs, if there are enough of them.
pub open spec fn bundle_plan_spec(
    morsel_count: usize,
    parallelism: usize,
    min_waves: usize,
) -> ExternalFrontierBundlePlan {
    let candidates = (morsel_count as int + 1) / 2;
    let threshold = bundle_threshold(parallelism, min_waves);
    ExternalFrontierBundlePlan {
        bundle_size: if morsel_count >= EXTERNAL_FRONTIER_BUNDLE_MORSELS && candidates
            >= threshold {
            EXTERNAL_FRONTIER_BUNDLE_MORSELS
        } else {
            1
        },
        candidate_bundle_count: candidates as usize,
        threshold,
    }
}

/// The saturating product of two counts of which at least one is counted.
fn threshold_of(parallelism: usize, min_waves: usize) -> (threshold: usize)
    ensures
        threshold == bundle_threshold(parallelism, min_waves),
{
    let workers: usize = if parallelism < 1 {
        1
    } else {
        parallelism
    };
    let waves: usize = if min_waves < 1 {
        1
    } else {
        min_waves
    };
    match workers.checked_mul(waves) {
        Some(threshold) => threshold,
        None => usize::MAX,
    }
}

/// Decide whether `morsel_count` morsels are scanned in pairs: only if the pairs fill
/// `min_waves` waves of `parallelism` workers.
pub fn external_frontier_bundle_plan(
    morsel_count: usize,
    parallelism: usize,
    min_waves: usize,
) -> (plan: ExternalFrontierBundlePlan)
    ensures
        plan == bundle_plan_spec(morsel_count, parallelism, min_waves),
{
    let candidate_bundle_count: usize = morsel_count / 2 + morsel_count % 2;
    let threshold: usize = threshold_of(parallelism, min_waves);
    let bundle_size: usize = if morsel_count >= EXTERNAL_FRONTIER_BUNDLE_MORSELS
        && candidate_bundle_count >= threshold {
        EXTERNAL_FRONTIER_BUNDLE_MORSELS
    } else {
        1
    };
    ExternalFrontierBundlePlan { bundle_size, candidate_bundle_count, threshold }
}

/// One or two adjacent morsels that are scanned together.
pub struct ExternalFrontierBundle {
    /// From the first row of the bundle to the last.
    pub coverage: Range<u64>,
    /// The first morsel.
    pub first: SelectedMorsel,
    /// The morsel that continues it.
    pub second: Option<SelectedMorsel>,
}

/// The ranges of a bundle's morsels.
#[verifier::ext_equal]
pub struct BundleModel {
    /// From the first row of the bundle to the last.
    pub coverage: Range<u64>,
    /// The ranges of the first morsel.
    pub first: Seq<Range<u64>>,
    /// The ranges of the second.
    pub second: Option<Seq<Range<u64>>>,
}

impl View for ExternalFrontierBundle {
    type V = BundleModel;

    open spec fn view(&self) -> BundleModel {
        BundleModel {
            coverage: self.coverage,
            first: self.first.selected_ranges@,
            second: match self.second {
                Some(second) => Some(second.selected_ranges@),
                None => None,
            },
        }
    }
}

impl BundleModel {
    /// The morsels of the bundle, in order.
    pub open spec fn morsels(self) -> Seq<Seq<Range<u64>>> {
        match self.second {
            Some(second) => seq![self.first, second],
            None => seq![self.first],
        }
    }
}

impl ExternalFrontierBundle {
    /// The morsels of the bundle, in order.
    pub fn into_morsels(self) -> (morsels: Vec<SelectedMorsel>)
        ensures
            morsel_ranges(morsels@) == self@.morsels(),
    {
        let ghost model = self@;
        let mut morsels: Vec<SelectedMorsel> = Vec::new();
        morsels.push(self.first);
        match self.second {
            Some(second) => {
                morsels.push(second);
            },
            None => {},
        }
        assert(morsel_ranges(morsels@) =~= model.morsels());
        morsels
    }
}

/// From the first row of the ranges to the last; empty without ranges.
pub open spec fn coverage_spec(ranges: Seq<Range<u64>>) -> Range<u64> {
    if ranges.len() == 0 {
        Range { start: 0, end: 0 }
    } else {
        Range { start: ranges[0].start, end: ranges.last().end }
    }
}

/// Whether two morsels are one contiguous range each and the second continues the first.
pub open spec fn pairs(first: Seq<Range<u64>>, second: Seq<Range<u64>>) -> bool {
    first.len() == 1 && second.len() == 1 && first[0].end == second[0].start
}

/// The bundles of a sequence of morsels, first come first paired.
pub open spec fn bundles_spec(morsels: Seq<Seq<Range<u64>>>) -> Seq<BundleModel>
    decreases morsels.len(),
{
    if morsels.len() == 0 {
        Seq::empty()
    } else if morsels.len() >= 2 && pairs(morsels[0], morsels[1]) {
        seq![
            BundleModel {
                coverage: Range { start: morsels[0][0].start, end: morsels[1][0].end },
                first: morsels[0],
                second: Some(morsels[1]),
            },
        ] + bundles_spec(morsels.skip(2))
    } else {
        seq![
            BundleModel {
                coverage: coverage_spec(morsels[0]),
                first: morsels[0],
                second: None,
            },
        ] + bundles_spec(morsels.skip(1))
    }
}

/// The one range of a morsel that is contiguous.
fn contiguous_selected_coverage(morsel: &SelectedMorsel) -> (coverage: Option<Range<u64>>)
    ensures
        coverage == (if morsel.selected_ranges@.len() == 1 {
            Some(morsel.selected_ranges@[0])
        } else {
            None
        }),
{
    if morsel.selected_ranges.len() == 1 {
        Some(morsel.selected_ranges[0].start..morsel.selected_ranges[0].end)
    } else {
        None
    }
}

/// From the first selected row of a morsel to the last.
fn selected_coverage(morsel: &SelectedMorsel) -> (coverage: Range<u64>)
    ensures
        coverage == coverage_spec(morsel.selected_ranges@),
{
    let n: usize = morsel.selected_ranges.len();
    if n == 0 {
        0..0
    } else {
        morsel.selected_ranges[0].start..morsel.selected_ranges[n - 1].end
    }
}

/// The views of a sequence of bundles.
pub open spec fn bundle_models(bundles: Seq<ExternalFrontierBundle>) -> Seq<BundleModel> {
    bundles.map_values(|bundle: ExternalFrontierBundle| bundle@)
}

/// Pair each contiguous morsel with the next one if that continues it.
pub fn bundle_adjacent_contiguous_morsels(morsels: Vec<SelectedMorsel>) -> (bundles: Vec<
    ExternalFrontierBundle,
>)
    ensures
        bundle_models(bundles@) == bundles_spec(morsel_ranges(morsels@)),
{
    let ghost all = morsel_ranges(morsels@);
    let mut morsels = morsels;
    // The morsels in reverse, so that the next one is the last of the vector.
    let mut rest: Vec<SelectedMorsel> = Vec::new();
    loop
        invariant
            morsels@.len() + rest@.len() == all.len(),
            forall|i: int|
                0 <= i < morsels@.len() ==> (#[trigger] morsels@[i]).selected_ranges@ == all[i],
            forall|i: int|
                0 <= i < rest@.len() ==> (#[trigger] rest@[i]).selected_ranges@ == all[all.len() - 1
                    - i],
        ensures
            morsels@.len() == 0,
        decreases morsels@.len(),
    {
        match morsels.pop() {
            Some(morsel) => {
                rest.push(morsel);
            },
            None => {
                break ;
            },
        }
    }
    let mut bundles: Vec<ExternalFrontierBundle> = Vec::new();
    assert(all.skip(0) =~= all);
    assert(bundle_models(bundles@) + bundles_spec(all) =~= bundles_spec(all));
    loop
        invariant
            rest@.len() <= all.len(),
            forall|i: int|
                0 <= i < rest@.len() ==> (#[trigger] rest@[i]).selected_ranges@ == all[all.len() - 1
                    - i],
            bundles_spec(all) == bundle_models(bundles@) + bundles_spec(
                all.skip(all.len() - rest@.len()),
            ),
        ensures
            rest@.len() == 0,
        decreases rest@.len(),
    {
        let ghost at = all.len() - rest@.len();
        let ghost left = all.skip(at);
        let ghost done = bundle_models(bundles@);
        let first = match rest.pop() {
            Some(first) => first,
            None => {
                break ;
            },
        };
        assert(first.selected_ranges@ == left[0]);
        let first_coverage = contiguous_selected_coverage(&first);
        let n: usize = rest.len();
        let mut second: Option<SelectedMorsel> = None;
        let mut coverage: Range<u64> = selected_coverage(&first);
        match first_coverage {
            Some(first_range) => {
                if n > 0 {
                    assert(rest@[n - 1].selected_ranges@ == left[1]);
                    match contiguous_selected_coverage(&rest[n - 1]) {
                        Some(second_range) => {
                            if first_range.end == second_range.start {
                                second = rest.pop();
                                coverage = first_range.start..second_range.end;
                            }
                        },
                        None => {},
                    }
                }
            },
            None => {},
        }
        let bundle = ExternalFrontierBundle { coverage, first, second };
        let ghost model = bundle@;
        proof {
            if bundle.second is Some {
                assert(left.skip(2) =~= all.skip(at + 2));
            } else {
                assert(left.skip(1) =~= all.skip(at + 1));
            }
            let next = bundles_spec(all.skip(all.len() - rest@.len()));
            assert(bundles_spec(left) =~= seq![model] + next);
            assert(done + (seq![model] + next) =~= done.push(model) + next);
        }
        bundles.push(bundle);
        assert(bundle_models(bundles@) =~= done.push(model));
    }
    assert(all.skip(all.len() as int) =~= Seq::empty());
    assert(bundle_models(bundles@) + Seq::<BundleModel>::empty() =~= bundle_models(bundles@));
    bundles
}

/// The morsels of the bundles, in order.
pub open spec fn unbundled(bundles: Seq<BundleModel>) -> Seq<Seq<Range<u64>>>
    decreases bundles.len(),
{
    if bundles.len() == 0 {
        Seq::empty()
    } else {
        bundles[0].morsels() + unbundled(bundles.skip(1))
    }
}

/// Bundling loses no morsel, repeats none, and keeps their order.
pub proof fn law_bundles_partition(morsels: Seq<Seq<Range<u64>>>)
    ensures
        unbundled(bundles_spec(morsels)) == morsels,
    decreases morsels.len(),
{
    let bundles = bundles_spec(morsels);
    if morsels.len() > 0 {
        let taken: int = if morsels.len() >= 2 && pairs(morsels[0], morsels[1]) {
            2
        } else {
            1
        };
        law_bundles_partition(morsels.skip(taken));
        assert(bundles.skip(1) =~= bundles_spec(morsels.skip(taken)));
        assert(unbundled(bundles) =~= morsels);
    }
}

/// Whether the morsels are in row order: each one's ranges are, and none reaches into the next.
pub open spec fn morsels_ascend(morsels: Seq<Seq<Range<u64>>>) -> bool {
    &&& forall|i: int|
        0 <= i < morsels.len() ==> (#[trigger] morsels[i]).len() > 0 && ascending(morsels[i])
    &&& forall|i: int, j: int|
        0 <= i < j < morsels.len() ==> (#[trigger] morsels[i]).last().end <= (
        #[trigger] morsels[j])[0].start
}

/// The coverages of bundled morsels that are in row order do not overlap.
pub proof fn law_bundles_disjoint(morsels: Seq<Seq<Range<u64>>>)
    requires
        morsels_ascend(morsels),
    ensures
        forall|i: int, j: int|
            #![trigger bundles_spec(morsels)[i], bundles_spec(morsels)[j]]
            0 <= i < j < bundles_spec(morsels).len() ==> bundles_spec(morsels)[i].coverage.end
                <= bundles_spec(morsels)[j].coverage.start,
        morsels.len() > 0 ==> bundles_spec(morsels).len() > 0,
        forall|i: int|
            0 <= i < bundles_spec(morsels).len() ==> (
            #[trigger] bundles_spec(morsels)[i]).coverage.start <= bundles_spec(
                morsels,
            )[i].coverage.end && morsels[0][0].start <= bundles_spec(morsels)[i].coverage.start,
    decreases morsels.len(),
{
    let bundles = bundles_spec(morsels);
    if morsels.len() > 0 {
        let taken: int = if morsels.len() >= 2 && pairs(morsels[0], morsels[1]) {
            2
        } else {
            1
        };
        let rest = morsels.skip(taken);
        let others = bundles_spec(rest);
        assert(morsels_ascend(rest)) by {
            assert forall|i: int| 0 <= i < rest.len() implies (#[trigger] rest[i]).len() > 0
                && ascending(rest[i]) by {
                assert(rest[i] == morsels[i + taken]);
            }
            assert forall|i: int, j: int| 0 <= i < j < rest.len() implies (
            #[trigger] rest[i]).last().end <= (#[trigger] rest[j])[0].start by {
                assert(rest[i] == morsels[i + taken] && rest[j] == morsels[j + taken]);
            }
        }
        law_bundles_disjoint(rest);
        assert(morsels[0].len() > 0 && ascending(morsels[0]));
        lemma_ascending_span(morsels[0]);
        if taken == 2 {
            assert(ascending(morsels[1]));
            assert(morsels[1][0].start <= morsels[1][0].end);
        }
        if rest.len() > 0 {
            assert(rest[0] == morsels[taken]);
            assert(morsels[taken - 1].last().end <= morsels[taken][0].start);
            assert(morsels[0].last().end <= morsels[taken][0].start);
        }
        assert forall|i: int| 0 < i < bundles.len() implies bundles[i] == others[i - 1] by {}
        assert forall|i: int, j: int|
            #![trigger bundles[i], bundles[j]]
            0 <= i < j < bundles.len() implies bundles[i].coverage.end
            <= bundles[j].coverage.start by {
            assert(bundles[j] == others[j - 1]);
            if i > 0 {
                assert(bundles[i] == others[i - 1]);
            }
        }
        assert forall|i: int| 0 <= i < bundles.len() implies (#[trigger] bundles[i]).coverage.start
            <= bundles[i].coverage.end && morsels[0][0].start <= bundles[i].coverage.start by {
            if i > 0 {
                assert(bundles[i] == others[i - 1]);
            }
        }
    }
}

proof fn lemma_ascending_span(ranges: Seq<Range<u64>>)
    requires
        ranges.len() > 0,
        ascending(ranges),
    ensures
        ranges[0].start <= ranges.last().end,
{
    assert(ranges[0].start <= ranges[0].end);
    assert(ranges[ranges.len() - 1].start <= ranges[ranges.len() - 1].end);
    if ranges.len() > 1 {
        assert(ranges[0].end <= ranges[ranges.len() - 1].start);
    }
}

/// A bundle of two morsels is one run of rows, from the first to the last that it covers, and a
/// morsel is left alone only where the next one does not continue it. The bundle of a single morsel
/// covers from its first range to its last.
pub proof fn law_bundles_are_runs(morsels: Seq<Seq<Range<u64>>>, i: int)
    requires
        0 <= i < bundles_spec(morsels).len(),
    ensures
        ({
            let bundles = bundles_spec(morsels);
            let bundle = bundles[i];
            match bundle.second {
                Some(second) => {
                    &&& bundle.first.len() == 1
                    &&& second.len() == 1
                    &&& bundle.first[0].start == bundle.coverage.start
                    &&& bundle.first[0].end == second[0].start
                    &&& second[0].end == bundle.coverage.end
                },
                None => {
                    &&& bundle.first.len() > 0 ==> bundle.coverage.start == bundle.first[0].start
                        && bundle.coverage.end == bundle.first[bundle.first.len() - 1].end
                    &&& i + 1 < bundles.len() && bundle.first.len() == 1 && bundles[i
                        + 1].first.len() == 1 ==> bundle.first[0].end != bundles[i
                        + 1].first[0].start
                },
            }
        }),
    decreases morsels.len(),
{
    let bundles = bundles_spec(morsels);
    let taken: int = if morsels.len() >= 2 && pairs(morsels[0], morsels[1]) {
        2
    } else {
        1
    };
    let rest = morsels.skip(taken);
    let others = bundles_spec(rest);
    assert(bundles =~= seq![bundles[0]] + others);
    if i > 0 {
        assert(bundles[i] == others[i - 1]);
        if i + 1 < bundles.len() {
            assert(bundles[i + 1] == others[i]);
        }
        law_bundles_are_runs(rest, i - 1);
    } else if taken == 1 && bundles.len() > 1 {
        assert(others[0] == bundles[1]);
        assert(rest.len() > 0);
        assert(others[0].first == rest[0]);
        assert(rest[0] == morsels[1]);
    }
}

/// Morsels are paired exactly if there are two of them, and the pairs fill the waves of all workers,
/// of which there is at least one.
pub proof fn law_pairs_fill_waves(morsel_count: usize, parallelism: usize, min_waves: usize)
    ensures
        ({
            let plan = bundle_plan_spec(morsel_count, parallelism, min_waves);
            let workers: int = if parallelism == 0 {
                1
            } else {
                parallelism as int
            };
            let waves: int = if min_waves == 0 {
                1
            } else {
                min_waves as int
            };
            &&& plan.bundle_size == 1 || plan.bundle_size == 2
            &&& plan.bundle_size == 2 <==> morsel_count >= 2 && plan.candidate_bundle_count >= workers
                * waves
            &&& morsel_count <= 2 * plan.candidate_bundle_count <= morsel_count + 1
            &&& workers * waves <= usize::MAX ==> plan.threshold == workers * waves
        }),
{
}

/// The down lookahead of a pruned bundle: one, if exactly one range is left of each of two
/// morsels and the second continues the first; else none.
pub open spec fn frontier_down(pruned: Seq<Seq<Range<u64>>>) -> usize {
    if pruned.len() == 2 && pairs(pruned[0], pruned[1]) {
        1
    } else {
        0
    }
}

/// The down lookahead of a pruned bundle.
pub fn bundled_frontier_down(pruned: &[SelectedMorsel]) -> (down: usize)
    ensures
        down == frontier_down(morsel_ranges(pruned@)),
{
    if pruned.len() != 2 {
        return 0;
    }
    let first = &pruned[0].selected_ranges;
    let second = &pruned[1].selected_ranges;
    if first.len() == 1 && second.len() == 1 && first[0].end == second[0].start {
        1
    } else {
        0
    }
}

/// What is recorded of the planning of an external scan.
#[derive(Clone, Copy, Debug)]
pub struct BundleTrace {
    /// The configured parallelism; 0 when there is none.
    pub configured_parallelism: usize,
    /// The waves required before bundling.
    pub min_bundle_waves: usize,
    /// The number of bundles needed.
    pub bundle_threshold: usize,
    /// The morsels of the file.
    pub natural_morsels: usize,
    /// The morsels that are scanned.
    pub selected_morsels: usize,
    /// The number of bundles that pairing would give.
    pub candidate_bundle_count: usize,
    /// Morsels per bundle.
    pub selected_bundle_size: usize,
    /// The bundles there are.
    pub resulting_bundles: usize,
    /// The bundles of two morsels.
    pub paired_bundles: usize,
    /// Why morsels are not paired.
    pub fallback_reason: &'static str,
}

/// Why bundling does not apply to a scan at all: the first of the conditions that fails.
pub fn unbundled_reason(
    configured_parallelism: Option<usize>,
    io_policy: ExecutorIoPolicy,
    has_filter: bool,
    has_limit: bool,
) -> (reason: &'static str)
    ensures
        reason == if configured_parallelism is None {
            "not_configured"
        } else if io_policy != ExecutorIoPolicy::Frontier {
            "non_frontier"
        } else if !has_filter {
            "no_filter"
        } else if has_limit {
            "limit"
        } else {
            "unknown"
        },
{
    if configured_parallelism.is_none() {
        "not_configured"
    } else if io_policy != ExecutorIoPolicy::Frontier {
        "non_frontier"
    } else if !has_filter {
        "no_filter"
    } else if has_limit {
        "limit"
    } else {
        "unknown"
    }
}

/// Whether a record is that of an external scan to which bundling does not apply.
pub open spec fn traces_unbundled(
    trace: BundleTrace,
    configured_parallelism: Option<usize>,
    min_waves: usize,
    io_policy: ExecutorIoPolicy,
    has_filter: bool,
    has_limit: bool,
    natural_morsels: nat,
    selected_morsels: nat,
) -> bool {
    let parallelism = match configured_parallelism {
        Some(n) => n,
        None => 0,
    };
    &&& trace.configured_parallelism == parallelism
    &&& trace.min_bundle_waves == min_waves
    &&& trace.bundle_threshold == (if parallelism * min_waves > usize::MAX {
        usize::MAX as int
    } else {
        parallelism * min_waves
    })
    &&& trace.natural_morsels == natural_morsels
    &&& trace.selected_morsels == selected_morsels
    &&& trace.candidate_bundle_count == (selected_morsels + 1) / 2
    &&& trace.selected_bundle_size == 1
    &&& trace.resulting_bundles == selected_morsels
    &&& trace.paired_bundles == 0
    &&& trace.fallback_reason == if configured_parallelism is None {
        "not_configured"
    } else if io_policy != ExecutorIoPolicy::Frontier {
        "non_frontier"
    } else if !has_filter {
        "no_filter"
    } else if has_limit {
        "limit"
    } else {
        "unknown"
    }
}

/// The record of an external scan to which bundling does not apply. Its threshold is the plain
/// saturating product, so that an absent parallelism counts as none.
pub fn unbundled_trace(
    configured_parallelism: Option<usize>,
    min_waves: usize,
    io_policy: ExecutorIoPolicy,
    has_filter: bool,
    has_limit: bool,
    natural_morsels: usize,
    selected_morsels: usize,
) -> (trace: BundleTrace)
    ensures
        traces_unbundled(
            trace,
            configured_parallelism,
            min_waves,
            io_policy,
            has_filter,
            has_limit,
            natural_morsels as nat,
            selected_morsels as nat,
        ),
{
    let parallelism: usize = match configured_parallelism {
        Some(n) => n,
        None => 0,
    };
    let threshold: usize = match parallelism.checked_mul(min_waves) {
        Some(threshold) => threshold,
        None => usize::MAX,
    };
    BundleTrace {
        configured_parallelism: parallelism,
        min_bundle_waves: min_waves,
        bundle_threshold: threshold,
        natural_morsels,
        selected_morsels,
        candidate_bundle_count: selected_morsels / 2 + selected_morsels % 2,
        selected_bundle_size: 1,
        resulting_bundles: selected_morsels,
        paired_bundles: 0,
        fallback_reason: unbundled_reason(
            configured_parallelism,
            io_policy,
            has_filter,
            has_limit,
        ),
    }
}

/// The outputs of an external scan to which bundling applies.
pub enum BundleOutputs {
    /// Too few morsels: one output each.
    PerMorsel(Vec<SelectedMorsel>),
    /// One output per bundle.
    Bundled(Vec<ExternalFrontierBundle>),
}

/// The number of bundles of two morsels.
pub open spec fn paired(bundles: Seq<BundleModel>) -> int
    decreases bundles.len(),
{
    if bundles.len() == 0 {
        0
    } else {
        paired(bundles.drop_last()) + if bundles.last().second is Some {
            1int
        } else {
            0
        }
    }
}

fn count_paired(bundles: &Vec<ExternalFrontierBundle>) -> (n: usize)
    ensures
        n == paired(bundle_models(bundles@)),
        n <= bundles@.len(),
{
    let ghost models = bundle_models(bundles@);
    let mut n: usize = 0;
    let mut i: usize = 0;
    assert(models.take(0) =~= Seq::empty());
    while i < bundles.len()
        invariant
            i <= bundles@.len(),
            n <= i,
            models == bundle_models(bundles@),
            n == paired(models.take(i as int)),
        decreases bundles@.len() - i,
    {
        assert(models.take(i + 1).drop_last() =~= models.take(i as int));
        if bundles[i].second.is_some() {
            n = n + 1;
        }
        i = i + 1;
    }
    assert(models.take(i as int) =~= models);
    n
}

/// Every morsel is in a bundle: those of two hold one more than their number.
proof fn lemma_paired_count(morsels: Seq<Seq<Range<u64>>>)
    ensures
        bundles_spec(morsels).len() + paired(bundles_spec(morsels)) == morsels.len(),
    decreases morsels.len(),
{
    let bundles = bundles_spec(morsels);
    if morsels.len() > 0 {
        let taken: int = if morsels.len() >= 2 && pairs(morsels[0], morsels[1]) {
            2
        } else {
            1
        };
        let others = bundles_spec(morsels.skip(taken));
        lemma_paired_count(morsels.skip(taken));
        lemma_paired_cons(bundles[0], others);
        assert(bundles =~= seq![bundles[0]] + others);
    }
}

proof fn lemma_paired_cons(first: BundleModel, rest: Seq<BundleModel>)
    ensures
        paired(seq![first] + rest) == paired(rest) + if first.second is Some {
            1int
        } else {
            0
        },
    decreases rest.len(),
{
    let all = seq![first] + rest;
    if rest.len() == 0 {
        assert(all.drop_last() =~= Seq::empty());
        assert(paired(all.drop_last()) == 0);
        assert(all.last() == first);
    } else {
        assert(all.drop_last() =~= seq![first] + rest.drop_last());
        lemma_paired_cons(first, rest.drop_last());
    }
}

/// Whether a record is that of an external scan of these morsels to which bundling applies.
pub open spec fn traces_bundles(
    trace: BundleTrace,
    lists: Seq<Seq<Range<u64>>>,
    parallelism: usize,
    min_waves: usize,
    natural_morsels: nat,
) -> bool {
    let plan = bundle_plan_spec(lists.len() as usize, parallelism, min_waves);
    let bundles = bundles_spec(lists);
    &&& trace.configured_parallelism == parallelism
    &&& trace.min_bundle_waves == min_waves
    &&& trace.bundle_threshold == plan.threshold
    &&& trace.natural_morsels == natural_morsels
    &&& trace.selected_morsels == lists.len()
    &&& trace.candidate_bundle_count == plan.candidate_bundle_count
    &&& trace.selected_bundle_size == plan.bundle_size
    &&& if plan.bundle_size == 1 {
        &&& trace.resulting_bundles == lists.len()
        &&& trace.paired_bundles == 0
        &&& trace.fallback_reason == "min_bundle_waves"
    } else {
        &&& trace.resulting_bundles == bundles.len()
        &&& trace.paired_bundles == paired(bundles)
        &&& trace.fallback_reason == if paired(bundles) == 0 {
            "no_adjacent_contiguous_pair"
        } else if paired(bundles) < bundles.len() {
            "odd_tail_or_selection_gap"
        } else {
            "none"
        }
    }
}

/// Plan the outputs of an external frontier scan: pairs of adjacent morsels if they are enough to
/// keep every worker busy, else single morsels; and the record of it.
pub fn build_external_frontier_bundle_outputs(
    morsels: Vec<SelectedMorsel>,
    parallelism: usize,
    min_waves: usize,
    natural_morsels: usize,
) -> (planned: (BundleOutputs, BundleTrace))
    ensures
        ({
            let (outputs, trace) = planned;
            let lists = morsel_ranges(morsels@);
            let plan = bundle_plan_spec(morsels@.len() as usize, parallelism, min_waves);
            &&& traces_bundles(trace, lists, parallelism, min_waves, natural_morsels as nat)
            &&& if plan.bundle_size == 1 {
                outputs matches BundleOutputs::PerMorsel(single) && single@ == morsels@
            } else {
                outputs matches BundleOutputs::Bundled(bundled) && bundle_models(bundled@)
                    == bundles_spec(lists)
            }
        }),
{
    let n: usize = morsels.len();
    let plan = external_frontier_bundle_plan(n, parallelism, min_waves);
    if plan.bundle_size == 1 {
        let trace = BundleTrace {
            configured_parallelism: parallelism,
            min_bundle_waves: min_waves,
            bundle_threshold: plan.threshold,
            natural_morsels,
            selected_morsels: n,
            candidate_bundle_count: plan.candidate_bundle_count,
            selected_bundle_size: 1,
            resulting_bundles: n,
            paired_bundles: 0,
            fallback_reason: "min_bundle_waves",
        };
        return (BundleOutputs::PerMorsel(morsels), trace);
    }
    let ghost ranges = morsel_ranges(morsels@);
    let bundles = bundle_adjacent_contiguous_morsels(morsels);
    let paired_bundles: usize = count_paired(&bundles);
    proof {
        lemma_paired_count(ranges);
        assert(bundle_models(bundles@).len() == bundles@.len());
    }
    let fallback_reason: &'static str = if paired_bundles == 0 {
        "no_adjacent_contiguous_pair"
    } else if paired_bundles < bundles.len() {
        "odd_tail_or_selection_gap"
    } else {
        "none"
    };
    let trace = BundleTrace {
        configured_parallelism: parallelism,
        min_bundle_waves: min_waves,
        bundle_threshold: plan.threshold,
        natural_morsels,
        selected_morsels: bundles.len() + paired_bundles,
        candidate_bundle_count: plan.candidate_bundle_count,
        selected_bundle_size: EXTERNAL_FRONTIER_BUNDLE_MORSELS,
        resulting_bundles: bundles.len(),
        paired_bundles,
        fallback_reason,
    };
    (BundleOutputs::Bundled(bundles), trace)
}

/// The ranges of the morsels, one morsel after the other.
pub open spec fn flattened(morsels: Seq<Seq<Range<u64>>>) -> Seq<Range<u64>>
    decreases morsels.len(),
{
    if morsels.len() == 0 {
        Seq::empty()
    } else {
        flattened(morsels.drop_last()) + morsels.last()
    }
}

/// Flatten morsels into their ranges, in order.
pub fn flatten_ranges(morsels: Vec<SelectedMorsel>) -> (ranges: Vec<Range<u64>>)
    ensures
        ranges@ == flattened(morsel_ranges(morsels@)),
{
    let ghost lists = morsel_ranges(morsels@);
    let mut ranges: Vec<Range<u64>> = Vec::new();
    let mut i: usize = 0;
    assert(lists.take(0) =~= Seq::empty());
    while i < morsels.len()
        invariant
            i <= morsels@.len(),
            lists == morsel_ranges(morsels@),
            ranges@ == flattened(lists.take(i as int)),
        decreases morsels@.len() - i,
    {
        assert(lists.take(i + 1).drop_last() =~= lists.take(i as int));
        assert(lists.take(i + 1).last() == morsels@[i as int].selected_ranges@);
        let ghost before = ranges@;
        let mut j: usize = 0;
        while j < morsels[i as usize].selected_ranges.len()
            invariant
                i < morsels@.len(),
                j <= morsels@[i as int].selected_ranges@.len(),
                ranges@ == before + morsels@[i as int].selected_ranges@.take(j as int),
            decreases morsels@[i as int].selected_ranges@.len() - j,
        {
            let start: u64 = morsels[i].selected_ranges[j].start;
            let end: u64 = morsels[i].selected_ranges[j].end;
            ranges.push(start..end);
            j = j + 1;
            assert(ranges@ =~= before + morsels@[i as int].selected_ranges@.take(j as int));
        }
        assert(morsels@[i as int].selected_ranges@.take(j as int)
            =~= morsels@[i as int].selected_ranges@);
        i = i + 1;
    }
    assert(lists.take(i as int) =~= lists);
    ranges
}

/// The ranges of every morsel stand together, in their order, where those of the morsels before it
/// end.
pub proof fn law_flattened_in_order(morsels: Seq<Seq<Range<u64>>>, m: int)
    requires
        0 <= m < morsels.len(),
    ensures
        ({
            let start = flattened(morsels.take(m)).len() as int;
            let end = start + morsels[m].len();
            &&& flattened(morsels.take(m + 1)).len() == end
            &&& end <= flattened(morsels).len()
            &&& flattened(morsels).subrange(start, end) == morsels[m]
        }),
    decreases morsels.len(),
{
    let front = morsels.drop_last();
    let whole = flattened(morsels);
    let start = flattened(morsels.take(m)).len() as int;
    let end = start + morsels[m].len();
    assert(morsels.take(m + 1).drop_last() =~= morsels.take(m));
    if m < front.len() {
        assert(front.take(m) =~= morsels.take(m));
        assert(front.take(m + 1) =~= morsels.take(m + 1));
        law_flattened_in_order(front, m);
        assert(whole.subrange(start, end) =~= flattened(front).subrange(start, end));
    } else {
        assert(morsels.take(m) =~= front);
        assert(whole.subrange(start, end) =~= morsels[m]);
    }
}

/// A pruned bundle looks down exactly if its two morsels would still be bundled.
pub proof fn law_down_while_bundled(pruned: Seq<Seq<Range<u64>>>)
    ensures
        frontier_down(pruned) == 1 || frontier_down(pruned) == 0,
        frontier_down(pruned) == 1 <==> pruned.len() == 2 && bundles_spec(pruned).len() == 1,
{
    reveal_with_fuel(bundles_spec, 3);
}

/// The scan of a pruned bundle: its ranges and configuration, or `None` when no row is left. A
/// pair that is still contiguous gets a down lookahead of its own.
pub fn bundle_scan(
    io_policy: ExecutorIoPolicy,
    base: ScanConfig,
    pruned: Vec<SelectedMorsel>,
    prefetch: bool,
) -> (scan: Option<(Vec<Range<u64>>, ScanConfig)>)
    ensures
        ({
            let lists = morsel_ranges(pruned@);
            let config = io_policy.configured(base, ExecutorDriver::External, prefetch);
            match scan {
                None => flattened(lists).len() == 0,
                Some((ranges, chosen)) => {
                    &&& ranges@ == flattened(lists)
                    &&& ranges@.len() > 0
                    &&& chosen == if frontier_down(lists) == 0 {
                        config
                    } else {
                        ScanConfig {
                            frontier_lookahead_per_thread: Some(frontier_down(lists)),
                            ..config
                        }
                    }
                },
            }
        }),
{
    let down: usize = bundled_frontier_down(pruned.as_slice());
    let ranges = flatten_ranges(pruned);
    if ranges.len() == 0 {
        return None;
    }
    let mut config = io_policy.configure(base, ExecutorDriver::External, prefetch);
    if down != 0 {
        config.frontier_lookahead_per_thread = Some(down);
    }
    Some((ranges, config))
}

} // verus!
