use std::ops::Range;

use vortex_verus::executor::bundle::build_external_frontier_bundle_outputs;
use vortex_verus::executor::bundle::bundle_adjacent_contiguous_morsels;
use vortex_verus::executor::bundle::bundle_scan;
use vortex_verus::executor::bundle::bundled_frontier_down;
use vortex_verus::executor::bundle::external_frontier_bundle_parallelism;
use vortex_verus::executor::bundle::external_frontier_bundle_plan;
use vortex_verus::executor::bundle::BundleOutputs;
use vortex_verus::executor::bundle::ExternalFrontierBundlePlan;
use vortex_verus::executor::bundle::EXTERNAL_FRONTIER_BUNDLE_MORSELS;
use vortex_verus::executor::output::assign_targets;
use vortex_verus::executor::output::cap_rows;
use vortex_verus::executor::output::combine_batches;
use vortex_verus::executor::output::external_scan;
use vortex_verus::executor::output::scan_threads;
use vortex_verus::executor::output::Combined;
use vortex_verus::executor::output::DeliveryGuard;
use vortex_verus::executor::output::OutputGroup;
use vortex_verus::executor::policy::ExecutorDriver;
use vortex_verus::executor::policy::ExecutorIoPolicy;
use vortex_verus::executor::policy::ExecutorIoSettings;
use vortex_verus::executor::policy::ScanConfig;
use vortex_verus::executor::policy::Speculation;
use vortex_verus::executor::policy::FRONTIER_LOOKAHEAD_PER_THREAD;
use vortex_verus::executor::policy::FRONTIER_REFILL_RANGES;
use vortex_verus::executor::policy::FRONTIER_SPECULATIVE_PREDICATES_RIGHT;
use vortex_verus::executor::policy::SHARED_LOOKAHEAD_MORSELS;
use vortex_verus::executor::ranges::clip_morsels;
use vortex_verus::executor::ranges::coalesce_ranges;
use vortex_verus::executor::ranges::count_intersecting_morsels;
use vortex_verus::executor::ranges::count_nonempty_morsels;
use vortex_verus::executor::ranges::count_ranges;
use vortex_verus::executor::ranges::mask_ranges;
use vortex_verus::executor::ranges::prune_morsel;
use vortex_verus::executor::ranges::pruning_batches;
use vortex_verus::executor::ranges::selected_morsels;
use vortex_verus::executor::ranges::RowMask;
use vortex_verus::executor::ranges::SelectedMorsel;
use vortex_verus::executor::scan::row_caps;
use vortex_verus::executor::scan::Coordination;
use vortex_verus::executor::scan::PushMorselScanExecutor;
use vortex_verus::executor::scan::ScanError;
use vortex_verus::executor::scan::ScanFailure;
use vortex_verus::executor::scan::ScanOutputs;
use vortex_verus::executor::scan::ScanRequest;

fn selected(selected_ranges: Vec<Range<u64>>) -> SelectedMorsel {
    SelectedMorsel { selected_ranges }
}

fn base() -> ScanConfig {
    ScanConfig {
        lookahead_morsels: 16,
        eager_lookahead: true,
        frontier_lookahead_per_thread: None,
        speculation: Speculation::Nothing,
        frontier_refill_ranges: None,
    }
}

fn selected_one(start: u64, end: u64) -> SelectedMorsel {
    selected(vec![start..end])
}

#[test]
fn projection_prefetch_requires_external_frontier_opt_in() {
    for policy in [ExecutorIoPolicy::EagerLookahead, ExecutorIoPolicy::Frontier] {
        for driver in [ExecutorDriver::Internal, ExecutorDriver::External] {
            assert!(!policy.prefetch_projection(driver, false));
            assert_eq!(
                policy.prefetch_projection(driver, true),
                policy == ExecutorIoPolicy::Frontier && driver == ExecutorDriver::External
            );
        }
    }
}

#[test]
fn production_frontier_policy_is_explicit_and_predicate_only() {
    assert_eq!(
        ExecutorIoPolicy::from_frontier_io(false),
        ExecutorIoPolicy::EagerLookahead
    );
    assert_eq!(
        ExecutorIoPolicy::from_frontier_io(true),
        ExecutorIoPolicy::Frontier
    );
    assert_eq!(
        ExecutorIoPolicy::Frontier.settings(ExecutorDriver::Internal),
        ExecutorIoSettings {
            eager_lookahead: false,
            lookahead_morsels: 0,
            frontier_lookahead_per_thread: Some(FRONTIER_LOOKAHEAD_PER_THREAD),
            speculative_predicate_frontiers: FRONTIER_SPECULATIVE_PREDICATES_RIGHT,
            frontier_refill_ranges: FRONTIER_REFILL_RANGES,
        }
    );
    assert_eq!(
        (
            FRONTIER_LOOKAHEAD_PER_THREAD,
            FRONTIER_SPECULATIVE_PREDICATES_RIGHT,
            FRONTIER_REFILL_RANGES,
        ),
        (0, 2, 32)
    );
    assert_eq!(
        ExecutorIoPolicy::Frontier.settings(ExecutorDriver::External),
        ExecutorIoPolicy::Frontier.settings(ExecutorDriver::Internal)
    );
}

#[test]
fn external_eager_policy_preserves_legacy_zero_morsel_window() {
    assert_eq!(
        ExecutorIoPolicy::EagerLookahead.settings(ExecutorDriver::External),
        ExecutorIoSettings {
            eager_lookahead: true,
            lookahead_morsels: 0,
            frontier_lookahead_per_thread: None,
            speculative_predicate_frontiers: 0,
            frontier_refill_ranges: FRONTIER_REFILL_RANGES,
        }
    );
    assert_eq!(
        ExecutorIoPolicy::EagerLookahead.settings(ExecutorDriver::Internal),
        ExecutorIoSettings {
            eager_lookahead: true,
            lookahead_morsels: SHARED_LOOKAHEAD_MORSELS,
            frontier_lookahead_per_thread: None,
            speculative_predicate_frontiers: 0,
            frontier_refill_ranges: FRONTIER_REFILL_RANGES,
        }
    );
}

#[test]
fn external_frontier_pairing_requires_eight_full_worker_waves() {
    assert_eq!(
        external_frontier_bundle_plan(222, 14, 8),
        ExternalFrontierBundlePlan {
            bundle_size: 1,
            candidate_bundle_count: 111,
            threshold: 112,
        }
    );
    assert_eq!(
        external_frontier_bundle_plan(223, 14, 8),
        ExternalFrontierBundlePlan {
            bundle_size: EXTERNAL_FRONTIER_BUNDLE_MORSELS,
            candidate_bundle_count: 112,
            threshold: 112,
        }
    );
    assert_eq!(
        external_frontier_bundle_plan(224, 14, 8),
        ExternalFrontierBundlePlan {
            bundle_size: EXTERNAL_FRONTIER_BUNDLE_MORSELS,
            candidate_bundle_count: 112,
            threshold: 112,
        }
    );
    assert_eq!(external_frontier_bundle_plan(223, 15, 8).bundle_size, 1);
    assert_eq!(
        external_frontier_bundle_plan(15, 1, 8).bundle_size,
        EXTERNAL_FRONTIER_BUNDLE_MORSELS
    );
    assert_eq!(external_frontier_bundle_plan(15, 2, 8).bundle_size, 1);
}

#[test]
fn external_frontier_pairing_handles_one_worker_and_overflow() {
    assert_eq!(external_frontier_bundle_plan(1, 1, 1).bundle_size, 1);
    assert_eq!(
        external_frontier_bundle_plan(2, 1, 1).bundle_size,
        EXTERNAL_FRONTIER_BUNDLE_MORSELS
    );
    assert_eq!(
        external_frontier_bundle_plan(usize::MAX, usize::MAX, 2),
        ExternalFrontierBundlePlan {
            bundle_size: 1,
            candidate_bundle_count: usize::MAX.div_ceil(2),
            threshold: usize::MAX,
        }
    );
}

#[test]
fn external_frontier_pairing_is_backend_filter_and_limit_isolated() {
    assert_eq!(
        external_frontier_bundle_parallelism(None, ExecutorIoPolicy::Frontier, true, false),
        None
    );
    assert_eq!(
        external_frontier_bundle_parallelism(
            Some(14),
            ExecutorIoPolicy::EagerLookahead,
            true,
            false
        ),
        None
    );
    assert_eq!(
        external_frontier_bundle_parallelism(Some(14), ExecutorIoPolicy::Frontier, false, false),
        None
    );
    assert_eq!(
        external_frontier_bundle_parallelism(Some(14), ExecutorIoPolicy::Frontier, true, true),
        None
    );
    assert_eq!(
        external_frontier_bundle_parallelism(Some(14), ExecutorIoPolicy::Frontier, true, false),
        Some(14)
    );
}

#[test]
fn adjacent_pairs_are_stable_disjoint_and_keep_an_odd_tail() {
    let morsels = (0..5)
        .map(|index| selected_one(index * 10, (index + 1) * 10))
        .collect::<Vec<_>>();
    let bundles = bundle_adjacent_contiguous_morsels(morsels);
    let coverages = bundles
        .iter()
        .map(|bundle| bundle.coverage.clone())
        .collect::<Vec<_>>();
    assert_eq!(coverages, [0..20, 20..40, 40..50]);
    assert!(coverages
        .iter()
        .zip(coverages.iter().skip(1))
        .all(|(left, right)| left.end <= right.start));
    assert!(bundles[0].second.is_some());
    assert!(bundles[1].second.is_some());
    assert!(bundles[2].second.is_none());
}

#[test]
fn selection_gap_breaks_an_external_frontier_pair() {
    let bundles = bundle_adjacent_contiguous_morsels(vec![
        selected_one(0, 10),
        selected_one(20, 30),
        selected_one(30, 40),
    ]);
    assert_eq!(
        bundles
            .iter()
            .map(|bundle| bundle.coverage.clone())
            .collect::<Vec<_>>(),
        [0..10, 20..40]
    );
}

#[test]
fn down_one_requires_one_surviving_range_from_each_paired_morsel() {
    assert_eq!(
        bundled_frontier_down(&[selected_one(0, 10), selected_one(10, 20)]),
        1
    );
    assert_eq!(
        bundled_frontier_down(&[selected_one(0, 10), selected(vec![])]),
        0
    );
    assert_eq!(
        bundled_frontier_down(&[selected(vec![0..4, 6..10]), selected_one(10, 20)]),
        0
    );
    assert_eq!(
        bundled_frontier_down(&[selected_one(0, 9), selected_one(10, 20)]),
        0
    );
    assert_eq!(
        bundled_frontier_down(&[selected_one(0, 10), selected_one(11, 20)]),
        0
    );
    assert_eq!(bundled_frontier_down(&[selected_one(0, 10)]), 0);
}

#[test]
fn noncontiguous_preprune_selection_never_pairs() {
    let bundles = bundle_adjacent_contiguous_morsels(vec![
        selected(vec![0..4, 6..10]),
        selected_one(10, 20),
    ]);
    assert_eq!(bundles.len(), 2);
    assert!(bundles.iter().all(|bundle| bundle.second.is_none()));
}

#[test]
fn coalesces_only_small_gaps() {
    assert_eq!(
        coalesce_ranges(vec![0..10, 18..20, 30..40, 40..50], 8),
        vec![0..20, 30..50]
    );
}

#[test]
fn coalesces_ranges_that_overlap() {
    assert_eq!(
        coalesce_ranges(vec![0..10, 2..4, 5..12, 30..31, 30..40], 8),
        vec![0..12, 30..40]
    );
}

#[test]
fn coalesces_empty_ranges() {
    assert!(coalesce_ranges(Vec::new(), 8).is_empty());
}

#[test]
fn morsels_are_clipped_to_the_row_range() {
    let morsels = vec![0..10, 10..20, 20..30];
    assert_eq!(clip_morsels(&morsels, &(5..25)), vec![5..10, 10..20, 20..25]);
    assert_eq!(clip_morsels(&morsels, &(12..13)), vec![12..13]);
    assert_eq!(count_intersecting_morsels(&morsels, &(5..20)), 2);
    assert_eq!(count_intersecting_morsels(&morsels, &(30..40)), 0);
}

#[test]
fn masks_pick_rows_and_drop_morsels_without_any() {
    let mask = RowMask::Slices(vec![(1, 3), (4, 5)]);
    assert_eq!(mask_ranges(&(10..20), &mask), vec![11..13, 14..15]);
    assert_eq!(mask_ranges(&(10..20), &RowMask::All), vec![10..20]);
    assert!(mask_ranges(&(10..20), &RowMask::Nothing).is_empty());
    let kept = selected_morsels(
        &vec![0..10, 10..20, 20..30],
        &(0..30),
        &vec![RowMask::All, RowMask::Nothing, mask],
    );
    assert_eq!(kept.len(), 2);
    assert_eq!(kept[0].selected_ranges, vec![0..10]);
    assert_eq!(kept[1].selected_ranges, vec![21..23, 24..25]);
    assert_eq!(count_nonempty_morsels(&kept), 2);
    assert_eq!(count_ranges(&kept), 3);
}

#[test]
fn pruning_keeps_masked_rows_and_bridges_small_gaps() {
    let far = 8192 + 20;
    let left = prune_morsel(
        selected(vec![100..200_000]),
        Some(vec![vec![
            RowMask::Slices(vec![(0, 5), (10, 20), (far + 1, far + 2)]),
            RowMask::All,
        ]]),
    );
    assert_eq!(
        left.selected_ranges,
        vec![100..120, 100 + far as u64 + 1..100 + far as u64 + 2]
    );
    let untouched = prune_morsel(selected_one(3, 9), None);
    assert_eq!(untouched.selected_ranges, vec![3..9]);
}

#[test]
fn conjuncts_keep_the_rows_that_all_of_them_keep() {
    let left = prune_morsel(
        selected(vec![0..100_000, 200_000..300_000]),
        Some(vec![
            vec![
                RowMask::Slices(vec![(0, 10), (20_000, 30_000), (50_000, 60_000)]),
                RowMask::Slices(vec![(5, 25_000), (55_000, 56_000)]),
            ],
            vec![RowMask::All, RowMask::Nothing],
        ]),
    );
    assert_eq!(
        left.selected_ranges,
        vec![5..10, 20_000..25_000, 55_000..56_000]
    );
}

#[test]
fn pruning_drops_what_is_ruled_out() {
    let left = prune_morsel(
        selected(vec![0..50_000, 50_000..60_000]),
        Some(vec![
            vec![RowMask::Nothing],
            vec![RowMask::Slices(vec![(0, 1), (8193, 8194)])],
        ]),
    );
    assert_eq!(left.selected_ranges, vec![50_000..58_194]);
    let left = prune_morsel(
        selected(vec![0..50_000]),
        Some(vec![vec![RowMask::Slices(vec![(0, 1), (8194, 8195)])]]),
    );
    assert_eq!(left.selected_ranges, vec![0..1, 8194..8195]);
    let left = prune_morsel(
        selected(vec![0..50_000]),
        Some(vec![vec![
            RowMask::Slices(vec![(0, 10)]),
            RowMask::Slices(vec![(10, 20)]),
        ]]),
    );
    assert!(left.selected_ranges.is_empty());
}

#[test]
fn pruning_runs_in_batches_of_sixteen() {
    assert!(pruning_batches(0).is_empty());
    assert_eq!(pruning_batches(16), vec![0..16]);
    assert_eq!(pruning_batches(33), vec![0..16, 16..32, 32..33]);
}

#[test]
fn batches_are_combined_and_capped() {
    assert!(matches!(combine_batches::<u8>(vec![]), Combined::Nothing));
    assert!(matches!(combine_batches(vec![7u8]), Combined::One(7)));
    match combine_batches(vec![7u8, 8]) {
        Combined::Chunks(chunks) => assert_eq!(chunks, vec![7, 8]),
        _ => panic!("two batches make chunks"),
    }
    let batches = vec![((), 4), ((), 6)];
    assert_eq!(cap_rows(&batches, Some(4)), Some(4));
    assert_eq!(cap_rows(&batches, Some(10)), None);
    assert_eq!(cap_rows(&batches, None), None);
    let huge = vec![((), usize::MAX), ((), 1)];
    assert_eq!(cap_rows(&huge, Some(usize::MAX)), Some(usize::MAX));
}

#[test]
fn an_output_is_delivered_once_in_range_order() {
    let mut group: OutputGroup<&str> = OutputGroup::new(3, None);
    assert!(group.complete(2, Some(("c", 3))).is_none());
    assert!(group.complete(0, Some(("a", 2))).is_none());
    match group.complete(1, None) {
        Some((Combined::Chunks(chunks), None)) => assert_eq!(chunks, vec!["a", "c"]),
        _ => panic!("the last range completes the output"),
    }
    assert!(!group.fail());
    let mut failing: OutputGroup<&str> = OutputGroup::new(2, None);
    assert!(failing.complete(1, Some(("b", 1))).is_none());
    assert!(failing.fail());
    assert!(!failing.fail());
}

#[test]
fn an_output_is_cut_to_its_cap() {
    let mut single: OutputGroup<&str> = OutputGroup::new(1, Some(1));
    assert!(matches!(
        single.complete(0, Some(("a", 3))),
        Some((Combined::One("a"), Some(1)))
    ));
    let mut exact: OutputGroup<&str> = OutputGroup::new(2, Some(5));
    assert!(exact.complete(1, Some(("b", 3))).is_none());
    assert!(matches!(
        exact.complete(0, Some(("a", 2))),
        Some((Combined::Chunks(_), None))
    ));
    let scan = external_scan(
        ExecutorIoPolicy::default(),
        base(),
        selected(vec![0..5, 7..9]),
        Some(6),
        false,
    )
    .expect("ranges are left");
    assert_eq!(scan.ranges, vec![0..5, 7..9]);
    match scan.finish(vec![("a", 5), ("b", 2)]) {
        (Combined::Chunks(chunks), cut) => {
            assert_eq!(chunks, vec!["a", "b"]);
            assert_eq!(cut, Some(6));
        }
        _ => panic!("two batches make chunks"),
    }
    assert!(matches!(scan.finish::<&str>(vec![]), (Combined::Nothing, None)));
    assert!(external_scan(
        ExecutorIoPolicy::default(),
        base(),
        selected(vec![]),
        None,
        false,
    )
    .is_none());
}

#[test]
fn a_limited_scan_delivers_the_first_rows() {
    let request = ScanRequest {
        natural_morsels: vec![0..4, 4..8, 8..12],
        row_count: 12,
        row_range: None,
        masks: vec![
            RowMask::Slices(vec![(0, 1), (2, 4)]),
            RowMask::All,
            RowMask::All,
        ],
        limit: Some(5),
        has_filter: false,
    };
    match PushMorselScanExecutor::new().build(request) {
        ScanOutputs::Internal { morsels, row_caps } => {
            assert_eq!(row_caps, Some(vec![3, 2]));
            let mut delivered = Vec::new();
            for (morsel, cap) in morsels.iter().zip([3, 2]) {
                let mut group = OutputGroup::new(morsel.selected_ranges.len(), Some(cap));
                for (index, range) in morsel.selected_ranges.iter().enumerate() {
                    let rows: Vec<u64> = range.clone().collect();
                    let len = rows.len();
                    if let Some((output, cut)) = group.complete(index, Some((rows, len))) {
                        let mut rows = match output {
                            Combined::Nothing => vec![],
                            Combined::One(rows) => rows,
                            Combined::Chunks(chunks) => chunks.concat(),
                        };
                        rows.truncate(cut.unwrap_or(rows.len()));
                        delivered.extend(rows);
                    }
                }
            }
            assert_eq!(delivered, vec![0, 2, 3, 4, 5]);
        }
        _ => panic!("the executor's own threads drive the scan"),
    }
}

#[test]
fn the_last_undelivered_output_cancels_the_scan() {
    let mut guard = DeliveryGuard { undelivered: 2 };
    assert!(!guard.release());
    assert!(guard.release());
}

#[test]
fn targets_follow_the_ranges_of_their_morsels() {
    let assigned = assign_targets(
        vec![
            selected(vec![0..5, 7..9]),
            selected(vec![]),
            selected_one(20, 30),
        ],
        Some(vec![6, 0, 3]),
    );
    assert_eq!(assigned.ranges, vec![0..5, 7..9, 20..30]);
    assert_eq!(assigned.empty, vec![1]);
    let targets: Vec<(usize, usize)> = assigned
        .targets
        .iter()
        .map(|target| (target.group, target.local_index))
        .collect();
    assert_eq!(targets, vec![(0, 0), (0, 1), (1, 0)]);
    assert_eq!(assigned.groups[0].row_cap, Some(6));
    assert_eq!(assigned.groups[1].morsel, 2);
    assert_eq!(assigned.groups[1].row_cap, Some(3));
}

#[test]
fn threads_are_bounded_by_ranges() {
    assert_eq!(scan_threads(3, 8), 3);
    assert_eq!(scan_threads(30, 8), 8);
    assert_eq!(scan_threads(0, 8), 0);
}

#[test]
fn caps_share_out_the_limit() {
    let morsels = vec![selected_one(0, 10), selected_one(10, 20), selected_one(20, 30)];
    assert_eq!(row_caps(&morsels, 15), vec![10, 5]);
    assert_eq!(row_caps(&morsels, 100), vec![10, 10, 10]);
    assert_eq!(row_caps(&morsels, 10), vec![10]);
}

fn request(limit: Option<u64>, has_filter: bool) -> ScanRequest {
    ScanRequest {
        natural_morsels: vec![0..10, 10..20, 20..30, 30..40],
        row_count: 40,
        row_range: Some(5..35),
        masks: vec![RowMask::All, RowMask::All, RowMask::All, RowMask::All],
        limit,
        has_filter,
    }
}

#[test]
fn a_scan_is_narrowed_by_range_selection_and_limit() {
    let executor = PushMorselScanExecutor::new().with_threads(4);
    let plan = match executor.build_with_stats(request(Some(12), false)) {
        Ok(plan) => plan,
        Err(_) => panic!("internal scans collect statistics"),
    };
    let shape = plan.shape.expect("statistics are collected");
    assert_eq!(shape.morsels_in_row_range, 4);
    assert_eq!(shape.morsels_after_selection, 4);
    assert_eq!(shape.ranges_after_selection, 4);
    assert_eq!(shape.morsels_after_limit, 2);
    assert_eq!(shape.ranges_after_limit, 2);
    match plan.outputs {
        ScanOutputs::Internal { morsels, row_caps } => {
            assert_eq!(morsels[0].selected_ranges, vec![5..10]);
            assert_eq!(morsels[1].selected_ranges, vec![10..20]);
            assert_eq!(row_caps, Some(vec![5, 7]));
        }
        _ => panic!("the executor drives its own threads"),
    }
}

#[test]
fn a_limit_of_no_rows_scans_nothing() {
    let executor = PushMorselScanExecutor::new();
    let plan = match executor.build_with_stats(request(Some(0), false)) {
        Ok(plan) => plan,
        Err(_) => panic!("internal scans collect statistics"),
    };
    assert!(matches!(plan.outputs, ScanOutputs::Nothing));
    assert!(plan.completed.is_some());
}

#[test]
fn a_filtered_scan_is_not_capped_before_it_is_read() {
    let executor = PushMorselScanExecutor::new();
    match executor.build(request(Some(12), true)) {
        ScanOutputs::Internal { morsels, row_caps } => {
            assert_eq!(morsels.len(), 4);
            assert!(row_caps.is_none());
        }
        _ => panic!("the executor drives its own threads"),
    }
}

#[test]
fn external_scans_have_no_statistics_and_bundle_when_configured() {
    let executor = PushMorselScanExecutor::new().with_external_threads();
    assert!(matches!(
        executor.build_with_stats(request(None, true)),
        Err(ScanError::ExternalStatistics)
    ));
    let bundling = PushMorselScanExecutor::new()
        .with_external_threads()
        .with_frontier_io(true)
        .with_external_frontier_bundle_parallelism(1)
        .with_external_frontier_bundle_min_waves(1);
    match bundling.build(request(None, true)) {
        ScanOutputs::Bundled { bundles, trace } => {
            assert_eq!(trace.selected_bundle_size, 2);
            assert_eq!(trace.paired_bundles, 2);
            match bundles {
                BundleOutputs::Bundled(bundles) => assert_eq!(bundles.len(), 2),
                BundleOutputs::PerMorsel(_) => panic!("there are enough waves"),
            }
        }
        _ => panic!("bundling is configured"),
    }
}

#[test]
fn too_few_waves_leave_morsels_unbundled() {
    let (outputs, trace) = build_external_frontier_bundle_outputs(
        vec![selected_one(0, 10), selected_one(10, 20)],
        2,
        8,
        5,
    );
    assert!(matches!(outputs, BundleOutputs::PerMorsel(_)));
    assert_eq!(trace.fallback_reason, "min_bundle_waves");
    assert_eq!(trace.bundle_threshold, 16);
    assert_eq!(trace.natural_morsels, 5);
}

#[test]
fn a_bundle_of_two_contiguous_ranges_moves_down_one() {
    let base = base();
    let scan = bundle_scan(
        ExecutorIoPolicy::Frontier,
        base,
        vec![selected_one(0, 10), selected_one(10, 20)],
        false,
    );
    let (ranges, config) = scan.expect("there are rows");
    assert_eq!(ranges, vec![0..10, 10..20]);
    assert_eq!(config.frontier_lookahead_per_thread, Some(1));
    assert!(bundle_scan(
        ExecutorIoPolicy::Frontier,
        base,
        vec![selected(vec![]), selected(vec![])],
        false
    )
    .is_none());
}

#[test]
fn splits_are_cut_at_natural_boundaries() {
    let executor = PushMorselScanExecutor::new().with_target_rows(15);
    let boundaries = executor.full_file_splits(&vec![0, 10, 20, 30, 40]);
    assert_eq!(boundaries.first(), Some(&0));
    assert_eq!(boundaries.last(), Some(&40));
}

fn small_request(row_range: Option<Range<u64>>, limit: Option<u64>, masks: usize) -> ScanRequest {
    ScanRequest {
        natural_morsels: vec![0..4, 4..8, 8..12],
        row_count: 12,
        row_range,
        masks: (0..masks).map(|_| RowMask::All).collect(),
        limit,
        has_filter: false,
    }
}

#[test]
fn executor_returns_completed_empty_scan_stats() {
    let executor = PushMorselScanExecutor::new();
    let plan = match executor.build_with_stats(small_request(Some(0..0), None, 0)) {
        Ok(plan) => plan,
        Err(_) => panic!("internal scans collect statistics"),
    };
    let (morsels, row_caps) = match plan.outputs {
        ScanOutputs::Internal { morsels, row_caps } => (morsels, row_caps),
        _ => panic!("the executor drives its own threads"),
    };
    assert!(morsels.is_empty());
    match executor.coordinate(morsels, row_caps, plan.shape) {
        Coordination::Complete { empty, stats } => {
            assert!(empty.is_empty());
            let stats = stats.expect("statistics are collected");
            assert_eq!(stats.morsels_in_row_range, 0);
            assert_eq!(stats.morsels_after_selection, 0);
            assert_eq!(stats.ranges_after_pruning, 0);
        }
        Coordination::Run { .. } => panic!("nothing is scanned"),
    }
}

#[test]
fn zero_limit_stats_preserve_pre_limit_phase_boundaries() {
    let executor = PushMorselScanExecutor::new().with_target_rows(4);
    let plan = match executor.build_with_stats(small_request(None, Some(0), 3)) {
        Ok(plan) => plan,
        Err(_) => panic!("internal scans collect statistics"),
    };
    assert!(matches!(plan.outputs, ScanOutputs::Nothing));
    let stats = plan.completed.expect("nothing is scanned");
    assert_eq!(stats.morsels_in_row_range, 3);
    assert_eq!(stats.morsels_after_selection, 3);
    assert_eq!(stats.ranges_after_selection, 3);
    assert_eq!(stats.morsels_after_limit, 0);
    assert_eq!(stats.ranges_after_limit, 0);
    assert_eq!(stats.morsels_after_pruning, 0);
    assert_eq!(stats.ranges_after_pruning, 0);
}

#[test]
fn pruned_morsels_are_scanned_or_empty_at_once() {
    let executor = PushMorselScanExecutor::new().with_threads(2);
    let plan = match executor.build_with_stats(small_request(None, None, 3)) {
        Ok(plan) => plan,
        Err(_) => panic!("internal scans collect statistics"),
    };
    let pruned = vec![selected_one(1, 3), selected(vec![]), selected(vec![8..9, 11..12])];
    match executor.coordinate(pruned, None, plan.shape) {
        Coordination::Run {
            assignment,
            threads,
            morsels_after_pruning,
            ranges_after_pruning,
        } => {
            assert_eq!(assignment.ranges, vec![1..3, 8..9, 11..12]);
            assert_eq!(assignment.empty, vec![1]);
            assert_eq!(threads, 2);
            assert_eq!((morsels_after_pruning, ranges_after_pruning), (2, 3));
        }
        Coordination::Complete { .. } => panic!("rows are left"),
    }
    match executor.coordinate(vec![selected(vec![]), selected(vec![])], None, plan.shape) {
        Coordination::Complete { empty, stats } => {
            assert_eq!(empty, vec![0, 1]);
            let stats = stats.expect("statistics are collected");
            assert_eq!(stats.morsels_after_selection, 3);
            assert_eq!(stats.morsels_after_pruning, 0);
        }
        Coordination::Run { .. } => panic!("nothing is left"),
    }
    assert_eq!(
        ScanFailure::Pruning.message(),
        "shared morsel scan pruning failed"
    );
    assert_eq!(ScanFailure::Scan.message(), "shared morsel scan failed");
}
