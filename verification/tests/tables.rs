use vortex_verus::dataset::check_file_arguments;
use vortex_verus::dataset::check_multi_arguments;
use vortex_verus::dataset::projection_of;
use vortex_verus::dataset::sum_rows;
use vortex_verus::dataset::ColumnArgument;
use vortex_verus::dataset::CountPlan;
use vortex_verus::dataset::DatasetError;
use vortex_verus::dataset::DatasetSource;
use vortex_verus::dataset::ReadPlan;
use vortex_verus::expr::BoundExpression;
use vortex_verus::expr::Expression;
use vortex_verus::expr::ScalarFn;
use vortex_verus::file_reader::filesystem_of;
use vortex_verus::file_reader::frontier_bundle_config;
use vortex_verus::file_reader::frontier_bundle_parallelism_for_execution;
use vortex_verus::file_reader::q6_frontier_bundle_config_from_env;
use vortex_verus::file_reader::q6_frontier_bundle_enabled;
use vortex_verus::file_reader::reader_bind;
use vortex_verus::file_reader::reader_get_progress_in_file;
use vortex_verus::file_reader::reader_get_statistics;
use vortex_verus::file_reader::reader_initialize;
use vortex_verus::file_reader::reader_scan;
use vortex_verus::file_reader::reader_scan_aggregate;
use vortex_verus::file_reader::reader_try_initialize_scan;
use vortex_verus::file_reader::resolve_filesystem;
use vortex_verus::file_reader::rows_exported;
use vortex_verus::file_reader::scan_diagnostics_enabled;
use vortex_verus::file_reader::skips;
use vortex_verus::file_reader::split_scanned;
use vortex_verus::file_reader::ConfigError;
use vortex_verus::file_reader::EnvVar;
use vortex_verus::file_reader::FileSystem;
use vortex_verus::file_reader::FrontierBundleConfig;
use vortex_verus::file_reader::GlobalState;
use vortex_verus::file_reader::LocalState;
use vortex_verus::file_reader::OpenFileReader;
use vortex_verus::file_reader::ScanBackend;
use vortex_verus::file_reader::ScanFilter;
use vortex_verus::file_reader::ScanStep;
use vortex_verus::file_reader::SkipAnswer;
use vortex_verus::file_reader::SkipQuestion;
use vortex_verus::file_reader::SplitBuilder;
use vortex_verus::file_reader::DEFAULT_FRONTIER_BUNDLE_MIN_WAVES;
use vortex_verus::files::add_directory_suffix;
use vortex_verus::files::into_globs;
use vortex_verus::files::resolve_glob;
use vortex_verus::files::resolve_url;
use vortex_verus::files::scan_request;
use vortex_verus::files::split_larger;
use vortex_verus::files::truncate;
use vortex_verus::files::truncate_all;
use vortex_verus::files::GlobArgument;
use vortex_verus::files::GlobArgumentError;
use vortex_verus::files::GlobError;
use vortex_verus::files::GlobStore;
use vortex_verus::files::GlobTarget;
use vortex_verus::files::Local;
use vortex_verus::files::MultiScanOptions;
use vortex_verus::table_filter::RowRange;
use vortex_verus::table_filter::Selection;
use vortex_verus::text::parse_usize;

fn is_dir(path: &str) -> bool {
    std::path::Path::new(path).is_dir()
}

#[test]
fn directory_suffix() {
    for (source, expected) in [
        ("/vortex-test/*.vortex", "/vortex-test/*.vortex"),
        ("/vortex-test/part-?.bin", "/vortex-test/part-?.bin"),
        ("/vortex-test/part-[01]", "/vortex-test/part-[01]"),
        ("/vortex-test/", "/vortex-test/*.vortex"),
        ("/vortex-test/table.vortex", "/vortex-test/table.vortex"),
    ] {
        let yes = Local::Yes {
            is_dir: is_dir(source),
        };
        for local in [yes, Local::No] {
            assert_eq!(add_directory_suffix(source, local), expected, "{local:?}");
        }
    }
}

#[test]
fn local_directory_needs_no_trailing_slash() {
    let dir = "/tmp";
    assert_eq!(
        add_directory_suffix(
            dir,
            Local::Yes {
                is_dir: is_dir(dir)
            }
        ),
        format!("{dir}/*.vortex")
    );
    assert_eq!(add_directory_suffix(dir, Local::No), dir);
}

#[test]
fn globs_are_expanded_once() {
    let once = add_directory_suffix("/data/", Local::No);
    assert_eq!(add_directory_suffix(&once, Local::Yes { is_dir: true }), once);
    assert_eq!(add_directory_suffix("", Local::No), "");
    assert_eq!(add_directory_suffix("/", Local::No), "/*.vortex");
}

#[test]
fn urls_resolve_to_where_their_files_lie() {
    match resolve_url("s3://bucket/some/dir/") {
        Ok(GlobTarget::Remote { base, path }) => {
            assert_eq!(base, "s3://bucket");
            assert_eq!(path, "/some/dir/");
        }
        other => panic!("a store holds the files: {other:?}"),
    }
    match resolve_url("file:///data/with%20space") {
        Ok(GlobTarget::LocalPath(path)) => assert_eq!(path, "/data/with space"),
        other => panic!("the files are local: {other:?}"),
    }
    assert!(matches!(
        resolve_url("file://elsewhere/data"),
        Err(GlobError::InvalidFileUrl)
    ));
    assert!(matches!(
        resolve_url("no url at all"),
        Err(GlobError::NotAUrl)
    ));
}

#[test]
fn globs_resolve_with_their_store() {
    let (glob, store) = resolve_glob("dir/", None, true);
    assert_eq!((glob.as_str(), store), ("dir/*.vortex", GlobStore::Given));
    let local = GlobTarget::LocalPath("/data/dir".to_string());
    let (glob, store) = resolve_glob("dir", Some(local), true);
    assert_eq!(
        (glob.as_str(), store),
        ("/data/dir/*.vortex", GlobStore::LocalFiles)
    );
    let remote = GlobTarget::Remote {
        base: "s3://bucket".to_string(),
        path: "/dir".to_string(),
    };
    let (glob, store) = resolve_glob("s3://bucket/dir", Some(remote), true);
    assert_eq!((glob.as_str(), store), ("/dir", GlobStore::OfUrl));
}

#[test]
fn arguments_name_at_least_one_path() {
    assert_eq!(
        into_globs(GlobArgument::Single("a".to_string())),
        Ok(vec!["a".to_string()])
    );
    assert_eq!(
        into_globs(GlobArgument::List(vec!["a".to_string(), "b".to_string()])),
        Ok(vec!["a".to_string(), "b".to_string()])
    );
    assert_eq!(
        into_globs(GlobArgument::List(vec![])),
        Err(GlobArgumentError::Empty)
    );
    assert_eq!(
        into_globs(GlobArgument::Other),
        Err(GlobArgumentError::NotText)
    );
    assert_eq!(
        GlobArgumentError::Empty.message(),
        "paths must contain at least one directory, glob or file path"
    );
}

#[test]
fn options_become_requests() {
    let options = MultiScanOptions::default();
    assert!(options.ordered);
    let (request, shape) = scan_request(MultiScanOptions {
        partition: Some(3),
        limit: Some(10),
        batch_size: Some(4),
        ..options
    });
    assert_eq!(
        request.partition_range,
        Some(RowRange { start: 3, end: 4 })
    );
    assert_eq!((shape.limit, shape.batch_size), (Some(10), Some(4)));
    assert_eq!(request.limit, Some(10));
}

#[test]
fn chunks_are_split_and_cut_at_the_limit() {
    let pairs = |len: usize, size: usize| -> Vec<(usize, usize)> {
        split_larger(len, size)
            .iter()
            .map(|slice| (slice.start, slice.end))
            .collect()
    };
    assert_eq!(pairs(10, 4), vec![(0, 4), (4, 8), (8, 10)]);
    assert_eq!(pairs(8, 4), vec![(0, 4), (4, 8)]);
    assert_eq!(pairs(3, 0), vec![(0, 1), (1, 2), (2, 3)]);
    assert_eq!(pairs(3, usize::MAX), vec![(0, 3)]);
    assert!(pairs(0, 4).is_empty());
    let chunks = |lens: &[usize]| lens.iter().map(|len| Ok(*len)).collect::<Vec<_>>();
    assert_eq!(truncate_all(&chunks(&[4, 4, 4]), Some(6)), chunks(&[4, 2]));
    assert_eq!(truncate_all(&chunks(&[4, 4, 4]), Some(8)), chunks(&[4, 4]));
    assert_eq!(truncate_all(&chunks(&[4, 4]), None), chunks(&[4, 4]));
    assert_eq!(truncate_all(&chunks(&[4, 4]), Some(u64::MAX)), chunks(&[4, 4]));
    assert!(truncate_all(&chunks(&[4, 4]), Some(0)).is_empty());
    assert_eq!(
        truncate_all(&vec![Ok(4), Err(7), Ok(4), Err(8), Ok(1)], Some(6)),
        vec![Ok(4), Err(7), Ok(2)]
    );
    assert!(truncate_all(&vec![Err(7), Ok(4)], Some(0)).is_empty());
    let mut remaining = 3;
    assert_eq!(truncate(&mut remaining, Err(9)), Some(Err(9)));
    assert_eq!(remaining, 3);
    assert_eq!(truncate(&mut remaining, Ok(5)), Some(Ok(3)));
    assert_eq!(truncate(&mut remaining, Err(9)), None);
}

fn file() -> DatasetSource {
    DatasetSource::File {
        row_count: 100,
        splits: vec![RowRange { start: 0, end: 60 }, RowRange { start: 60, end: 100 }],
    }
}

fn multi(exact_rows: Option<u64>) -> DatasetSource {
    DatasetSource::Multi {
        children: 3,
        exact_rows,
    }
}

fn filter() -> Option<Expression> {
    Some(Expression::unary(ScalarFn::IsNull, Expression::Root))
}

#[test]
fn arguments_are_checked_against_the_source() {
    assert_eq!(check_file_arguments(None), Ok(()));
    assert_eq!(
        check_file_arguments(Some(0)),
        Err(DatasetError::PartitionOfFile)
    );
    assert_eq!(check_multi_arguments(false, None), Ok(()));
    assert_eq!(
        check_multi_arguments(true, Some((0, 1))),
        Err(DatasetError::IndicesOfMany)
    );
    assert_eq!(
        check_multi_arguments(false, Some((0, 1))),
        Err(DatasetError::RowRangeOfMany)
    );
    assert_eq!(
        DatasetError::PartitionOfFile.message(),
        "partition is only supported for multi-file datasets"
    );
}

#[test]
fn known_row_counts_need_no_scan() {
    assert!(matches!(
        file().count_rows(None, None, None, None),
        Ok(CountPlan::Known(100))
    ));
    assert!(matches!(
        file().count_rows(None, None, Some((10, 25)), None),
        Ok(CountPlan::Known(15))
    ));
    assert!(matches!(
        file().count_rows(None, None, None, Some(1)),
        Err(DatasetError::PartitionOfFile)
    ));
    assert!(matches!(
        multi(Some(7)).count_rows(None, None, None, None),
        Ok(CountPlan::Known(7))
    ));
}

#[test]
fn other_row_counts_are_scanned() {
    match file().count_rows(filter(), Some(8), Some((10, 25)), None) {
        Ok(CountPlan::Scan(ReadPlan::File(scan))) => {
            assert_eq!(scan.split_by, Some(8));
            assert_eq!(scan.row_range, Some(RowRange { start: 10, end: 25 }));
            assert!(scan.filter.is_some());
        }
        _ => panic!("a filter needs a scan"),
    }
    match multi(None).count_rows(None, None, None, Some(2)) {
        Ok(CountPlan::Scan(ReadPlan::Multi(options))) => {
            assert!(!options.ordered);
            assert_eq!(options.partition, Some(2));
        }
        _ => panic!("the count is not known"),
    }
    assert!(matches!(
        multi(Some(7)).count_rows(None, None, Some((0, 1)), None),
        Err(DatasetError::RowRangeOfMany)
    ));
    assert_eq!(sum_rows(&vec![3, 4, 5]), 12);
}

#[test]
fn datasets_are_read_by_file_or_by_partition() {
    match file().to_array(Expression::Root, None, Some(vec![1, 5, 9]), None, None) {
        Ok(ReadPlan::File(scan)) => assert_eq!(scan.indices, Some(vec![1, 5, 9])),
        _ => panic!("a file is scanned"),
    }
    assert!(matches!(
        file().to_array(Expression::Root, None, Some(vec![5, 5]), None, None),
        Err(DatasetError::UnsortedIndices)
    ));
    assert!(matches!(
        multi(None).to_array(Expression::Root, None, Some(vec![1]), None, None),
        Err(DatasetError::IndicesOfMany)
    ));
    match multi(None).to_record_batch_reader(Expression::Root, filter(), Some(64), None, Some(1)) {
        Ok(ReadPlan::Multi(options)) => {
            assert_eq!(options.batch_size, Some(64));
            assert_eq!(options.partition, Some(1));
            assert!(options.ordered);
        }
        _ => panic!("many files are scanned"),
    }
    assert!(matches!(
        file().to_record_batch_reader(Expression::Root, None, None, None, Some(0)),
        Err(DatasetError::PartitionOfFile)
    ));
}

#[test]
fn splits_and_partitions() {
    assert_eq!(file().splits(), Ok(vec![(0, 60), (60, 100)]));
    assert_eq!(multi(None).splits(), Err(DatasetError::SplitsOfMany));
    assert_eq!(file().partition_count(), None);
    assert_eq!(multi(None).partition_count(), Some(3));
}

#[test]
fn projections_name_columns() {
    let all = projection_of(None).expect("all columns");
    assert!(all.same(&Expression::Root));
    let columns = vec![
        ColumnArgument::Name("a".to_string()),
        ColumnArgument::Name("b".to_string()),
    ];
    let some = projection_of(Some(&columns)).expect("both are named");
    assert!(some.same(&Expression::unary(
        ScalarFn::Select(vec!["a".to_string(), "b".to_string()]),
        Expression::Root
    )));
    assert!(matches!(
        projection_of(Some(&vec![ColumnArgument::Other])),
        Err(DatasetError::ColumnNotText)
    ));
}

#[test]
fn q6_frontier_bundle_controls_default_off_and_preserve_push() {
    assert_eq!(
        q6_frontier_bundle_enabled(ScanBackend::PushFrontier, None),
        Ok(false)
    );
    assert_eq!(
        q6_frontier_bundle_enabled(ScanBackend::Push, Some("2")),
        Ok(false)
    );
}

#[test]
fn q6_frontier_bundle_requires_only_the_fixed_size() {
    assert_eq!(
        q6_frontier_bundle_enabled(ScanBackend::PushFrontier, Some("2")),
        Ok(true)
    );
    assert!(q6_frontier_bundle_enabled(ScanBackend::PushFrontier, Some("3")).is_err());
}

#[test]
fn frontier_bundle_min_waves_is_strict_and_defaults_to_eight() {
    assert_eq!(frontier_bundle_config(false, Some("invalid")), Ok(None));
    assert!(frontier_bundle_config(true, Some("invalid")).is_err());
    assert!(frontier_bundle_config(true, Some("0")).is_err());
    assert_eq!(
        frontier_bundle_config(true, None),
        Ok(Some(FrontierBundleConfig {
            min_waves: DEFAULT_FRONTIER_BUNDLE_MIN_WAVES,
        }))
    );
    assert_eq!(
        frontier_bundle_config(true, Some("1")),
        Ok(Some(FrontierBundleConfig { min_waves: 1 }))
    );
    assert_eq!(
        frontier_bundle_config(true, Some("8")),
        Ok(Some(FrontierBundleConfig { min_waves: 8 }))
    );
    assert_eq!(DEFAULT_FRONTIER_BUNDLE_MIN_WAVES, 8);
}

#[test]
fn file_initialization_uses_each_execution_thread_snapshot() {
    let config = Some(FrontierBundleConfig { min_waves: 8 });
    assert_eq!(frontier_bundle_parallelism_for_execution(config, 1), Some(1));
    assert_eq!(
        frontier_bundle_parallelism_for_execution(config, 14),
        Some(14)
    );
    assert_eq!(frontier_bundle_parallelism_for_execution(config, 2), Some(2));
    assert_eq!(frontier_bundle_parallelism_for_execution(None, 14), None);
}

#[test]
fn bundling_is_read_from_the_environment_in_order() {
    let present = |value: &str| EnvVar::Present(value.to_string());
    let frontier = ScanBackend::PushFrontier;
    assert_eq!(
        q6_frontier_bundle_config_from_env(ScanBackend::V1, &EnvVar::Invalid, &EnvVar::Invalid),
        Ok(None)
    );
    assert_eq!(
        q6_frontier_bundle_config_from_env(frontier, &EnvVar::Invalid, &EnvVar::Missing),
        Err(ConfigError::BundleSizeVariable)
    );
    assert_eq!(
        q6_frontier_bundle_config_from_env(frontier, &EnvVar::Missing, &EnvVar::Invalid),
        Ok(None)
    );
    assert_eq!(
        q6_frontier_bundle_config_from_env(frontier, &present("4"), &EnvVar::Missing),
        Err(ConfigError::BundleSize)
    );
    assert_eq!(
        q6_frontier_bundle_config_from_env(frontier, &present("2"), &EnvVar::Invalid),
        Err(ConfigError::MinWavesVariable)
    );
    assert_eq!(
        q6_frontier_bundle_config_from_env(frontier, &present("2"), &present("+12")),
        Ok(Some(FrontierBundleConfig { min_waves: 12 }))
    );
    assert_eq!(
        q6_frontier_bundle_config_from_env(frontier, &present("2"), &present("-1")),
        Err(ConfigError::MinWaves)
    );
}

#[test]
fn words_are_parsed_as_the_standard_library_does() {
    for text in [
        "", "+", "-", "0", "007", "+5", "-5", "5 ", " 5", "1_000", "18446744073709551615",
        "18446744073709551616", "99999999999999999999999", "++1", "\u{664}",
    ] {
        assert_eq!(parse_usize(text), text.parse::<usize>().ok(), "{text:?}");
    }
}

#[test]
fn diagnostics_are_on_unless_set_to_zero() {
    assert!(!scan_diagnostics_enabled(None));
    assert!(!scan_diagnostics_enabled(Some("0")));
    assert!(scan_diagnostics_enabled(Some("1")));
    assert!(scan_diagnostics_enabled(Some("")));
}

#[test]
fn file_urls_are_read_locally() {
    match resolve_filesystem("file:///data/a.vortex") {
        FileSystem::Local(path) => assert_eq!(path, "/data/a.vortex"),
        other => panic!("the file is local: {other:?}"),
    }
    assert!(matches!(
        resolve_filesystem("s3://bucket/a.vortex"),
        FileSystem::Registry
    ));
    assert!(matches!(resolve_filesystem("a.vortex"), FileSystem::Unknown));
    assert!(matches!(filesystem_of(None, None), FileSystem::Unknown));
}

fn root() -> BoundExpression {
    BoundExpression {
        scalar_fn: None,
        children: vec![],
        dtype: 0,
    }
}

fn global(filter: Option<BoundExpression>, aggregates: usize) -> GlobalState {
    GlobalState {
        projection: root(),
        filter: ScanFilter {
            filter,
            row_selection: Selection::All,
            row_range: Some(RowRange { start: 1, end: 9 }),
        },
        file_row_number_column_pos: Some(0),
        execution_threads: 14,
        aggregates,
        has_count_star: true,
        row_count: 5,
    }
}

#[test]
fn files_are_skipped_only_by_an_answer_that_is_there() {
    let v1: OpenFileReader<u8> = OpenFileReader::open(ScanBackend::V1, None, None, 50);
    assert_eq!(v1.threads, 1);
    assert!(matches!(
        v1.can_skip(&global(None, 0).filter),
        Ok(SkipQuestion::Keep)
    ));
    match v1.can_skip(&global(Some(root()), 0).filter) {
        Ok(SkipQuestion::EvaluateReader { row_range, mask_len }) => {
            assert_eq!(row_range, RowRange { start: 0, end: 50 });
            assert_eq!(mask_len, 50);
        }
        _ => panic!("the layout reader is asked"),
    }
    let push: OpenFileReader<u8> = OpenFileReader::open(ScanBackend::Push, Some(6), None, 50);
    assert!(matches!(
        push.can_skip(&global(Some(root()), 0).filter),
        Ok(SkipQuestion::PruneFile(_))
    ));
    assert_eq!(skips(SkipAnswer::Ruled(true)), Ok(true));
    assert_eq!(skips(SkipAnswer::Pending), Ok(false));
    assert_eq!(skips(SkipAnswer::Failed(3)), Err(3));
}

#[test]
fn splits_are_planned_by_backend() {
    let v1: OpenFileReader<u8> = OpenFileReader::open(ScanBackend::V1, Some(6), None, 50);
    let state = global(None, 0);
    assert!(matches!(
        v1.plan_splits(&state).builder,
        SplitBuilder::Layout
    ));
    let config = Some(FrontierBundleConfig { min_waves: 8 });
    let push: OpenFileReader<u8> =
        OpenFileReader::open(ScanBackend::PushFrontier, Some(6), config, 50);
    let plan = push.plan_splits(&state);
    assert_eq!(
        plan.builder,
        SplitBuilder::Morsels {
            threads: 6,
            bundle: Some((14, 8)),
            frontier: true,
        }
    );
    assert!(plan.ordered);
    assert_eq!(plan.row_range, Some(RowRange { start: 1, end: 9 }));
}

#[test]
fn splits_are_taken_in_the_order_in_which_they_were_built() {
    let mut file: OpenFileReader<char> = OpenFileReader::open(ScanBackend::Push, None, None, 1);
    assert_eq!(reader_get_progress_in_file(&file), (0, 1));
    assert!(!reader_initialize(&mut file, true, vec!['x']));
    assert_eq!(file.total_splits, 0);
    assert!(reader_initialize(&mut file, false, vec!['a', 'b', 'c']));
    let mut local: LocalState<char, u8> = LocalState {
        split: None,
        exporter: None,
    };
    let mut taken = Vec::new();
    while reader_try_initialize_scan(&mut file, &mut local) {
        taken.push(local.split.take().expect("a split was taken"));
        assert_eq!(reader_get_progress_in_file(&file), (taken.len(), 3));
    }
    assert_eq!(taken, vec!['a', 'b', 'c']);
}

#[test]
fn rows_of_a_split_are_put_out_before_the_next() {
    let state = global(None, 0);
    let mut local: LocalState<char, u8> = LocalState {
        split: Some('a'),
        exporter: None,
    };
    assert!(matches!(
        reader_scan(&state, &mut local),
        ScanStep::Await('a')
    ));
    assert!(!split_scanned(&mut local, None));
    assert!(matches!(
        reader_scan(&state, &mut local),
        ScanStep::Exhausted
    ));
    assert!(split_scanned(&mut local, Some(9)));
    assert!(matches!(reader_scan(&state, &mut local), ScanStep::Export));
    rows_exported(&mut local, true);
    assert_eq!(local.exporter, Some(9));
    rows_exported(&mut local, false);
    assert_eq!(local.exporter, None);
}

#[test]
fn aggregates_count_the_rows_of_splits() {
    let mut state = global(None, 1);
    let mut local: LocalState<char, u8> = LocalState {
        split: Some('a'),
        exporter: Some(1),
    };
    assert!(matches!(
        reader_scan(&state, &mut local),
        ScanStep::Await('a')
    ));
    reader_scan_aggregate(&mut state, Some(7));
    reader_scan_aggregate(&mut state, None);
    assert_eq!(state.row_count, 12);
}

#[test]
fn statistics_are_found_by_name() {
    let fields = vec!["a".to_string(), "b".to_string()];
    let b = "b".to_string();
    assert_eq!(
        reader_get_statistics(0, Some(2), Some(&fields), &b),
        Some(1)
    );
    assert_eq!(reader_get_statistics(1, Some(2), Some(&fields), &b), None);
    assert_eq!(reader_get_statistics(0, Some(1), Some(&fields), &b), None);
    assert_eq!(reader_get_statistics(0, None, Some(&fields), &b), None);
    assert_eq!(reader_get_statistics(0, Some(2), None, &b), None);
    assert_eq!(
        reader_get_statistics(0, Some(2), Some(&fields), &"c".to_string()),
        None
    );
    let bind = reader_bind(10, fields);
    assert_eq!(bind.first_file_row_count, 10);
    assert_eq!(bind.columns.len(), 2);
    assert!(!bind.has_non_optional_filter);
}
