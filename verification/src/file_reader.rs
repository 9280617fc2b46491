//! The file reader of a table function: opening files, splitting their scans over the engine's
//! threads, and handing their rows out.
//!
//! The engine opens a file and binds it to get the scan's schema; at run time it opens, initialises
//! and scans every file. Opening, binding and awaiting are the caller's; what is decided between
//! them is here.

use vstd::prelude::*;

use crate::expr::unbind;
use crate::expr::BoundExpression;
use crate::expr::ExprError;
use crate::expr::Expression;
use crate::location::path;
use crate::location::scheme;
use crate::location::url_path;
use crate::location::url_scheme;
use crate::table_filter::RowRange;
use crate::table_filter::Selection;
use crate::text::parse_usize;
use crate::text::same_text;
use crate::text::usize_of;

verus! {

/// How many waves of work each thread has to have for bundling, unless told otherwise.
pub const DEFAULT_FRONTIER_BUNDLE_MIN_WAVES: usize = 8;

/// The engine that scans a file.
#[derive(Clone, Copy, Debug, PartialEq, Eq, Structural)]
pub enum ScanBackend {
    /// The layout reader.
    V1,
    /// The push executor.
    Push,
    /// The push executor with a predicate frontier.
    PushFrontier,
}

/// When the morsels of an external frontier are bundled.
#[derive(Clone, Copy, Debug, PartialEq, Eq, Structural)]
pub struct FrontierBundleConfig {
    /// How many waves of work each thread has to have.
    pub min_waves: usize,
}

/// Why the settings of a reader are not usable.
#[derive(Clone, Copy, Debug, PartialEq, Eq, Structural)]
pub enum ConfigError {
    /// The number of waves is not a positive integer.
    MinWaves,
    /// The bundle size is not the one that is supported.
    BundleSize,
    /// The variable of the bundle size does not hold a text.
    BundleSizeVariable,
    /// The variable of the number of waves does not hold a text.
    MinWavesVariable,
}

/// What a variable of the environment holds.
pub enum EnvVar {
    /// A text.
    Present(String),
    /// It is not set.
    Missing,
    /// It does not hold a text.
    Invalid,
}

/// Whether scans are diagnosed: the variable that asks for it is set, and not to `0`.
pub fn scan_diagnostics_enabled(value: Option<&str>) -> (enabled: bool)
    ensures
        enabled == (value is Some && value->Some_0@ != "0"@),
{
    match value {
        Some(value) => !same_text(value, "0"),
        None => false,
    }
}

/// The bundling that a number of waves asks for.
pub open spec fn bundle_config_spec(
    enabled: bool,
    min_waves: Option<Seq<char>>,
) -> Result<Option<FrontierBundleConfig>, ConfigError> {
    if !enabled {
        Ok(None)
    } else {
        match min_waves {
            None => Ok(Some(FrontierBundleConfig { min_waves: DEFAULT_FRONTIER_BUNDLE_MIN_WAVES })),
            Some(value) => match usize_of(value) {
                Some(min_waves) if min_waves > 0 => Ok(Some(FrontierBundleConfig { min_waves })),
                _ => Err(ConfigError::MinWaves),
            },
        }
    }
}

/// The characters of an optional text.
pub open spec fn chars_in(text: Option<&str>) -> Option<Seq<char>> {
    match text {
        Some(text) => Some(text@),
        None => None,
    }
}

/// The bundling that a number of waves asks for: none while it is not enabled, else a positive
/// number of waves.
pub fn frontier_bundle_config(enabled: bool, min_waves_value: Option<&str>) -> (config: Result<
    Option<FrontierBundleConfig>,
    ConfigError,
>)
    ensures
        config == bundle_config_spec(enabled, chars_in(min_waves_value)),
{
    if !enabled {
        return Ok(None);
    }
    let min_waves: usize = match min_waves_value {
        None => DEFAULT_FRONTIER_BUNDLE_MIN_WAVES,
        Some(value) => match parse_usize(value) {
            Some(min_waves) => min_waves,
            None => return Err(ConfigError::MinWaves),
        },
    };
    if min_waves == 0 {
        return Err(ConfigError::MinWaves);
    }
    Ok(Some(FrontierBundleConfig { min_waves }))
}

/// The parallelism of the bundling: that of the execution.
pub fn frontier_bundle_parallelism_for_execution(
    config: Option<FrontierBundleConfig>,
    execution_threads: usize,
) -> (parallelism: Option<usize>)
    ensures
        parallelism == (if config is Some {
            Some(execution_threads)
        } else {
            None
        }),
{
    match config {
        Some(_) => Some(execution_threads),
        None => None,
    }
}

/// Whether bundling is enabled.
pub open spec fn bundle_enabled_spec(
    backend: ScanBackend,
    opt_in: Option<Seq<char>>,
) -> Result<bool, ConfigError> {
    if backend != ScanBackend::PushFrontier {
        Ok(false)
    } else {
        match opt_in {
            None => Ok(false),
            Some(size) => if size == "2"@ {
                Ok(true)
            } else {
                Err(ConfigError::BundleSize)
            },
        }
    }
}

/// Whether bundling is enabled: only with a predicate frontier, and only for bundles of two.
pub fn q6_frontier_bundle_enabled(backend: ScanBackend, opt_in: Option<&str>) -> (enabled: Result<
    bool,
    ConfigError,
>)
    ensures
        enabled == bundle_enabled_spec(backend, chars_in(opt_in)),
{
    if backend != ScanBackend::PushFrontier {
        return Ok(false);
    }
    match opt_in {
        None => Ok(false),
        Some(size) => if same_text(size, "2") {
            Ok(true)
        } else {
            Err(ConfigError::BundleSize)
        },
    }
}

/// The bundling that the variables of the environment ask for. The number of waves does not matter
/// unless bundling is enabled.
pub fn q6_frontier_bundle_config_from_env(
    backend: ScanBackend,
    opt_in: &EnvVar,
    min_waves: &EnvVar,
) -> (config: Result<Option<FrontierBundleConfig>, ConfigError>)
    ensures
        config == (if backend != ScanBackend::PushFrontier {
            Ok::<Option<FrontierBundleConfig>, ConfigError>(None)
        } else {
            match opt_in {
                EnvVar::Invalid => Err(ConfigError::BundleSizeVariable),
                EnvVar::Missing => Ok(None),
                EnvVar::Present(size) => if size@ != "2"@ {
                    Err(ConfigError::BundleSize)
                } else {
                    match min_waves {
                        EnvVar::Invalid => Err(ConfigError::MinWavesVariable),
                        EnvVar::Missing => bundle_config_spec(true, None),
                        EnvVar::Present(value) => bundle_config_spec(true, Some(value@)),
                    }
                },
            }
        }),
{
    if backend != ScanBackend::PushFrontier {
        return Ok(None);
    }
    let opt_in: Option<&str> = match opt_in {
        EnvVar::Present(value) => Some(value.as_str()),
        EnvVar::Missing => None,
        EnvVar::Invalid => return Err(ConfigError::BundleSizeVariable),
    };
    match q6_frontier_bundle_enabled(backend, opt_in) {
        Err(error) => return Err(error),
        Ok(enabled) => if !enabled {
            return Ok(None);
        },
    }
    let min_waves: Option<&str> = match min_waves {
        EnvVar::Present(value) => Some(value.as_str()),
        EnvVar::Missing => None,
        EnvVar::Invalid => return Err(ConfigError::MinWavesVariable),
    };
    frontier_bundle_config(true, min_waves)
}

/// Where a file is read from.
#[derive(Debug)]
pub enum FileSystem {
    /// The local filesystem, at this path. Local reads do not go through a runtime of their own,
    /// which is slow on machines with many cores.
    Local(String),
    /// The store that the registry resolves the URL to.
    Registry,
    /// Nowhere: the text is no URL.
    Unknown,
}

/// The filesystem for a URL, given its scheme and its path.
pub fn filesystem_of(scheme: Option<String>, path: Option<String>) -> (filesystem: FileSystem)
    ensures
        filesystem == (match (scheme, path) {
            (Some(scheme), Some(path)) => if scheme@ == "file"@ {
                FileSystem::Local(path)
            } else {
                FileSystem::Registry
            },
            _ => FileSystem::Unknown,
        }),
{
    match (scheme, path) {
        (Some(scheme), Some(path)) => if same_text(scheme.as_str(), "file") {
            FileSystem::Local(path)
        } else {
            FileSystem::Registry
        },
        _ => FileSystem::Unknown,
    }
}

/// The filesystem for a URL: a file URL is read from the local filesystem, at the URL's path.
pub fn resolve_filesystem(url: &str) -> (filesystem: FileSystem)
    ensures
        match (url_scheme(url@), url_path(url@)) {
            (Some(scheme), Some(path)) => if scheme == "file"@ {
                filesystem matches FileSystem::Local(p) && p@ == path
            } else {
                filesystem == FileSystem::Registry
            },
            _ => filesystem == FileSystem::Unknown,
        },
{
    filesystem_of(scheme(url), path(url))
}

/// What a scan asks of every file.
pub struct ScanFilter {
    /// The predicate used to filter rows.
    pub filter: Option<BoundExpression>,
    /// The rows to read.
    pub row_selection: Selection,
    /// The range of rows to read, if not all.
    pub row_range: Option<RowRange>,
}

/// The state that all threads of a scan share.
pub struct GlobalState {
    /// The projection expression.
    pub projection: BoundExpression,
    /// What the scan asks of every file.
    pub filter: ScanFilter,
    /// Where the rows' numbers in their file are put out, if they are asked for.
    pub file_row_number_column_pos: Option<usize>,
    /// The number of threads that execute the scan.
    pub execution_threads: usize,
    /// How many aggregates are computed in the scan; with none, rows are put out.
    pub aggregates: usize,
    /// Whether one of them counts rows.
    pub has_count_star: bool,
    /// The rows counted so far.
    pub row_count: u64,
}

/// A file that was opened, with the splits `S` of its scan.
pub struct OpenFileReader<S> {
    /// The number of rows of the file's layout reader, which only the V1 backend has.
    pub reader: Option<u64>,
    /// The engine that scans the file.
    pub backend: ScanBackend,
    /// The threads of the machine.
    pub threads: usize,
    /// When the morsels of an external frontier are bundled.
    pub frontier_bundle_config: Option<FrontierBundleConfig>,
    /// The splits that are not taken yet, the last first.
    pub splits: Vec<S>,
    /// How many splits there were.
    pub total_splits: usize,
}

/// The state of one thread of a scan, with the splits `S` of the scan and the exporter `E` that
/// puts rows out.
pub struct LocalState<S, E> {
    /// The split that was taken and not scanned yet.
    pub split: Option<S>,
    /// What is left to put out of the last split.
    pub exporter: Option<E>,
}

/// What has to be asked to know whether a file can be skipped.
pub enum SkipQuestion {
    /// Nothing: there is no filter, so the file is scanned.
    Keep,
    /// Which of the file's rows the layout reader rules out.
    EvaluateReader {
        /// The rows.
        row_range: RowRange,
        /// How many rows the mask covers.
        mask_len: usize,
    },
    /// Whether the file's statistics rule all of its rows out.
    PruneFile(Expression),
}

/// The answer to such a question.
#[derive(Clone, Copy, Debug, PartialEq, Eq, Structural)]
pub enum SkipAnswer {
    /// All rows are ruled out, or not.
    Ruled(bool),
    /// The answer is not there yet.
    Pending,
    /// The question failed, for a reason known by its number.
    Failed(u64),
}

/// Whether a file is skipped, given the answer: one that is not there yet is not waited for.
pub fn skips(answer: SkipAnswer) -> (skip: Result<bool, u64>)
    ensures
        skip == (match answer {
            SkipAnswer::Ruled(all) => Ok::<bool, u64>(all),
            SkipAnswer::Pending => Ok(false),
            SkipAnswer::Failed(reason) => Err(reason),
        }),
{
    match answer {
        SkipAnswer::Ruled(all) => Ok(all),
        SkipAnswer::Pending => Ok(false),
        SkipAnswer::Failed(reason) => Err(reason),
    }
}

/// How the splits of a file are built.
#[derive(Clone, Copy, Debug, PartialEq, Eq)]
pub enum SplitBuilder {
    /// By the layout reader.
    Layout,
    /// By the push executor, on threads of the engine.
    Morsels {
        /// The threads of the machine.
        threads: usize,
        /// The parallelism and the number of waves of the bundling, if there is any.
        bundle: Option<(usize, usize)>,
        /// Whether there is a predicate frontier.
        frontier: bool,
    },
}

/// A plan of the splits of a file.
pub struct SplitPlan<'a> {
    /// How they are built.
    pub builder: SplitBuilder,
    /// The projection expression.
    pub projection: &'a BoundExpression,
    /// The predicate used to filter rows.
    pub filter: &'a Option<BoundExpression>,
    /// The rows to read.
    pub selection: &'a Selection,
    /// The range of rows to read, if not all.
    pub row_range: Option<RowRange>,
    /// Whether rows are put out in file order, as their numbers in the file need.
    pub ordered: bool,
}

impl<S> OpenFileReader<S> {
    /// The splits in the order in which threads take them.
    pub open spec fn waiting(self) -> Seq<S> {
        self.splits@.reverse()
    }

    /// Whether the reader holds a layout reader exactly where its backend needs one, and no more
    /// splits wait than there were.
    pub open spec fn wf(self) -> bool {
        &&& self.reader is Some <==> self.backend == ScanBackend::V1
        &&& self.splits@.len() <= self.total_splits
    }

    /// A file that was just opened.
    ///
    /// `row_count` is the file's number of rows, and `host_parallelism` the threads of the
    /// machine, where they are known.
    pub fn open(
        backend: ScanBackend,
        host_parallelism: Option<usize>,
        frontier_bundle_config: Option<FrontierBundleConfig>,
        row_count: u64,
    ) -> (file: Self)
        ensures
            file.wf(),
            file.reader == (if backend == ScanBackend::V1 {
                Some(row_count)
            } else {
                None
            }),
            file.backend == backend,
            file.threads == (match host_parallelism {
                Some(threads) => threads,
                None => 1,
            }),
            file.frontier_bundle_config == frontier_bundle_config,
            file.splits@ == Seq::<S>::empty(),
            file.total_splits == 0,
    {
        let reader: Option<u64> = if backend == ScanBackend::V1 {
            Some(row_count)
        } else {
            None
        };
        let threads: usize = match host_parallelism {
            Some(threads) => threads,
            None => 1,
        };
        OpenFileReader {
            reader,
            backend,
            threads,
            frontier_bundle_config,
            splits: Vec::new(),
            total_splits: 0,
        }
    }

    /// What has to be asked to know whether the file can be skipped.
    pub fn can_skip(&self, filter: &ScanFilter) -> (question: Result<SkipQuestion, ExprError>)
        ensures
            match filter.filter {
                None => question == Ok::<SkipQuestion, ExprError>(SkipQuestion::Keep),
                Some(expr) => match self.reader {
                    Some(row_count) => question == Ok::<SkipQuestion, ExprError>(
                        SkipQuestion::EvaluateReader {
                            row_range: RowRange { start: 0, end: row_count },
                            mask_len: if row_count > usize::MAX {
                                usize::MAX
                            } else {
                                row_count as usize
                            },
                        },
                    ),
                    None => if expr@.well_formed() {
                        question matches Ok(SkipQuestion::PruneFile(expression)) && expression@
                            == expr@
                    } else {
                        question == Err::<SkipQuestion, _>(ExprError::ArityMismatch)
                    },
                },
            },
    {
        let expr: &BoundExpression = match &filter.filter {
            Some(expr) => expr,
            None => return Ok(SkipQuestion::Keep),
        };
        match self.reader {
            Some(row_count) => {
                let mask_len: usize = if row_count > usize::MAX as u64 {
                    usize::MAX
                } else {
                    row_count as usize
                };
                Ok(
                    SkipQuestion::EvaluateReader {
                        row_range: RowRange { start: 0, end: row_count },
                        mask_len,
                    },
                )
            },
            None => match unbind(expr) {
                Ok(expression) => Ok(SkipQuestion::PruneFile(expression)),
                Err(error) => Err(error),
            },
        }
    }

    /// How the splits of the file are built.
    pub fn plan_splits<'a>(&self, global: &'a GlobalState) -> (plan: SplitPlan<'a>)
        ensures
            plan.builder == (match self.backend {
                ScanBackend::V1 => SplitBuilder::Layout,
                backend => SplitBuilder::Morsels {
                    threads: self.threads,
                    bundle: match self.frontier_bundle_config {
                        Some(config) => Some((global.execution_threads, config.min_waves)),
                        None => None,
                    },
                    frontier: backend == ScanBackend::PushFrontier,
                },
            }),
            *plan.projection == global.projection,
            *plan.filter == global.filter.filter,
            *plan.selection == global.filter.row_selection,
            plan.row_range == global.filter.row_range,
            plan.ordered == (global.file_row_number_column_pos is Some),
    {
        let builder: SplitBuilder = match self.backend {
            ScanBackend::V1 => SplitBuilder::Layout,
            backend => {
                let parallelism: Option<usize> = frontier_bundle_parallelism_for_execution(
                    self.frontier_bundle_config,
                    global.execution_threads,
                );
                let bundle: Option<(usize, usize)> = match (
                    self.frontier_bundle_config,
                    parallelism,
                ) {
                    (Some(config), Some(parallelism)) => Some((parallelism, config.min_waves)),
                    _ => None,
                };
                SplitBuilder::Morsels {
                    threads: self.threads,
                    bundle,
                    frontier: backend == ScanBackend::PushFrontier,
                }
            },
        };
        SplitPlan {
            builder,
            projection: &global.projection,
            filter: &global.filter.filter,
            selection: &global.filter.row_selection,
            row_range: global.filter.row_range,
            ordered: global.file_row_number_column_pos.is_some(),
        }
    }
}

/// Whether the file is to be scanned. If so, its splits are kept for the threads to take, in the
/// order in which they were built. If not, the file is skipped: the engine closes it and takes no
/// split of it.
///
/// `splits` are those that were built by the plan; they are not used where the file is skipped.
pub fn reader_initialize<S>(file: &mut OpenFileReader<S>, skip: bool, splits: Vec<S>) -> (scanned:
    bool)
    requires
        old(file).wf(),
    ensures
        scanned == !skip,
        skip ==> *final(file) == *old(file),
        !skip ==> {
            &&& final(file).wf()
            &&& final(file).waiting() == splits@
            &&& final(file).total_splits == splits@.len()
            &&& final(file).reader == old(file).reader
            &&& final(file).backend == old(file).backend
            &&& final(file).threads == old(file).threads
            &&& final(file).frontier_bundle_config == old(file).frontier_bundle_config
        },
{
    if skip {
        return false;
    }
    // Threads take the last element of the splits, so they are kept in reverse.
    let ghost built = splits@;
    let mut splits = splits;
    let mut reversed: Vec<S> = Vec::new();
    while splits.len() > 0
        invariant
            built == splits@ + reversed@.reverse(),
        decreases splits@.len(),
    {
        let ghost (before, taken) = (splits@, reversed@);
        match splits.pop() {
            Some(split) => reversed.push(split),
            None => {},
        }
        assert(built =~= splits@ + reversed@.reverse());
    }
    assert(reversed@.reverse() =~= built);
    file.total_splits = reversed.len();
    file.splits = reversed;
    true
}

/// Take the next split of the file, if one is left. Without one the file is exhausted.
pub fn reader_try_initialize_scan<S, E>(
    file: &mut OpenFileReader<S>,
    local: &mut LocalState<S, E>,
) -> (taken: bool)
    requires
        old(file).wf(),
    ensures
        final(file).wf(),
        taken == (old(file).waiting().len() > 0),
        taken ==> {
            &&& final(local).split == Some(old(file).waiting()[0])
            &&& final(local).exporter == old(local).exporter
            &&& final(file).waiting() == old(file).waiting().skip(1)
        },
        !taken ==> *final(local) == *old(local) && final(file).waiting() == old(file).waiting(),
        final(file).total_splits == old(file).total_splits,
        final(file).reader == old(file).reader,
        final(file).backend == old(file).backend,
        final(file).threads == old(file).threads,
        final(file).frontier_bundle_config == old(file).frontier_bundle_config,
{
    let ghost before = file.splits@;
    match file.splits.pop() {
        Some(split) => {
            assert(before.reverse()[0] == split);
            assert(file.splits@.reverse() =~= before.reverse().skip(1));
            local.split = Some(split);
            true
        },
        None => false,
    }
}

/// The next step of a thread that scans.
pub enum ScanStep<S> {
    /// The thread has nothing left of the file.
    Exhausted,
    /// The split has to be awaited.
    Await(S),
    /// Rows can be put out.
    Export,
}

/// Start a scan call: put out what is left of the last split, or await the split that was taken.
/// Aggregates are computed as splits come in, so nothing is left of them.
pub fn reader_scan<S, E>(global: &GlobalState, local: &mut LocalState<S, E>) -> (step: ScanStep<S>)
    ensures
        final(local).exporter == old(local).exporter,
        if global.aggregates == 0 && old(local).exporter is Some {
            step == ScanStep::<S>::Export && final(local).split == old(local).split
        } else {
            &&& step == (match old(local).split {
                Some(split) => ScanStep::Await(split),
                None => ScanStep::Exhausted,
            })
            &&& final(local).split is None
        },
{
    if global.aggregates == 0 && local.exporter.is_some() {
        return ScanStep::Export;
    }
    match local.split.take() {
        Some(split) => ScanStep::Await(split),
        None => ScanStep::Exhausted,
    }
}

/// Whether rows of an awaited split are to be put out: not where all of them were filtered out.
/// Either way the file may hold more.
pub fn split_scanned<S, E>(local: &mut LocalState<S, E>, exporter: Option<E>) -> (export: bool)
    ensures
        export == (exporter is Some),
        final(local).split == old(local).split,
        final(local).exporter == (if exporter is Some {
            exporter
        } else {
            old(local).exporter
        }),
{
    match exporter {
        Some(exporter) => {
            local.exporter = Some(exporter);
            true
        },
        None => false,
    }
}

/// Rows were put out; an exporter without more data is done.
pub fn rows_exported<S, E>(local: &mut LocalState<S, E>, has_more_data: bool)
    ensures
        final(local).split == old(local).split,
        final(local).exporter == (if has_more_data {
            old(local).exporter
        } else {
            None
        }),
{
    if !has_more_data {
        local.exporter = None;
    }
}

/// The rows of an awaited split were added to the aggregates; they are counted where that is asked
/// for. Nothing is counted of a split whose rows were all filtered out.
pub fn reader_scan_aggregate(global: &mut GlobalState, rows: Option<usize>)
    ensures
        final(global).row_count == (match rows {
            Some(rows) if old(global).has_count_star => old(global).row_count.wrapping_add(
                rows as u64,
            ),
            _ => old(global).row_count,
        }),
        *final(global) == (GlobalState { row_count: final(global).row_count, ..*old(global) }),
{
    if let Some(rows) = rows {
        if global.has_count_star {
            global.row_count = global.row_count.wrapping_add(rows as u64);
        }
    }
}

/// The first of a list of names, from `n` on, that is a given one.
pub open spec fn name_index(names: Seq<String>, name: Seq<char>, n: int) -> Option<int>
    decreases names.len() - n,
{
    if n < 0 || n >= names.len() {
        None
    } else if names[n]@ == name {
        Some(n)
    } else {
        name_index(names, name, n + 1)
    }
}

/// A name is found where it stands first.
pub proof fn law_name_index(names: Seq<String>, name: Seq<char>, n: int)
    requires
        0 <= n,
    ensures
        match name_index(names, name, n) {
            Some(i) => {
                &&& n <= i < names.len()
                &&& names[i]@ == name
                &&& forall|j: int| n <= j < i ==> (#[trigger] names[j])@ != name
            },
            None => forall|j: int| n <= j < names.len() ==> (#[trigger] names[j])@ != name,
        },
    decreases names.len() - n,
{
    if n < names.len() && names[n]@ != name {
        law_name_index(names, name, n + 1);
    }
}

/// The place of a column's statistics in those of a file: none while aggregates are computed in
/// the scan, without statistics, for a file whose rows are not structs, or for an unknown column.
pub fn reader_get_statistics(
    aggregates: usize,
    stats: Option<usize>,
    fields: Option<&Vec<String>>,
    column: &String,
) -> (index: Option<usize>)
    ensures
        index == (match (stats, fields) {
            (Some(stats), Some(fields)) if aggregates == 0 => match name_index(
                fields@,
                column@,
                0,
            ) {
                Some(i) if i < stats => Some(i as usize),
                _ => None,
            },
            _ => None,
        }),
{
    if aggregates > 0 {
        return None;
    }
    let (stats, fields): (usize, &Vec<String>) = match (stats, fields) {
        (Some(stats), Some(fields)) => (stats, fields),
        _ => return None,
    };
    find_statistics(stats, fields, column)
}

fn find_statistics(stats: usize, fields: &Vec<String>, column: &String) -> (index: Option<usize>)
    ensures
        index == (match name_index(fields@, column@, 0) {
            Some(i) if i < stats => Some(i as usize),
            _ => None,
        }),
{
    let mut i: usize = 0;
    while i < fields.len()
        invariant
            i <= fields@.len(),
            name_index(fields@, column@, 0) == name_index(fields@, column@, i as int),
        decreases fields@.len() - i,
    {
        if fields[i].eq(column) {
            return if i < stats {
                Some(i)
            } else {
                None
            };
        }
        i = i + 1;
    }
    None
}

/// How much of a file is scanned: the splits that were taken, out of how many. A file without
/// splits counts as one with a single split that was not taken.
pub fn reader_get_progress_in_file<S>(file: &OpenFileReader<S>) -> (progress: (usize, usize))
    requires
        file.wf(),
    ensures
        progress.0 == file.total_splits - file.waiting().len(),
        progress.1 == (if file.total_splits == 0 {
            1int
        } else {
            file.total_splits as int
        }),
        progress.0 <= progress.1,
{
    let total: usize = file.total_splits;
    let left: usize = file.splits.len();
    let whole: usize = if total == 0 {
        1
    } else {
        total
    };
    (total - left, whole)
}

/// What is known of a scan from its first file.
pub struct BindState {
    /// How many rows the first file has.
    pub first_file_row_count: u64,
    /// The columns of the scan: those of the first file, which all files have to have.
    pub columns: Vec<String>,
    /// How many filters were pushed down.
    pub filters: usize,
    /// How many aggregates were pushed down.
    pub aggregates: usize,
    /// Whether a filter was pushed down that the engine needs the scan to apply.
    pub has_non_optional_filter: bool,
}

/// Bind a scan to its first file.
pub fn reader_bind(row_count: u64, columns: Vec<String>) -> (bind: BindState)
    ensures
        bind == (BindState {
            first_file_row_count: row_count,
            columns,
            filters: 0,
            aggregates: 0,
            has_non_optional_filter: false,
        }),
{
    BindState {
        first_file_row_count: row_count,
        columns,
        filters: 0,
        aggregates: 0,
        has_non_optional_filter: false,
    }
}

/// The splits that are left after `n` of them were taken, in order, are the rest: none is handed
/// out twice, and none is left out.
pub proof fn law_splits_taken_in_order<S>(splits: Seq<S>, n: int)
    requires
        0 <= n < splits.len(),
    ensures
        splits.skip(n)[0] == splits[n],
        splits.skip(n).skip(1) == splits.skip(n + 1),
{
    assert(splits.skip(n).skip(1) =~= splits.skip(n + 1));
}

} // verus!
