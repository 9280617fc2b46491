//! The I/O policy of a scan and the settings it stands for.

use vstd::prelude::*;

verus! {

/// Morsels kept visible to background I/O ahead of the active workers in shared scans, so the
/// file driver sees enough adjacent segments to coalesce and cold reads overlap execution.
pub const SHARED_LOOKAHEAD_MORSELS: usize = 16;

/// Frontier scheduling exposes the first frontier of resident morsels with no down lookahead.
pub const FRONTIER_LOOKAHEAD_PER_THREAD: usize = 0;

/// Later predicate groups that frontier scheduling admits to keep storage busy.
pub const FRONTIER_SPECULATIVE_PREDICATES_RIGHT: usize = 2;

/// Ranges at which a frontier is refilled.
pub const FRONTIER_REFILL_RANGES: usize = 32;

/// How a scan admits I/O.
#[derive(Clone, Copy, Debug, Eq, PartialEq, Structural)]
pub enum ExecutorIoPolicy {
    /// Read ahead of the active workers.
    EagerLookahead,
    /// Admit whole predicate frontiers.
    Frontier,
}

impl Default for ExecutorIoPolicy {
    fn default() -> (policy: Self)
        ensures
            policy == ExecutorIoPolicy::EagerLookahead,
    {
        ExecutorIoPolicy::EagerLookahead
    }
}

/// Whose threads run a scan.
#[derive(Clone, Copy, Debug, Eq, PartialEq, Structural)]
pub enum ExecutorDriver {
    /// The executor's own.
    Internal,
    /// The engine's.
    External,
}

/// The settings a policy stands for.
#[derive(Clone, Copy, Debug, Eq, PartialEq, Structural)]
pub struct ExecutorIoSettings {
    /// Whether morsels are read ahead of need.
    pub eager_lookahead: bool,
    /// How many morsels are visible ahead of the workers.
    pub lookahead_morsels: usize,
    /// Frontiers exposed below the active one, per thread, under frontier scheduling.
    pub frontier_lookahead_per_thread: Option<usize>,
    /// Later predicate groups admitted speculatively.
    pub speculative_predicate_frontiers: usize,
    /// Ranges at which a frontier is refilled.
    pub frontier_refill_ranges: usize,
}

/// What may be read before it is known to be needed.
#[derive(Clone, Copy, Debug, Eq, PartialEq, Structural)]
pub enum Speculation {
    /// Nothing.
    Nothing,
    /// This many later predicate groups.
    Predicates(usize),
    /// This many later groups, projections among them.
    All(usize),
}

/// The I/O configuration of one scan.
#[derive(Clone, Copy, Debug, Eq, PartialEq, Structural)]
pub struct ScanConfig {
    /// How many morsels are visible ahead of the workers.
    pub lookahead_morsels: usize,
    /// Whether morsels are read ahead of need.
    pub eager_lookahead: bool,
    /// Frontiers exposed below the active one, per thread.
    pub frontier_lookahead_per_thread: Option<usize>,
    /// What is read speculatively.
    pub speculation: Speculation,
    /// Ranges at which a frontier is refilled, if it is.
    pub frontier_refill_ranges: Option<usize>,
}

impl ExecutorIoPolicy {
    /// The settings of a policy under a driver: eager lookahead is bounded by a morsel window
    /// that only the internal driver has; frontier scheduling is the same under both.
    pub open spec fn settings_spec(self, driver: ExecutorDriver) -> ExecutorIoSettings {
        ExecutorIoSettings {
            eager_lookahead: self == ExecutorIoPolicy::EagerLookahead,
            lookahead_morsels: if self == ExecutorIoPolicy::EagerLookahead && driver
                == ExecutorDriver::Internal {
                SHARED_LOOKAHEAD_MORSELS
            } else {
                0
            },
            frontier_lookahead_per_thread: if self == ExecutorIoPolicy::Frontier {
                Some(FRONTIER_LOOKAHEAD_PER_THREAD)
            } else {
                None
            },
            speculative_predicate_frontiers: if self == ExecutorIoPolicy::Frontier {
                FRONTIER_SPECULATIVE_PREDICATES_RIGHT
            } else {
                0
            },
            frontier_refill_ranges: FRONTIER_REFILL_RANGES,
        }
    }

    /// The policy for a choice of frontier scheduling.
    pub fn from_frontier_io(frontier_io: bool) -> (policy: Self)
        ensures
            policy == if frontier_io {
                ExecutorIoPolicy::Frontier
            } else {
                ExecutorIoPolicy::EagerLookahead
            },
    {
        if frontier_io {
            ExecutorIoPolicy::Frontier
        } else {
            ExecutorIoPolicy::EagerLookahead
        }
    }

    /// The settings of this policy under `driver`.
    pub fn settings(self, driver: ExecutorDriver) -> (settings: ExecutorIoSettings)
        ensures
            settings == self.settings_spec(driver),
    {
        match (self, driver) {
            (ExecutorIoPolicy::EagerLookahead, ExecutorDriver::Internal) => ExecutorIoSettings {
                eager_lookahead: true,
                lookahead_morsels: SHARED_LOOKAHEAD_MORSELS,
                frontier_lookahead_per_thread: None,
                speculative_predicate_frontiers: 0,
                frontier_refill_ranges: FRONTIER_REFILL_RANGES,
            },
            (ExecutorIoPolicy::EagerLookahead, ExecutorDriver::External) => ExecutorIoSettings {
                eager_lookahead: true,
                lookahead_morsels: 0,
                frontier_lookahead_per_thread: None,
                speculative_predicate_frontiers: 0,
                frontier_refill_ranges: FRONTIER_REFILL_RANGES,
            },
            (ExecutorIoPolicy::Frontier, _) => ExecutorIoSettings {
                eager_lookahead: false,
                lookahead_morsels: 0,
                frontier_lookahead_per_thread: Some(FRONTIER_LOOKAHEAD_PER_THREAD),
                speculative_predicate_frontiers: FRONTIER_SPECULATIVE_PREDICATES_RIGHT,
                frontier_refill_ranges: FRONTIER_REFILL_RANGES,
            },
        }
    }

    /// Whether projections are read speculatively: only on request, only under frontier
    /// scheduling, and only when the engine drives the scan.
    pub fn prefetch_projection(self, driver: ExecutorDriver, requested: bool) -> (prefetch: bool)
        ensures
            prefetch == (self == ExecutorIoPolicy::Frontier && driver == ExecutorDriver::External
                && requested),
    {
        match (self, driver, requested) {
            (ExecutorIoPolicy::Frontier, ExecutorDriver::External, true) => true,
            _ => false,
        }
    }

    /// The configuration of a scan under this policy, for the given request to prefetch
    /// projections.
    pub open spec fn configured(
        self,
        scan: ScanConfig,
        driver: ExecutorDriver,
        prefetch: bool,
    ) -> ScanConfig {
        let settings = self.settings_spec(driver);
        let windowed = ScanConfig {
            lookahead_morsels: settings.lookahead_morsels,
            eager_lookahead: settings.eager_lookahead,
            ..scan
        };
        match settings.frontier_lookahead_per_thread {
            None => windowed,
            Some(frontiers) => ScanConfig {
                frontier_lookahead_per_thread: Some(frontiers),
                speculation: if prefetch && driver == ExecutorDriver::External {
                    Speculation::All(settings.speculative_predicate_frontiers)
                } else {
                    Speculation::Predicates(settings.speculative_predicate_frontiers)
                },
                frontier_refill_ranges: Some(settings.frontier_refill_ranges),
                ..windowed
            },
        }
    }

    /// Configure a scan under this policy. An eager policy only sets the lookahead window; a
    /// frontier policy also sets the frontier depth, the speculation and the refill threshold.
    pub fn configure(self, scan: ScanConfig, driver: ExecutorDriver, prefetch: bool) -> (config:
        ScanConfig)
        ensures
            config == self.configured(scan, driver, prefetch),
    {
        let settings = self.settings(driver);
        let mut config = scan;
        config.lookahead_morsels = settings.lookahead_morsels;
        config.eager_lookahead = settings.eager_lookahead;
        match settings.frontier_lookahead_per_thread {
            Some(frontiers) => {
                config.frontier_lookahead_per_thread = Some(frontiers);
                config.speculation = if self.prefetch_projection(driver, prefetch) {
                    Speculation::All(settings.speculative_predicate_frontiers)
                } else {
                    Speculation::Predicates(settings.speculative_predicate_frontiers)
                };
                config.frontier_refill_ranges = Some(settings.frontier_refill_ranges);
            },
            None => {},
        }
        config
    }
}

/// Frontier scheduling never widens to the projection unless the engine drives the scan and asks
/// for it, and never reads ahead of need.
pub proof fn law_frontier_is_predicate_only(
    scan: ScanConfig,
    driver: ExecutorDriver,
    prefetch: bool,
)
    ensures
        ({
            let config = ExecutorIoPolicy::Frontier.configured(scan, driver, prefetch);
            &&& !config.eager_lookahead
            &&& config.lookahead_morsels == 0
            &&& config.speculation is All ==> driver == ExecutorDriver::External && prefetch
        }),
{
}

/// Eager lookahead leaves a scan's frontier and speculation as they are, and has a window of morsels
/// only where the executor drives the scan.
pub proof fn law_eager_keeps_the_frontier(
    scan: ScanConfig,
    driver: ExecutorDriver,
    prefetch: bool,
)
    ensures
        ({
            let config = ExecutorIoPolicy::EagerLookahead.configured(scan, driver, prefetch);
            &&& config.eager_lookahead
            &&& config.lookahead_morsels > 0 <==> driver == ExecutorDriver::Internal
            &&& config.frontier_lookahead_per_thread == scan.frontier_lookahead_per_thread
            &&& config.speculation == scan.speculation
            &&& config.frontier_refill_ranges == scan.frontier_refill_ranges
        }),
{
}

/// Frontier scheduling looks to the right only: it exposes no frontier below the active one, and
/// reads two later predicate groups whoever drives the scan and whatever the scan was set to.
pub proof fn law_frontier_looks_right(
    scan: ScanConfig,
    other: ScanConfig,
    driver: ExecutorDriver,
    prefetch: bool,
)
    ensures
        ({
            let config = ExecutorIoPolicy::Frontier.configured(scan, driver, prefetch);
            &&& config == ExecutorIoPolicy::Frontier.configured(other, driver, prefetch)
            &&& config.frontier_lookahead_per_thread == Some(0usize)
            &&& config.frontier_refill_ranges is Some
            &&& match config.speculation {
                Speculation::Predicates(groups) => groups == 2,
                Speculation::All(groups) => groups == 2,
                Speculation::Nothing => false,
            }
        }),
{
}

} // verus!
