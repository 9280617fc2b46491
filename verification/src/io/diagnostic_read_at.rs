//! Reads that are recorded, to attribute positional reads to what they wait for.
//!
//! A separate implementation keeps ordinary reads free of what is recorded. Every read that was
//! begun is a child, and every child ends in exactly one terminal: a success, an error or a
//! cancellation.

use vstd::prelude::*;

use crate::io::assembly::ByteRange;
use crate::io::assembly::ReadAtRequest;
use crate::io::assembly::ReadError;
use crate::io::assembly::StreamAssembly;
use crate::io::read_at::CoalesceConfig;
use crate::io::read_at::ObjectStoreReadAt;
use crate::io::read_at::VortexReadAt;
use crate::io::read_at::DEFAULT_CONCURRENCY;

verus! {

/// What the store answered a read with.
#[derive(Clone, Copy, Debug, PartialEq, Eq, Structural)]
pub enum Payload {
    /// It did not answer.
    Nothing,
    /// An open file.
    File,
    /// A stream of bytes.
    Stream,
}

impl Payload {
    /// The name of the payload.
    pub fn as_str(self) -> (name: &'static str)
        ensures
            name@ == (match self {
                Payload::Nothing => "none"@,
                Payload::File => "file"@,
                Payload::Stream => "stream"@,
            }),
    {
        match self {
            Payload::Nothing => "none",
            Payload::File => "file",
            Payload::Stream => "stream",
        }
    }
}

/// Where a read failed.
#[derive(Clone, Copy, Debug, PartialEq, Eq, Structural)]
pub enum Stage {
    /// The range has no end.
    Range,
    /// There is no buffer.
    Allocate,
    /// The store did not answer.
    GetOpts,
    /// The file could not be read.
    Pread,
    /// The stream delivered something else than was asked for.
    Stream,
}

impl Stage {
    /// The name of the stage.
    pub fn as_str(self) -> (name: &'static str)
        ensures
            name@ == (match self {
                Stage::Range => "range"@,
                Stage::Allocate => "allocate"@,
                Stage::GetOpts => "get_opts"@,
                Stage::Pread => "pread"@,
                Stage::Stream => "stream"@,
            }),
    {
        match self {
            Stage::Range => "range",
            Stage::Allocate => "allocate",
            Stage::GetOpts => "get_opts",
            Stage::Pread => "pread",
            Stage::Stream => "stream",
        }
    }
}

/// How a child ended.
#[derive(Clone, Copy, Debug, PartialEq, Eq, Structural)]
pub enum Outcome {
    /// All bytes were read.
    Success,
    /// The read failed.
    Error(Stage),
    /// The read was dropped.
    Cancel,
}

impl Outcome {
    /// The name of the outcome.
    pub fn as_str(self) -> (name: &'static str)
        ensures
            name@ == (match self {
                Outcome::Success => "success"@,
                Outcome::Error(_) => "error"@,
                Outcome::Cancel => "cancel"@,
            }),
    {
        match self {
            Outcome::Success => "success",
            Outcome::Error(_) => "error",
            Outcome::Cancel => "cancel",
        }
    }
}

/// Nanoseconds as a word, or the largest word where they do not fit.
pub open spec fn nanoseconds_spec(nanos: u128) -> u64 {
    if nanos > u64::MAX {
        u64::MAX
    } else {
        nanos as u64
    }
}

/// Nanoseconds as a word, or the largest word where they do not fit.
pub fn nanoseconds(nanos: u128) -> (ns: u64)
    ensures
        ns == nanoseconds_spec(nanos),
{
    if nanos > u64::MAX as u128 {
        u64::MAX
    } else {
        nanos as u64
    }
}

/// A duration in nanoseconds; zero for one that was not measured.
pub open spec fn duration_ns_spec(duration: Option<u128>) -> u64 {
    match duration {
        Some(nanos) => nanoseconds_spec(nanos),
        None => 0,
    }
}

/// A duration in nanoseconds; zero for one that was not measured.
pub fn duration_ns(duration: Option<u128>) -> (ns: u64)
    ensures
        ns == duration_ns_spec(duration),
{
    match duration {
        Some(nanos) => nanoseconds(nanos),
        None => 0,
    }
}

/// The number in an option, or zero.
pub open spec fn or_zero(value: Option<u64>) -> u64 {
    match value {
        Some(value) => value,
        None => 0,
    }
}

fn unwrap_or_zero(value: Option<u64>) -> (number: u64)
    ensures
        number == or_zero(value),
{
    match value {
        Some(value) => value,
        None => 0,
    }
}

/// Where a child and its consumer stand. Either may be first to end.
#[derive(Clone, Copy, Debug, PartialEq, Eq, Structural)]
pub enum ChildLifecycle {
    /// The child is read and its consumer waits.
    Active,
    /// The consumer is gone and the child is still read.
    ConsumerCancelled,
    /// The child ended while its consumer waited.
    Finished,
    /// The child ended after its consumer was gone.
    FinishedAfterConsumerCancel,
}

impl ChildLifecycle {
    /// Where they stand once the consumer is gone.
    pub open spec fn cancelled(self) -> ChildLifecycle {
        match self {
            ChildLifecycle::Active => ChildLifecycle::ConsumerCancelled,
            other => other,
        }
    }

    /// Where they stand once the child ended.
    pub open spec fn finished(self) -> ChildLifecycle {
        match self {
            ChildLifecycle::Active => ChildLifecycle::Finished,
            ChildLifecycle::ConsumerCancelled => ChildLifecycle::FinishedAfterConsumerCancel,
            other => other,
        }
    }

    /// Whether the consumer was gone when the child ended.
    pub open spec fn consumer_cancelled(self) -> bool {
        self is ConsumerCancelled || self is FinishedAfterConsumerCancel
    }

    /// The consumer is gone: whether it was gone before the child ended, and for the first time.
    pub fn cancel_consumer(&mut self) -> (cancelled: bool)
        ensures
            cancelled == (*old(self) is Active),
            *final(self) == old(self).cancelled(),
    {
        match *self {
            ChildLifecycle::Active => {
                *self = ChildLifecycle::ConsumerCancelled;
                true
            },
            _ => false,
        }
    }

    /// The child ended: whether its consumer was gone by then.
    pub fn finish(&mut self) -> (consumer_cancelled: bool)
        ensures
            consumer_cancelled == old(self).consumer_cancelled(),
            *final(self) == old(self).finished(),
    {
        match *self {
            ChildLifecycle::Active => {
                *self = ChildLifecycle::Finished;
                false
            },
            ChildLifecycle::ConsumerCancelled => {
                *self = ChildLifecycle::FinishedAfterConsumerCancel;
                true
            },
            ChildLifecycle::Finished => false,
            ChildLifecycle::FinishedAfterConsumerCancel => true,
        }
    }

    /// Ending is final: once the child ended, neither its end nor that of its consumer changes
    /// what is known of them, and each end counts once.
    pub proof fn law_lifecycle(self)
        ensures
            self.finished().finished() == self.finished(),
            self.finished().cancelled() == self.finished(),
            self.cancelled().cancelled() == self.cancelled(),
            self.finished().consumer_cancelled() == self.consumer_cancelled(),
            self is Active ==> self.cancelled().consumer_cancelled(),
    {
    }
}

/// What was recorded of the reads of one reader. The counters wrap around.
#[derive(Clone, Copy, Debug, PartialEq, Eq, Structural)]
pub struct DiagnosticSummary {
    /// The reader.
    pub reader_id: u64,
    /// Calls for a single range.
    pub direct_read_calls: u64,
    /// Calls for a list of ranges.
    pub read_ranges_calls: u64,
    /// Reads that were begun.
    pub children: u64,
    /// Reads that ended.
    pub terminals: u64,
    /// Those that succeeded.
    pub successes: u64,
    /// Those that failed.
    pub errors: u64,
    /// Those that were dropped.
    pub physical_cancellations: u64,
    /// Consumers that were gone before their read ended.
    pub consumer_cancellations: u64,
    /// Bytes that were asked for.
    pub requested_bytes: u64,
    /// Bytes that were read.
    pub completed_bytes: u64,
    /// Reads that the store answered with a file.
    pub file_payloads: u64,
    /// Reads that the store answered with a stream.
    pub stream_payloads: u64,
    /// Reads that the store did not answer.
    pub no_payloads: u64,
    /// Waits for the store that were measured.
    pub get_opts_observations: u64,
    /// Their nanoseconds.
    pub get_opts_ns: u64,
    /// Waits for a thread that were measured.
    pub blocking_queue_observations: u64,
    /// Their nanoseconds.
    pub blocking_queue_ns: u64,
    /// Reads whose duration was measured.
    pub service_observations: u64,
    /// Their nanoseconds.
    pub service_ns: u64,
}

/// How many durations were measured, once another may have been.
pub open spec fn observed(observations: u64, duration: Option<u128>) -> u64 {
    if duration is Some {
        observations.wrapping_add(1)
    } else {
        observations
    }
}

/// The nanoseconds of durations, once another may have been measured.
pub open spec fn accumulated(ns: u64, duration: Option<u128>) -> u64 {
    match duration {
        Some(nanos) => ns.wrapping_add(nanoseconds_spec(nanos)),
        None => ns,
    }
}

/// Record a duration, if it was measured.
fn record_duration(observations: u64, ns: u64, duration: Option<u128>) -> (after: (u64, u64))
    ensures
        after == (observed(observations, duration), accumulated(ns, duration)),
{
    match duration {
        Some(nanos) => (observations.wrapping_add(1), ns.wrapping_add(nanoseconds(nanos))),
        None => (observations, ns),
    }
}

/// What is recorded of one read.
pub struct ChildTerminal {
    /// The place of the read among those of its call.
    pub child_index: usize,
    /// The read.
    pub request: ReadAtRequest,
    /// What the store answered with.
    pub payload: Payload,
    /// When the read was begun.
    pub t_begin_ns: u64,
    /// When the store answered.
    pub t_get_opts_done_ns: Option<u64>,
    /// When the read was handed to a thread that may block.
    pub t_blocking_enqueued_ns: Option<u64>,
    /// When that thread started.
    pub t_blocking_start_ns: Option<u64>,
    /// When the first bytes came.
    pub t_first_byte_ns: Option<u64>,
    /// How long the store took to answer, in nanoseconds.
    pub get_opts: Option<u128>,
    /// How long the read waited for a thread, in nanoseconds.
    pub blocking_queue: Option<u128>,
    /// How long the bytes took, in nanoseconds.
    pub service: Option<u128>,
    /// How long the first bytes took, in nanoseconds.
    pub first_byte: Option<u128>,
    /// The thread that read.
    pub blocking_worker_id: Option<u64>,
    /// The name of that thread.
    pub blocking_worker_name: Option<String>,
    /// The bytes that were read.
    pub bytes: usize,
    /// Whether the read ended.
    pub finished: bool,
}

/// What is reported of a read once it ended.
#[derive(Debug, PartialEq, Eq)]
pub struct ChildReport {
    /// The reader.
    pub read_at_id: u64,
    /// The place of the read among those of its call.
    pub child_index: usize,
    /// The read.
    pub request: ReadAtRequest,
    /// What the store answered with.
    pub payload: Payload,
    /// How the read ended.
    pub outcome: Outcome,
    /// Whether its consumer was gone by then.
    pub consumer_cancelled: bool,
    /// The bytes that were read.
    pub bytes: usize,
    /// When the read was begun.
    pub t_begin_ns: u64,
    /// When the store answered, or zero.
    pub t_get_opts_done_ns: u64,
    /// When the read was handed to a thread that may block, or zero.
    pub t_blocking_enqueued_ns: u64,
    /// When that thread started, or zero.
    pub t_blocking_start_ns: u64,
    /// When the first bytes came, or zero.
    pub t_first_byte_ns: u64,
    /// When the read ended.
    pub t_finish_ns: u64,
    /// How long the store took to answer, or zero.
    pub get_opts_ns: u64,
    /// How long the read waited for a thread, or zero.
    pub blocking_queue_ns: u64,
    /// How long the bytes took, or zero.
    pub service_ns: u64,
    /// How long the first bytes took, or zero.
    pub first_byte_ns: u64,
    /// The thread that read, or zero.
    pub blocking_worker_id: u64,
    /// Whether it is known how long the store took to answer.
    pub has_get_opts: bool,
    /// Whether it is known when the store answered.
    pub has_get_opts_done: bool,
    /// Whether the read was handed to a thread that may block.
    pub has_blocking_enqueued: bool,
    /// Whether that thread started.
    pub has_blocking_start: bool,
    /// Whether it is known how long the read waited for a thread.
    pub has_blocking_queue: bool,
    /// Whether it is known how long the bytes took.
    pub has_service: bool,
    /// Whether it is known how long the first bytes took.
    pub has_first_byte: bool,
    /// Whether the thread that read is known.
    pub has_blocking_worker_id: bool,
    /// The name of the thread that read, if it has one.
    pub blocking_worker_name: Option<String>,
}

/// The sum of three counters, as a counter that wraps around holds it.
pub open spec fn wrapped_sum(a: u64, b: u64, c: u64) -> int {
    let sum = a + b + c;
    let size: int = 0x1_0000_0000_0000_0000;
    if sum < size {
        sum
    } else if sum < 2 * size {
        sum - size
    } else {
        sum - 2 * size
    }
}

/// A sum of counters wraps around as its counters do.
proof fn lemma_wrapped_sum(a: u64, b: u64, c: u64, sum: u64)
    requires
        sum == wrapped_sum(a, b, c),
    ensures
        sum.wrapping_add(1) == wrapped_sum(a.wrapping_add(1), b, c),
        sum.wrapping_add(1) == wrapped_sum(a, b.wrapping_add(1), c),
        sum.wrapping_add(1) == wrapped_sum(a, b, c.wrapping_add(1)),
{
}

impl DiagnosticSummary {
    /// Nothing was recorded of the reader yet.
    pub open spec fn fresh(reader_id: u64) -> DiagnosticSummary {
        DiagnosticSummary {
            reader_id,
            direct_read_calls: 0,
            read_ranges_calls: 0,
            children: 0,
            terminals: 0,
            successes: 0,
            errors: 0,
            physical_cancellations: 0,
            consumer_cancellations: 0,
            requested_bytes: 0,
            completed_bytes: 0,
            file_payloads: 0,
            stream_payloads: 0,
            no_payloads: 0,
            get_opts_observations: 0,
            get_opts_ns: 0,
            blocking_queue_observations: 0,
            blocking_queue_ns: 0,
            service_observations: 0,
            service_ns: 0,
        }
    }

    /// Nothing was recorded of the reader yet.
    pub fn new(reader_id: u64) -> (summary: Self)
        ensures
            summary == Self::fresh(reader_id),
    {
        DiagnosticSummary {
            reader_id,
            direct_read_calls: 0,
            read_ranges_calls: 0,
            children: 0,
            terminals: 0,
            successes: 0,
            errors: 0,
            physical_cancellations: 0,
            consumer_cancellations: 0,
            requested_bytes: 0,
            completed_bytes: 0,
            file_payloads: 0,
            stream_payloads: 0,
            no_payloads: 0,
            get_opts_observations: 0,
            get_opts_ns: 0,
            blocking_queue_observations: 0,
            blocking_queue_ns: 0,
            service_observations: 0,
            service_ns: 0,
        }
    }

    /// The summary once a read of so many bytes was begun.
    pub open spec fn after_begin(self, length: usize) -> DiagnosticSummary {
        DiagnosticSummary {
            children: self.children.wrapping_add(1),
            requested_bytes: self.requested_bytes.wrapping_add(length as u64),
            ..self
        }
    }

    /// The summary once a read ended.
    pub open spec fn after_finish(
        self,
        terminal: ChildTerminal,
        outcome: Outcome,
    ) -> DiagnosticSummary {
        DiagnosticSummary {
            terminals: self.terminals.wrapping_add(1),
            successes: if outcome is Success {
                self.successes.wrapping_add(1)
            } else {
                self.successes
            },
            errors: if outcome is Error {
                self.errors.wrapping_add(1)
            } else {
                self.errors
            },
            physical_cancellations: if outcome is Cancel {
                self.physical_cancellations.wrapping_add(1)
            } else {
                self.physical_cancellations
            },
            completed_bytes: self.completed_bytes.wrapping_add(terminal.bytes as u64),
            no_payloads: if terminal.payload is Nothing {
                self.no_payloads.wrapping_add(1)
            } else {
                self.no_payloads
            },
            file_payloads: if terminal.payload is File {
                self.file_payloads.wrapping_add(1)
            } else {
                self.file_payloads
            },
            stream_payloads: if terminal.payload is Stream {
                self.stream_payloads.wrapping_add(1)
            } else {
                self.stream_payloads
            },
            get_opts_observations: observed(self.get_opts_observations, terminal.get_opts),
            get_opts_ns: accumulated(self.get_opts_ns, terminal.get_opts),
            blocking_queue_observations: observed(
                self.blocking_queue_observations,
                terminal.blocking_queue,
            ),
            blocking_queue_ns: accumulated(self.blocking_queue_ns, terminal.blocking_queue),
            service_observations: observed(self.service_observations, terminal.service),
            service_ns: accumulated(self.service_ns, terminal.service),
            ..self
        }
    }

    /// Whether every terminal is counted once by its outcome and once by its payload, where the
    /// counters wrap around.
    pub open spec fn balanced(self) -> bool {
        &&& self.terminals as int == wrapped_sum(
            self.successes,
            self.errors,
            self.physical_cancellations,
        )
        &&& self.terminals as int == wrapped_sum(
            self.file_payloads,
            self.stream_payloads,
            self.no_payloads,
        )
    }

    /// Every terminal is counted once by its outcome and once by its payload, whatever reads end.
    pub proof fn law_terminals_balance(
        self,
        reader_id: u64,
        length: usize,
        terminal: ChildTerminal,
        outcome: Outcome,
    )
        requires
            self.balanced(),
        ensures
            Self::fresh(reader_id).balanced(),
            self.after_begin(length).balanced(),
            self.after_finish(terminal, outcome).balanced(),
    {
        lemma_wrapped_sum(
            self.successes,
            self.errors,
            self.physical_cancellations,
            self.terminals,
        );
        lemma_wrapped_sum(
            self.file_payloads,
            self.stream_payloads,
            self.no_payloads,
            self.terminals,
        );
    }

    /// Count a call for a single range; the number of such calls before it names the call.
    pub fn direct_read(&mut self) -> (direct_read_id: u64)
        ensures
            direct_read_id == old(self).direct_read_calls,
            *final(self) == (DiagnosticSummary {
                direct_read_calls: old(self).direct_read_calls.wrapping_add(1),
                ..*old(self)
            }),
    {
        let direct_read_id: u64 = self.direct_read_calls;
        self.direct_read_calls = direct_read_id.wrapping_add(1);
        direct_read_id
    }

    /// Count a call for a list of ranges, and say how many of its reads are made at a time: none
    /// of an empty list, else at least one.
    pub fn read_ranges(&mut self, requests: usize, concurrency: usize) -> (at_once: usize)
        ensures
            *final(self) == (DiagnosticSummary {
                read_ranges_calls: old(self).read_ranges_calls.wrapping_add(1),
                ..*old(self)
            }),
            at_once == (if requests == 0 {
                0
            } else if concurrency == 0 {
                1
            } else {
                concurrency
            }),
    {
        self.read_ranges_calls = self.read_ranges_calls.wrapping_add(1);
        if requests == 0 {
            0
        } else if concurrency == 0 {
            1
        } else {
            concurrency
        }
    }

    /// The calls in all, or the largest word.
    pub fn read_calls(&self) -> (calls: u64)
        ensures
            calls == (if self.direct_read_calls + self.read_ranges_calls > u64::MAX {
                u64::MAX as int
            } else {
                self.direct_read_calls + self.read_ranges_calls
            }),
    {
        self.direct_read_calls.saturating_add(self.read_ranges_calls)
    }

    /// The consumer of a read is gone. It counts if the read had not ended.
    pub fn consumer_dropped(&mut self, lifecycle: &mut ChildLifecycle)
        ensures
            *final(lifecycle) == old(lifecycle).cancelled(),
            *final(self) == (DiagnosticSummary {
                consumer_cancellations: if *old(lifecycle) is Active {
                    old(self).consumer_cancellations.wrapping_add(1)
                } else {
                    old(self).consumer_cancellations
                },
                ..*old(self)
            }),
    {
        if lifecycle.cancel_consumer() {
            self.consumer_cancellations = self.consumer_cancellations.wrapping_add(1);
        }
    }
}

impl ChildTerminal {
    /// A read that was begun.
    pub open spec fn begun(child_index: usize, request: ReadAtRequest, t_begin_ns: u64) -> Self {
        ChildTerminal {
            child_index,
            request,
            payload: Payload::Nothing,
            t_begin_ns,
            t_get_opts_done_ns: None,
            t_blocking_enqueued_ns: None,
            t_blocking_start_ns: None,
            t_first_byte_ns: None,
            get_opts: None,
            blocking_queue: None,
            service: None,
            first_byte: None,
            blocking_worker_id: None,
            blocking_worker_name: None,
            bytes: 0,
            finished: false,
        }
    }

    /// Begin a read.
    pub fn new(
        summary: &mut DiagnosticSummary,
        child_index: usize,
        request: ReadAtRequest,
        t_begin_ns: u64,
    ) -> (terminal: Self)
        ensures
            terminal == Self::begun(child_index, request, t_begin_ns),
            *final(summary) == old(summary).after_begin(request.length),
    {
        summary.children = summary.children.wrapping_add(1);
        summary.requested_bytes = summary.requested_bytes.wrapping_add(request.length as u64);
        ChildTerminal {
            child_index,
            request,
            payload: Payload::Nothing,
            t_begin_ns,
            t_get_opts_done_ns: None,
            t_blocking_enqueued_ns: None,
            t_blocking_start_ns: None,
            t_first_byte_ns: None,
            get_opts: None,
            blocking_queue: None,
            service: None,
            first_byte: None,
            blocking_worker_id: None,
            blocking_worker_name: None,
            bytes: 0,
            finished: false,
        }
    }

    /// What is reported of the read once it ended.
    pub open spec fn report(
        self,
        read_at_id: u64,
        lifecycle: ChildLifecycle,
        outcome: Outcome,
        t_finish_ns: u64,
    ) -> ChildReport {
        ChildReport {
            read_at_id,
            child_index: self.child_index,
            request: self.request,
            payload: self.payload,
            outcome,
            consumer_cancelled: lifecycle.consumer_cancelled(),
            bytes: self.bytes,
            t_begin_ns: self.t_begin_ns,
            t_get_opts_done_ns: or_zero(self.t_get_opts_done_ns),
            t_blocking_enqueued_ns: or_zero(self.t_blocking_enqueued_ns),
            t_blocking_start_ns: or_zero(self.t_blocking_start_ns),
            t_first_byte_ns: or_zero(self.t_first_byte_ns),
            t_finish_ns,
            get_opts_ns: duration_ns_spec(self.get_opts),
            blocking_queue_ns: duration_ns_spec(self.blocking_queue),
            service_ns: duration_ns_spec(self.service),
            first_byte_ns: duration_ns_spec(self.first_byte),
            blocking_worker_id: or_zero(self.blocking_worker_id),
            has_get_opts: self.get_opts is Some,
            has_get_opts_done: self.t_get_opts_done_ns is Some,
            has_blocking_enqueued: self.t_blocking_enqueued_ns is Some,
            has_blocking_start: self.t_blocking_start_ns is Some,
            has_blocking_queue: self.blocking_queue is Some,
            has_service: self.service is Some,
            has_first_byte: self.first_byte is Some,
            has_blocking_worker_id: self.blocking_worker_id is Some,
            blocking_worker_name: self.blocking_worker_name,
        }
    }

    /// End the read.
    pub fn finish(
        &mut self,
        summary: &mut DiagnosticSummary,
        lifecycle: &mut ChildLifecycle,
        outcome: Outcome,
        t_finish_ns: u64,
    ) -> (report: ChildReport)
        ensures
            *final(self) == (ChildTerminal { finished: true, ..*old(self) }),
            *final(summary) == old(summary).after_finish(*old(self), outcome),
            *final(lifecycle) == old(lifecycle).finished(),
            report == old(self).report(
                old(summary).reader_id,
                *old(lifecycle),
                outcome,
                t_finish_ns,
            ),
    {
        match outcome {
            Outcome::Success => {
                summary.successes = summary.successes.wrapping_add(1);
            },
            Outcome::Error(_) => {
                summary.errors = summary.errors.wrapping_add(1);
            },
            Outcome::Cancel => {
                summary.physical_cancellations = summary.physical_cancellations.wrapping_add(1);
            },
        }
        let consumer_cancelled: bool = lifecycle.finish();
        let (observations, ns): (u64, u64) = record_duration(
            summary.get_opts_observations,
            summary.get_opts_ns,
            self.get_opts,
        );
        summary.get_opts_observations = observations;
        summary.get_opts_ns = ns;
        let (observations, ns): (u64, u64) = record_duration(
            summary.blocking_queue_observations,
            summary.blocking_queue_ns,
            self.blocking_queue,
        );
        summary.blocking_queue_observations = observations;
        summary.blocking_queue_ns = ns;
        let (observations, ns): (u64, u64) = record_duration(
            summary.service_observations,
            summary.service_ns,
            self.service,
        );
        summary.service_observations = observations;
        summary.service_ns = ns;
        summary.terminals = summary.terminals.wrapping_add(1);
        summary.completed_bytes = summary.completed_bytes.wrapping_add(self.bytes as u64);
        match self.payload {
            Payload::Nothing => {
                summary.no_payloads = summary.no_payloads.wrapping_add(1);
            },
            Payload::File => {
                summary.file_payloads = summary.file_payloads.wrapping_add(1);
            },
            Payload::Stream => {
                summary.stream_payloads = summary.stream_payloads.wrapping_add(1);
            },
        }
        let report = ChildReport {
            read_at_id: summary.reader_id,
            child_index: self.child_index,
            request: self.request,
            payload: self.payload,
            outcome,
            consumer_cancelled,
            bytes: self.bytes,
            t_begin_ns: self.t_begin_ns,
            t_get_opts_done_ns: unwrap_or_zero(self.t_get_opts_done_ns),
            t_blocking_enqueued_ns: unwrap_or_zero(self.t_blocking_enqueued_ns),
            t_blocking_start_ns: unwrap_or_zero(self.t_blocking_start_ns),
            t_first_byte_ns: unwrap_or_zero(self.t_first_byte_ns),
            t_finish_ns,
            get_opts_ns: duration_ns(self.get_opts),
            blocking_queue_ns: duration_ns(self.blocking_queue),
            service_ns: duration_ns(self.service),
            first_byte_ns: duration_ns(self.first_byte),
            blocking_worker_id: unwrap_or_zero(self.blocking_worker_id),
            has_get_opts: self.get_opts.is_some(),
            has_get_opts_done: self.t_get_opts_done_ns.is_some(),
            has_blocking_enqueued: self.t_blocking_enqueued_ns.is_some(),
            has_blocking_start: self.t_blocking_start_ns.is_some(),
            has_blocking_queue: self.blocking_queue.is_some(),
            has_service: self.service.is_some(),
            has_first_byte: self.first_byte.is_some(),
            has_blocking_worker_id: self.blocking_worker_id.is_some(),
            blocking_worker_name: match &self.blocking_worker_name {
                Some(name) => Some(name.clone()),
                None => None,
            },
        };
        self.finished = true;
        report
    }

    /// The read is gone: one that had not ended is cancelled, one that had is not counted again.
    pub fn dropped(
        self,
        summary: &mut DiagnosticSummary,
        lifecycle: &mut ChildLifecycle,
        t_finish_ns: u64,
    ) -> (report: Option<ChildReport>)
        ensures
            if self.finished {
                report is None && *final(summary) == *old(summary) && *final(lifecycle) == *old(
                    lifecycle,
                )
            } else {
                &&& report == Some(
                    self.report(
                        old(summary).reader_id,
                        *old(lifecycle),
                        Outcome::Cancel,
                        t_finish_ns,
                    ),
                )
                &&& *final(summary) == old(summary).after_finish(self, Outcome::Cancel)
                &&& *final(lifecycle) == old(lifecycle).finished()
            },
    {
        if self.finished {
            return None;
        }
        let mut terminal = self;
        Some(terminal.finish(summary, lifecycle, Outcome::Cancel, t_finish_ns))
    }
}

/// What a read waits for.
pub enum ReadPhase {
    /// A buffer.
    Allocating,
    /// The store's answer.
    Requesting,
    /// A thread that may block.
    Queued,
    /// That thread's read of the file.
    Blocking,
    /// The bytes of a stream.
    Streaming(StreamAssembly),
    /// Nothing: it ended.
    Done,
}

/// A read that is recorded.
pub struct DiagnosticRead {
    /// What is recorded of it.
    pub terminal: ChildTerminal,
    /// The range that is read.
    pub range: ByteRange,
    /// What it waits for.
    pub phase: ReadPhase,
}

/// What happens to a read.
pub enum ReadEvent<'a> {
    /// There is a buffer.
    Allocated,
    /// There is no buffer.
    AllocationFailed(u64),
    /// The store answered.
    Answered {
        /// With a file, or with a stream.
        file: bool,
        /// After so many nanoseconds.
        elapsed: u128,
        /// At this time.
        at: u64,
        /// When the read of a file was handed on.
        enqueued_at: u64,
    },
    /// The store did not answer.
    AnswerFailed {
        /// Why.
        reason: u64,
        /// After so many nanoseconds.
        elapsed: u128,
        /// At this time.
        at: u64,
    },
    /// A thread took the read.
    BlockingStarted {
        /// After so many nanoseconds.
        queued: u128,
        /// At this time.
        at: u64,
        /// The thread.
        worker: u64,
        /// Its name.
        name: Option<String>,
    },
    /// The file was read, or not.
    BlockingRead {
        /// The bytes, or why there are none.
        result: Result<Vec<u8>, u64>,
        /// After so many nanoseconds.
        elapsed: u128,
    },
    /// The stream delivered bytes.
    Chunk {
        /// The bytes.
        bytes: &'a [u8],
        /// After so many nanoseconds.
        elapsed: u128,
        /// At this time.
        at: u64,
    },
    /// The stream failed.
    ChunkFailed {
        /// Why.
        reason: u64,
        /// After so many nanoseconds.
        elapsed: u128,
    },
    /// The stream ended.
    StreamEnded {
        /// After so many nanoseconds.
        elapsed: u128,
    },
}

/// What a read asks for next.
pub enum ReadAction {
    /// To ask the store for a range.
    GetOpts(ByteRange),
    /// To hand the read of the file, at a position, to a thread that may block.
    Enqueue(u64),
    /// To read the file.
    Pread,
    /// The next bytes of the stream.
    NextChunk,
    /// Nothing: it ended with these bytes or with an error, and this is reported.
    Finished(Result<Vec<u8>, ReadError>, ChildReport),
}

/// The value in an option, or another.
pub open spec fn or_else<T>(value: Option<T>, other: T) -> Option<T> {
    match value {
        Some(value) => Some(value),
        None => Some(other),
    }
}

impl<'a> ReadEvent<'a> {
    /// Whether the event can happen to a read that waits for what `phase` says.
    pub open spec fn fits(self, phase: ReadPhase) -> bool {
        match self {
            ReadEvent::Allocated | ReadEvent::AllocationFailed(_) => phase is Allocating,
            ReadEvent::Answered { .. } | ReadEvent::AnswerFailed { .. } => phase is Requesting,
            ReadEvent::BlockingStarted { .. } => phase is Queued,
            ReadEvent::BlockingRead { .. } => phase is Blocking,
            ReadEvent::Chunk { .. } | ReadEvent::ChunkFailed { .. } | ReadEvent::StreamEnded {
                ..
            } => phase is Streaming && phase->Streaming_0.wf(),
        }
    }

    /// What is recorded once the event happened.
    pub open spec fn recorded(self, terminal: ChildTerminal, phase: ReadPhase) -> ChildTerminal {
        match self {
            ReadEvent::Allocated | ReadEvent::AllocationFailed(_) => terminal,
            ReadEvent::Answered { file, elapsed, at, enqueued_at } => ChildTerminal {
                payload: if file {
                    Payload::File
                } else {
                    Payload::Stream
                },
                get_opts: Some(elapsed),
                t_get_opts_done_ns: Some(at),
                t_blocking_enqueued_ns: if file {
                    Some(enqueued_at)
                } else {
                    terminal.t_blocking_enqueued_ns
                },
                ..terminal
            },
            ReadEvent::AnswerFailed { elapsed, at, .. } => ChildTerminal {
                get_opts: Some(elapsed),
                t_get_opts_done_ns: Some(at),
                ..terminal
            },
            ReadEvent::BlockingStarted { queued, at, worker, name } => ChildTerminal {
                blocking_queue: Some(queued),
                t_blocking_start_ns: Some(at),
                blocking_worker_id: Some(worker),
                blocking_worker_name: name,
                ..terminal
            },
            ReadEvent::BlockingRead { result, elapsed } => ChildTerminal {
                service: Some(elapsed),
                bytes: match result {
                    Ok(bytes) => bytes@.len() as usize,
                    Err(_) => terminal.bytes,
                },
                ..terminal
            },
            ReadEvent::Chunk { bytes, elapsed, at } => {
                let assembly = phase->Streaming_0;
                let excess = assembly.excess(bytes@.len() as int) is Some;
                ChildTerminal {
                    first_byte: or_else(terminal.first_byte, elapsed),
                    t_first_byte_ns: or_else(terminal.t_first_byte_ns, at),
                    service: if excess {
                        Some(elapsed)
                    } else {
                        terminal.service
                    },
                    bytes: if excess {
                        terminal.bytes
                    } else {
                        (assembly.buffer@.len() + bytes@.len()) as usize
                    },
                    ..terminal
                }
            },
            ReadEvent::ChunkFailed { elapsed, .. } | ReadEvent::StreamEnded { elapsed } =>
                ChildTerminal {
                service: Some(elapsed),
                bytes: if self is StreamEnded && phase->Streaming_0.buffer@.len()
                    == phase->Streaming_0.length {
                    phase->Streaming_0.length
                } else {
                    terminal.bytes
                },
                ..terminal
            },
        }
    }

    /// How the event ends the read, if it does: with bytes, or with an error at a stage.
    pub open spec fn ending(self, phase: ReadPhase) -> Option<
        Result<Seq<u8>, (ReadError, Stage)>,
    > {
        match self {
            ReadEvent::AllocationFailed(reason) => Some(
                Err((ReadError::Outside(reason), Stage::Allocate)),
            ),
            ReadEvent::AnswerFailed { reason, .. } => Some(
                Err((ReadError::Outside(reason), Stage::GetOpts)),
            ),
            ReadEvent::BlockingRead { result, .. } => Some(
                match result {
                    Ok(bytes) => Ok(bytes@),
                    Err(reason) => Err((ReadError::Outside(reason), Stage::Pread)),
                },
            ),
            ReadEvent::Chunk { bytes, .. } => match phase->Streaming_0.excess(bytes@.len() as int) {
                Some(error) => Some(Err((error, Stage::Stream))),
                None => None,
            },
            ReadEvent::ChunkFailed { reason, .. } => Some(
                Err((ReadError::Outside(reason), Stage::Stream)),
            ),
            ReadEvent::StreamEnded { .. } => {
                let assembly = phase->Streaming_0;
                if assembly.buffer@.len() == assembly.length {
                    Some(Ok(assembly.buffer@))
                } else {
                    Some(
                        Err(
                            (
                                ReadError::TooFewBytes {
                                    delivered: assembly.buffer@.len() as usize,
                                    expected: assembly.length,
                                    range: assembly.range,
                                },
                                Stage::Stream,
                            ),
                        ),
                    )
                }
            },
            _ => None,
        }
    }
}

/// Begin a read that is recorded. A range that ends beyond the largest position ends it at once.
pub fn begin_diagnostic_read(
    summary: &mut DiagnosticSummary,
    lifecycle: &mut ChildLifecycle,
    child_index: usize,
    request: ReadAtRequest,
    t_begin_ns: u64,
    t_finish_ns: u64,
) -> (read: Result<DiagnosticRead, (ReadError, ChildReport)>)
    ensures
        match request.range_spec() {
            Some(range) => {
                &&& read matches Ok(read) && read.terminal == ChildTerminal::begun(
                    child_index,
                    request,
                    t_begin_ns,
                ) && read.range == range && read.phase is Allocating
                &&& *final(summary) == old(summary).after_begin(request.length)
                &&& *final(lifecycle) == *old(lifecycle)
            },
            None => {
                let terminal = ChildTerminal::begun(child_index, request, t_begin_ns);
                let outcome = Outcome::Error(Stage::Range);
                &&& read == Err::<DiagnosticRead, _>(
                    (
                        ReadError::RangeOverflow,
                        terminal.report(
                            old(summary).reader_id,
                            *old(lifecycle),
                            outcome,
                            t_finish_ns,
                        ),
                    ),
                )
                &&& *final(summary) == old(summary).after_begin(request.length).after_finish(
                    terminal,
                    outcome,
                )
                &&& *final(lifecycle) == old(lifecycle).finished()
            },
        },
{
    let mut terminal = ChildTerminal::new(summary, child_index, request, t_begin_ns);
    match request.range() {
        Ok(range) => Ok(DiagnosticRead { terminal, range, phase: ReadPhase::Allocating }),
        Err(error) => {
            let report = terminal.finish(
                summary,
                lifecycle,
                Outcome::Error(Stage::Range),
                t_finish_ns,
            );
            Err((error, report))
        },
    }
}

impl DiagnosticRead {
    /// End the read with an error.
    fn fail(
        &mut self,
        summary: &mut DiagnosticSummary,
        lifecycle: &mut ChildLifecycle,
        error: ReadError,
        stage: Stage,
        t_finish_ns: u64,
    ) -> (action: ReadAction)
        ensures
            action == ReadAction::Finished(
                Err(error),
                old(self).terminal.report(
                    old(summary).reader_id,
                    *old(lifecycle),
                    Outcome::Error(stage),
                    t_finish_ns,
                ),
            ),
            final(self).terminal == (ChildTerminal { finished: true, ..old(self).terminal }),
            final(self).range == old(self).range,
            final(self).phase is Done,
            *final(summary) == old(summary).after_finish(
                old(self).terminal,
                Outcome::Error(stage),
            ),
            *final(lifecycle) == old(lifecycle).finished(),
    {
        let report = self.terminal.finish(summary, lifecycle, Outcome::Error(stage), t_finish_ns);
        self.phase = ReadPhase::Done;
        ReadAction::Finished(Err(error), report)
    }

    /// End the read with its bytes.
    fn succeed(
        &mut self,
        summary: &mut DiagnosticSummary,
        lifecycle: &mut ChildLifecycle,
        bytes: Vec<u8>,
        t_finish_ns: u64,
    ) -> (action: ReadAction)
        ensures
            ({
                let terminal = ChildTerminal {
                    bytes: bytes@.len() as usize,
                    ..old(self).terminal
                };
                &&& action == ReadAction::Finished(
                    Ok(bytes),
                    terminal.report(
                        old(summary).reader_id,
                        *old(lifecycle),
                        Outcome::Success,
                        t_finish_ns,
                    ),
                )
                &&& final(self).terminal == (ChildTerminal { finished: true, ..terminal })
                &&& *final(summary) == old(summary).after_finish(terminal, Outcome::Success)
            }),
            final(self).range == old(self).range,
            final(self).phase is Done,
            *final(lifecycle) == old(lifecycle).finished(),
    {
        self.terminal.bytes = bytes.len();
        let report = self.terminal.finish(summary, lifecycle, Outcome::Success, t_finish_ns);
        self.phase = ReadPhase::Done;
        ReadAction::Finished(Ok(bytes), report)
    }
}

/// What a read that is recorded asks for next, once an event happened to it. A read that ends is
/// counted and reported at once; the terminal records all that is known by then.
pub fn read_diagnostic_object_store_range<'a>(
    read: &mut DiagnosticRead,
    summary: &mut DiagnosticSummary,
    lifecycle: &mut ChildLifecycle,
    event: ReadEvent<'a>,
    t_finish_ns: u64,
) -> (action: ReadAction)
    requires
        event.fits(old(read).phase),
    ensures
        final(read).range == old(read).range,
        ({
            let terminal = event.recorded(old(read).terminal, old(read).phase);
            match event.ending(old(read).phase) {
                Some(result) => {
                    let outcome = match result {
                        Ok(_) => Outcome::Success,
                        Err((_, stage)) => Outcome::Error(stage),
                    };
                    &&& action is Finished
                    &&& action->Finished_1 == terminal.report(
                        old(summary).reader_id,
                        *old(lifecycle),
                        outcome,
                        t_finish_ns,
                    )
                    &&& match result {
                        Ok(bytes) => action->Finished_0 is Ok && action->Finished_0->Ok_0@ == bytes,
                        Err((error, _)) => action->Finished_0 == Err::<Vec<u8>, _>(error),
                    }
                    &&& final(read).terminal == (ChildTerminal { finished: true, ..terminal })
                    &&& final(read).phase is Done
                    &&& *final(summary) == old(summary).after_finish(terminal, outcome)
                    &&& *final(lifecycle) == old(lifecycle).finished()
                },
                None => {
                    &&& final(read).terminal == terminal
                    &&& *final(summary) == *old(summary)
                    &&& *final(lifecycle) == *old(lifecycle)
                    &&& match event {
                        ReadEvent::Allocated => action == ReadAction::GetOpts(old(read).range)
                            && final(read).phase is Requesting,
                        ReadEvent::Answered { file: true, .. } => action == ReadAction::Enqueue(
                            old(read).range.start,
                        ) && final(read).phase is Queued,
                        ReadEvent::Answered { .. } => {
                            &&& action is NextChunk
                            &&& final(read).phase matches ReadPhase::Streaming(assembly)
                                && assembly.wf() && assembly.buffer@ == Seq::<u8>::empty()
                                && assembly.length == old(read).terminal.request.length
                                && assembly.range == old(read).range
                        },
                        ReadEvent::BlockingStarted { .. } => action is Pread
                            && final(read).phase is Blocking,
                        ReadEvent::Chunk { bytes, .. } => {
                            let before = old(read).phase->Streaming_0;
                            &&& action is NextChunk
                            &&& final(read).phase matches ReadPhase::Streaming(assembly)
                                && assembly.wf() && assembly.buffer@ == before.buffer@ + bytes@
                                && assembly.length == before.length && assembly.range
                                == before.range
                        },
                        _ => true,
                    }
                },
            }
        }),
{
    match event {
        ReadEvent::Allocated => {
            read.phase = ReadPhase::Requesting;
            ReadAction::GetOpts(read.range)
        },
        ReadEvent::AllocationFailed(reason) => read.fail(
            summary,
            lifecycle,
            ReadError::Outside(reason),
            Stage::Allocate,
            t_finish_ns,
        ),
        ReadEvent::Answered { file, elapsed, at, enqueued_at } => {
            read.terminal.get_opts = Some(elapsed);
            read.terminal.t_get_opts_done_ns = Some(at);
            if file {
                read.terminal.payload = Payload::File;
                read.terminal.t_blocking_enqueued_ns = Some(enqueued_at);
                read.phase = ReadPhase::Queued;
                ReadAction::Enqueue(read.range.start)
            } else {
                read.terminal.payload = Payload::Stream;
                read.phase = ReadPhase::Streaming(
                    StreamAssembly::new(read.terminal.request.length, read.range),
                );
                ReadAction::NextChunk
            }
        },
        ReadEvent::AnswerFailed { reason, elapsed, at } => {
            read.terminal.get_opts = Some(elapsed);
            read.terminal.t_get_opts_done_ns = Some(at);
            read.fail(
                summary,
                lifecycle,
                ReadError::Outside(reason),
                Stage::GetOpts,
                t_finish_ns,
            )
        },
        ReadEvent::BlockingStarted { queued, at, worker, name } => {
            read.terminal.blocking_queue = Some(queued);
            read.terminal.t_blocking_start_ns = Some(at);
            read.terminal.blocking_worker_id = Some(worker);
            read.terminal.blocking_worker_name = name;
            read.phase = ReadPhase::Blocking;
            ReadAction::Pread
        },
        ReadEvent::BlockingRead { result, elapsed } => {
            read.terminal.service = Some(elapsed);
            match result {
                Ok(bytes) => read.succeed(summary, lifecycle, bytes, t_finish_ns),
                Err(reason) => read.fail(
                    summary,
                    lifecycle,
                    ReadError::Outside(reason),
                    Stage::Pread,
                    t_finish_ns,
                ),
            }
        },
        ReadEvent::Chunk { bytes, elapsed, at } => {
            if read.terminal.first_byte.is_none() {
                read.terminal.first_byte = Some(elapsed);
            }
            if read.terminal.t_first_byte_ns.is_none() {
                read.terminal.t_first_byte_ns = Some(at);
            }
            match take_assembly(read) {
                Some(mut assembly) => match assembly.push(bytes) {
                    Ok(()) => {
                        read.terminal.bytes = assembly.buffer.len();
                        read.phase = ReadPhase::Streaming(assembly);
                        ReadAction::NextChunk
                    },
                    Err(error) => {
                        read.terminal.service = Some(elapsed);
                        read.fail(summary, lifecycle, error, Stage::Stream, t_finish_ns)
                    },
                },
                None => ReadAction::NextChunk,
            }
        },
        ReadEvent::ChunkFailed { reason, elapsed } => {
            read.terminal.service = Some(elapsed);
            read.fail(
                summary,
                lifecycle,
                ReadError::Outside(reason),
                Stage::Stream,
                t_finish_ns,
            )
        },
        ReadEvent::StreamEnded { elapsed } => {
            read.terminal.service = Some(elapsed);
            match take_assembly(read) {
                Some(assembly) => match assembly.finish() {
                    Ok(bytes) => read.succeed(summary, lifecycle, bytes, t_finish_ns),
                    Err(error) => read.fail(
                        summary,
                        lifecycle,
                        error,
                        Stage::Stream,
                        t_finish_ns,
                    ),
                },
                None => ReadAction::NextChunk,
            }
        },
    }
}

/// Every read that was begun ends in exactly one terminal: a beginning counts one child and no
/// terminal, an end counts one terminal and no child, and nothing happens to a read that ended.
pub proof fn law_one_terminal<'a>(
    event: ReadEvent<'a>,
    summary: DiagnosticSummary,
    length: usize,
    terminal: ChildTerminal,
    outcome: Outcome,
)
    ensures
        !event.fits(ReadPhase::Done),
        summary.after_begin(length).children == summary.children.wrapping_add(1),
        summary.after_begin(length).terminals == summary.terminals,
        summary.after_finish(terminal, outcome).children == summary.children,
        summary.after_finish(terminal, outcome).terminals == summary.terminals.wrapping_add(1),
{
}

/// A read of a stream succeeds if and only if the stream delivered all bytes that were asked for,
/// and then with exactly those bytes.
pub proof fn law_stream_result(assembly: StreamAssembly, elapsed: u128)
    requires
        assembly.wf(),
    ensures
        ({
            let ended = ReadEvent::StreamEnded { elapsed };
            let phase = ReadPhase::Streaming(assembly);
            &&& ended.fits(phase)
            &&& ended.ending(phase) is Some
            &&& ended.ending(phase)->Some_0 is Ok <==> assembly.buffer@.len() == assembly.length
            &&& ended.ending(phase) matches Some(Ok(bytes)) ==> bytes == assembly.buffer@
        }),
{
}

/// The bytes of a read that waits for those of a stream; it is left waiting for nothing.
fn take_assembly(read: &mut DiagnosticRead) -> (assembly: Option<StreamAssembly>)
    ensures
        assembly == (match old(read).phase {
            ReadPhase::Streaming(assembly) => Some(assembly),
            _ => None,
        }),
        *final(read) == (DiagnosticRead { phase: ReadPhase::Done, ..*old(read) }),
{
    let mut phase = ReadPhase::Done;
    core::mem::swap(&mut read.phase, &mut phase);
    match phase {
        ReadPhase::Streaming(assembly) => Some(assembly),
        _ => None,
    }
}

/// A source of reads that are recorded.
pub struct DiagnosticObjectStoreReadAt {
    /// The source.
    pub inner: ObjectStoreReadAt,
    /// What was recorded of its reads.
    pub diagnostics: DiagnosticSummary,
}

impl DiagnosticObjectStoreReadAt {
    /// A source with the default settings, of which nothing was recorded yet.
    pub fn new(path: String, object_storage: CoalesceConfig, reader_id: u64) -> (reader: Self)
        ensures
            reader.inner == (ObjectStoreReadAt {
                path,
                concurrency: DEFAULT_CONCURRENCY,
                coalesce_config: Some(object_storage),
            }),
            reader.diagnostics == DiagnosticSummary::fresh(reader_id),
    {
        DiagnosticObjectStoreReadAt {
            inner: ObjectStoreReadAt::new(path, object_storage),
            diagnostics: DiagnosticSummary::new(reader_id),
        }
    }
}

impl VortexReadAt for DiagnosticObjectStoreReadAt {
    open spec fn instance_id(&self) -> Option<u64> {
        Some(self.diagnostics.reader_id)
    }

    open spec fn name(&self) -> Option<Seq<char>> {
        self.inner.name()
    }

    open spec fn coalescing(&self) -> Option<CoalesceConfig> {
        self.inner.coalescing()
    }

    open spec fn at_once(&self) -> usize {
        self.inner.at_once()
    }

    fn diagnostic_instance_id(&self) -> Option<u64> {
        Some(self.diagnostics.reader_id)
    }

    fn uri(&self) -> Option<&String> {
        self.inner.uri()
    }

    fn coalesce_config(&self) -> Option<CoalesceConfig> {
        self.inner.coalesce_config()
    }

    fn concurrency(&self) -> usize {
        self.inner.concurrency()
    }
}

/// Whether a report tells a duration: that it was measured, and its nanoseconds, or the largest
/// number of them that it can tell.
pub open spec fn tells_duration(duration: Option<u128>, known: bool, ns: u64) -> bool {
    match duration {
        Some(nanos) => known && ns <= nanos && (ns == nanos || ns == u64::MAX),
        None => !known && ns == 0,
    }
}

/// Whether a report tells a number: that it is known, and the number.
pub open spec fn tells_number(value: Option<u64>, known: bool, number: u64) -> bool {
    match value {
        Some(value) => known && number == value,
        None => !known && number == 0,
    }
}

/// A report tells what was recorded of the read, each duration and each time as its own.
pub proof fn law_report_tells(
    terminal: ChildTerminal,
    read_at_id: u64,
    lifecycle: ChildLifecycle,
    outcome: Outcome,
    t_finish_ns: u64,
)
    ensures
        ({
            let report = terminal.report(read_at_id, lifecycle, outcome, t_finish_ns);
            &&& report.read_at_id == read_at_id
            &&& report.child_index == terminal.child_index
            &&& report.request == terminal.request
            &&& report.payload == terminal.payload
            &&& report.outcome == outcome
            &&& report.bytes == terminal.bytes
            &&& report.t_begin_ns == terminal.t_begin_ns
            &&& report.t_finish_ns == t_finish_ns
            &&& report.blocking_worker_name == terminal.blocking_worker_name
            &&& tells_duration(terminal.get_opts, report.has_get_opts, report.get_opts_ns)
            &&& tells_duration(
                terminal.blocking_queue,
                report.has_blocking_queue,
                report.blocking_queue_ns,
            )
            &&& tells_duration(terminal.service, report.has_service, report.service_ns)
            &&& tells_duration(terminal.first_byte, report.has_first_byte, report.first_byte_ns)
            &&& tells_number(
                terminal.t_get_opts_done_ns,
                report.has_get_opts_done,
                report.t_get_opts_done_ns,
            )
            &&& tells_number(
                terminal.t_blocking_enqueued_ns,
                report.has_blocking_enqueued,
                report.t_blocking_enqueued_ns,
            )
            &&& tells_number(
                terminal.t_blocking_start_ns,
                report.has_blocking_start,
                report.t_blocking_start_ns,
            )
            &&& tells_number(
                terminal.blocking_worker_id,
                report.has_blocking_worker_id,
                report.blocking_worker_id,
            )
            &&& terminal.t_first_byte_ns matches Some(at) ==> report.t_first_byte_ns == at
            &&& report.consumer_cancelled <==> lifecycle != ChildLifecycle::Active && lifecycle
                != ChildLifecycle::Finished
        }),
{
}

/// A read that ends moves the counter of its outcome and that of its payload, and no other counter
/// of outcomes or payloads.
pub proof fn law_end_is_counted(
    summary: DiagnosticSummary,
    terminal: ChildTerminal,
    outcome: Outcome,
)
    ensures
        ({
            let after = summary.after_finish(terminal, outcome);
            &&& after.successes != summary.successes <==> outcome is Success
            &&& after.errors != summary.errors <==> outcome is Error
            &&& after.physical_cancellations != summary.physical_cancellations <==> outcome is Cancel
            &&& after.file_payloads != summary.file_payloads <==> terminal.payload is File
            &&& after.stream_payloads != summary.stream_payloads <==> terminal.payload is Stream
            &&& after.no_payloads != summary.no_payloads <==> terminal.payload is Nothing
            &&& after.get_opts_observations != summary.get_opts_observations <==> terminal.get_opts
                is Some
            &&& after.blocking_queue_observations != summary.blocking_queue_observations
                <==> terminal.blocking_queue is Some
            &&& after.service_observations != summary.service_observations <==> terminal.service
                is Some
            &&& after.completed_bytes as int == (summary.completed_bytes + terminal.bytes)
                % 0x1_0000_0000_0000_0000
            &&& after.requested_bytes == summary.requested_bytes
            &&& after.direct_read_calls == summary.direct_read_calls
            &&& after.read_ranges_calls == summary.read_ranges_calls
            &&& after.consumer_cancellations == summary.consumer_cancellations
            &&& after.reader_id == summary.reader_id
        }),
{
}

/// What is recorded of a read stays: which read it is and when it was begun, and of the bytes of a
/// stream when the first ones came.
pub proof fn law_records_stay<'a>(event: ReadEvent<'a>, terminal: ChildTerminal, phase: ReadPhase)
    requires
        event.fits(phase),
    ensures
        ({
            let after = event.recorded(terminal, phase);
            &&& after.child_index == terminal.child_index
            &&& after.request == terminal.request
            &&& after.t_begin_ns == terminal.t_begin_ns
            &&& after.finished == terminal.finished
            &&& terminal.first_byte is Some ==> after.first_byte == terminal.first_byte
            &&& terminal.t_first_byte_ns is Some ==> after.t_first_byte_ns
                == terminal.t_first_byte_ns
            &&& phase is Streaming ==> after.payload == terminal.payload && after.get_opts
                == terminal.get_opts && after.blocking_queue == terminal.blocking_queue
            &&& event.ending(phase) is None && phase is Streaming ==> after.service
                == terminal.service && after.bytes >= phase->Streaming_0.buffer@.len()
            &&& event.ending(phase) is Some && phase is Streaming ==> after.service is Some
        }),
{
}

/// How a read ends: with the bytes of a file that was read, or of a stream that delivered them all;
/// with the reason of whatever failed outside; or because a stream delivered too many or too few
/// bytes. Nothing else ends it.
pub proof fn law_how_reads_end<'a>(event: ReadEvent<'a>, phase: ReadPhase)
    requires
        event.fits(phase),
    ensures
        match event.ending(phase) {
            Some(Ok(bytes)) => (event matches ReadEvent::BlockingRead { result: Ok(read), .. }
                && bytes == read@) || (event is StreamEnded && bytes
                == phase->Streaming_0.buffer@ && bytes.len() == phase->Streaming_0.length),
            Some(Err((error, stage))) => match event {
                ReadEvent::AllocationFailed(reason) => error == ReadError::Outside(reason) && stage
                    is Allocate,
                ReadEvent::AnswerFailed { reason, .. } => error == ReadError::Outside(reason)
                    && stage is GetOpts,
                ReadEvent::BlockingRead { result: Err(reason), .. } => error == ReadError::Outside(
                    reason,
                ) && stage is Pread,
                ReadEvent::ChunkFailed { reason, .. } => error == ReadError::Outside(reason)
                    && stage is Stream,
                ReadEvent::Chunk { bytes, .. } => stage is Stream
                    && phase->Streaming_0.buffer@.len() + bytes@.len() > phase->Streaming_0.length,
                ReadEvent::StreamEnded { .. } => stage is Stream
                    && phase->Streaming_0.buffer@.len() < phase->Streaming_0.length,
                _ => false,
            },
            None => match event {
                ReadEvent::Allocated | ReadEvent::Answered { .. } | ReadEvent::BlockingStarted {
                    ..
                } => true,
                ReadEvent::Chunk { bytes, .. } => phase->Streaming_0.buffer@.len() + bytes@.len()
                    <= phase->Streaming_0.length,
                _ => false,
            },
        },
{
}

} // verus!
