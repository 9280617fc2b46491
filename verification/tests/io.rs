use std::sync::Arc;

use vortex_verus::io::assembly::assemble;
use vortex_verus::io::assembly::ByteRange;
use vortex_verus::io::assembly::ReadAtRequest;
use vortex_verus::io::assembly::ReadError;
use vortex_verus::io::assembly::StreamAssembly;
use vortex_verus::io::device_read_at::forwarded_diagnostic_instance_id;
use vortex_verus::io::device_read_at::CopyDeviceReadAt;
use vortex_verus::io::device_read_at::DeviceStep;
use vortex_verus::io::device_read_at::Placement;
use vortex_verus::io::diagnostic_read_at::begin_diagnostic_read;
use vortex_verus::io::diagnostic_read_at::nanoseconds;
use vortex_verus::io::diagnostic_read_at::read_diagnostic_object_store_range;
use vortex_verus::io::diagnostic_read_at::ChildLifecycle;
use vortex_verus::io::diagnostic_read_at::ChildReport;
use vortex_verus::io::diagnostic_read_at::DiagnosticObjectStoreReadAt;
use vortex_verus::io::diagnostic_read_at::DiagnosticRead;
use vortex_verus::io::diagnostic_read_at::DiagnosticSummary;
use vortex_verus::io::diagnostic_read_at::Outcome;
use vortex_verus::io::diagnostic_read_at::Payload;
use vortex_verus::io::diagnostic_read_at::ReadAction;
use vortex_verus::io::diagnostic_read_at::ReadEvent;
use vortex_verus::io::diagnostic_read_at::Stage;
use vortex_verus::io::pooled_read_at::file_chunks;
use vortex_verus::io::pooled_read_at::PooledFileReadAtOptions;
use vortex_verus::io::pooled_read_at::FILE_READ_CHUNK_BYTES;
use vortex_verus::io::read_at::promoting_answered;
use vortex_verus::io::read_at::promoting_finished;
use vortex_verus::io::read_at::read_answered;
use vortex_verus::io::read_at::read_object_store_range;
use vortex_verus::io::read_at::read_promoting_object_store_range;
use vortex_verus::io::read_at::read_ranges;
use vortex_verus::io::read_at::CoalesceConfig;
use vortex_verus::io::read_at::FilePayloadPromotion;
use vortex_verus::io::read_at::FilePayloadPromotionState;
use vortex_verus::io::read_at::ObjectMeta;
use vortex_verus::io::read_at::ObjectStoreReadAt;
use vortex_verus::io::read_at::ReadBody;
use vortex_verus::io::read_at::ReadSource;
use vortex_verus::io::read_at::StorePayload;
use vortex_verus::io::read_at::VortexReadAt;
use vortex_verus::io::read_at::DEFAULT_CONCURRENCY;
use vortex_verus::io::segments::ReadAtNowait;
use vortex_verus::io::segments::SegmentSource;
use vortex_verus::kernels::EmbeddedKernel;
use vortex_verus::kernels::EmbeddedKernelSession;

const CONFIG: CoalesceConfig = CoalesceConfig {
    distance: 1 << 20,
    max_size: 16 << 20,
};

fn request(offset: u64, length: usize) -> ReadAtRequest {
    ReadAtRequest {
        offset,
        length,
        alignment: 1,
    }
}

fn range(start: u64, end: u64) -> ByteRange {
    ByteRange { start, end }
}

fn meta(size: u64) -> ObjectMeta {
    ObjectMeta {
        location: "data".to_string(),
        last_modified: 7,
        size,
        e_tag: Some("tag".to_string()),
        version: None,
    }
}

#[test]
fn pooled_file_read_options() {
    assert!(!PooledFileReadAtOptions::default().direct_io);
    assert!(
        PooledFileReadAtOptions::default()
            .with_direct_io()
            .direct_io
    );
}

const FILE_OFFSET: u64 = (1 << 32) + 37;

#[test]
fn chunks_preserve_bytes_and_offsets_in_reverse_completion_order() {
    for length in [
        FILE_READ_CHUNK_BYTES - 1,
        FILE_READ_CHUNK_BYTES,
        2 * FILE_READ_CHUNK_BYTES,
        2 * FILE_READ_CHUNK_BYTES + 19,
    ] {
        let mut expected = Vec::new();
        for start in (0..length).step_by(FILE_READ_CHUNK_BYTES) {
            expected.push((
                FILE_OFFSET + start as u64,
                (length - start).min(FILE_READ_CHUNK_BYTES),
            ));
        }
        let chunks = file_chunks(request(FILE_OFFSET, length)).expect("the range has an end");
        let mut requests: Vec<(u64, usize)> = chunks
            .iter()
            .rev()
            .map(|chunk| (chunk.offset, chunk.length))
            .collect();
        requests.sort_unstable();
        assert_eq!(requests, expected);
    }
}

#[test]
fn overflowing_range_fails_before_reading() {
    for length in [16, FILE_READ_CHUNK_BYTES + 1, usize::MAX] {
        assert_eq!(
            file_chunks(request(u64::MAX - 7, length)),
            Err(ReadError::RangeOverflow)
        );
    }
}

fn identified() -> DiagnosticObjectStoreReadAt {
    DiagnosticObjectStoreReadAt::new("data".to_string(), CONFIG, 73)
}

#[test]
fn copy_device_reader_forwards_diagnostic_instance_id() {
    assert_eq!(forwarded_diagnostic_instance_id(&identified()), Some(73));
    let reader = CopyDeviceReadAt::new(identified());
    assert_eq!(reader.diagnostic_instance_id(), Some(73));
    assert_eq!(reader.concurrency(), 192);
    assert_eq!(reader.uri().map(String::as_str), Some("data"));
    assert_eq!(reader.coalesce_config(), Some(CONFIG));
    assert_eq!(reader.after_read(Placement::Host), DeviceStep::CopyToDevice);
    assert_eq!(reader.after_read(Placement::Device), DeviceStep::Return);
}

#[test]
fn readers_are_built_with_defaults() {
    let reader = ObjectStoreReadAt::new("data".to_string(), CONFIG);
    assert_eq!(reader.concurrency(), DEFAULT_CONCURRENCY);
    assert_eq!(DEFAULT_CONCURRENCY, 192);
    assert_eq!(reader.coalesce_config(), Some(CONFIG));
    assert_eq!(reader.diagnostic_instance_id(), None);
    let smaller = CoalesceConfig {
        distance: 1,
        max_size: 2,
    };
    let reader = reader.with_concurrency(0).with_coalesce_config(smaller);
    assert_eq!(reader.uri().map(String::as_str), Some("data"));
    assert_eq!(reader.coalesce_config(), Some(smaller));
    assert_eq!(read_ranges(&vec![request(0, 1)], reader.concurrency()), 1);
    assert_eq!(read_ranges(&vec![], 8), 0);
    assert_eq!(read_ranges(&vec![request(0, 1)], 8), 8);
    let recorded = DiagnosticObjectStoreReadAt::new("data".to_string(), CONFIG, 41);
    assert_eq!(recorded.diagnostic_instance_id(), Some(41));
    assert_eq!(recorded.concurrency(), 192);
}

#[test]
fn streams_have_to_deliver_exactly_the_range() {
    let asked = range(10, 16);
    let chunks = vec![vec![1, 2], vec![], vec![3, 4, 5, 6]];
    assert_eq!(assemble(&chunks, 6, asked), Ok(vec![1, 2, 3, 4, 5, 6]));
    assert_eq!(
        assemble(&chunks, 5, asked),
        Err(ReadError::TooManyBytes {
            delivered: 6,
            expected: 5,
            range: asked,
        })
    );
    assert_eq!(
        assemble(&chunks, 7, asked),
        Err(ReadError::TooFewBytes {
            delivered: 6,
            expected: 7,
            range: asked,
        })
    );
    assert_eq!(read_object_store_range(request(10, 6)), asked);
    assert!(matches!(
        read_answered(request(10, 6), asked, StorePayload::File(5u8)),
        ReadBody::File(5)
    ));
    match read_answered::<u8>(request(10, 6), asked, StorePayload::Stream) {
        ReadBody::Stream(assembly) => assert_eq!(assembly.length, 6),
        ReadBody::File(_) => panic!("the store answered with a stream"),
    }
}

fn promotion() -> FilePayloadPromotion<u32> {
    FilePayloadPromotion::new(meta(100), true)
}

/// Asks for a range that no promoted file serves.
fn ask(promotion: &mut FilePayloadPromotion<u32>) {
    match read_promoting_object_store_range(promotion, request(0, 4)) {
        Ok(ReadSource::Store {
            range: asked,
            if_match,
            version,
        }) => {
            assert_eq!(asked, range(0, 4));
            assert_eq!(if_match.as_deref(), Some("tag"));
            assert!(version.is_none());
        }
        _ => panic!("nothing is promoted"),
    }
}

fn answer_range(
    promotion: &mut FilePayloadPromotion<u32>,
    answered: ByteRange,
    payload: StorePayload<u32>,
) -> Result<ReadBody<u32>, ReadError> {
    promoting_answered(
        promotion,
        request(0, 4),
        range(0, 4),
        answered,
        &meta(100),
        payload,
    )
}

fn answer(
    promotion: &mut FilePayloadPromotion<u32>,
    size: u64,
    payload: StorePayload<u32>,
) -> Result<ReadBody<u32>, ReadError> {
    promoting_answered(
        promotion,
        request(0, 4),
        range(0, 4),
        range(0, 4),
        &meta(size),
        payload,
    )
}

fn stream(promotion: &mut FilePayloadPromotion<u32>) -> StreamAssembly {
    match answer(promotion, 100, StorePayload::Stream) {
        Ok(ReadBody::Stream(assembly)) => assembly,
        _ => panic!("the stream is of the identified object"),
    }
}

#[test]
fn an_identified_file_is_promoted_and_serves_later_reads() {
    let mut promotion = promotion();
    ask(&mut promotion);
    assert!(matches!(
        answer(&mut promotion, 100, StorePayload::File(1)),
        Ok(ReadBody::File(1))
    ));
    assert!(matches!(
        answer(&mut promotion, 999, StorePayload::File(2)),
        Ok(ReadBody::File(1))
    ));
    assert!(matches!(
        read_promoting_object_store_range(&mut promotion, request(8, 4)),
        Ok(ReadSource::File(1, ByteRange { start: 8, end: 12 }))
    ));
    assert_eq!(promotion.installs, 1);
    assert_eq!(promotion.install_races, 1);
    assert_eq!(promotion.cache_hits, 1);
    assert_eq!(promotion.file_payloads, 2);
    assert_eq!(promotion.blocking_read_submissions, 3);
    assert_eq!(promotion.get_opts_calls, 1);
    assert_eq!(
        read_promoting_object_store_range(&mut promotion, request(u64::MAX, 4)).err(),
        Some(ReadError::RangeOverflow)
    );
}

#[test]
fn promoting_size_uses_frozen_metadata_without_head() {
    let reader = ObjectStoreReadAt::new("data".to_string(), CONFIG);
    let promoting = reader
        .into_file_payload_promoting::<u32>(meta(1234), false)
        .expect("the paths are the same");
    assert_eq!(promoting.size(), 1234);
    assert_eq!(promoting.uri().map(String::as_str), Some("data"));
    assert_eq!(promoting.diagnostic_instance_id(), None);
    let other = ObjectStoreReadAt::new("other".to_string(), CONFIG);
    assert_eq!(
        other
            .into_file_payload_promoting::<u32>(meta(1234), false)
            .err(),
        Some(ReadError::OtherPath)
    );
}

#[test]
fn stream_mismatch_does_not_disable_promotion() {
    let mut other_range = promotion();
    assert_eq!(
        answer_range(&mut other_range, range(1, 4), StorePayload::Stream).err(),
        Some(ReadError::OtherRange {
            answered: range(1, 4),
            asked: range(0, 4),
        })
    );
    assert!(matches!(
        other_range.state,
        FilePayloadPromotionState::Eligible
    ));
    assert!(matches!(
        answer(&mut other_range, 100, StorePayload::File(4)),
        Ok(ReadBody::File(4))
    ));
    let mut promotion = promotion();
    assert_eq!(
        answer(&mut promotion, 999, StorePayload::Stream).err(),
        Some(ReadError::IdentityChanged)
    );
    assert!(matches!(
        promotion.state,
        FilePayloadPromotionState::Eligible
    ));
    assert_eq!(promotion.identity_mismatches, 1);
    assert_eq!(
        answer(&mut promotion, 999, StorePayload::File(3)).err(),
        Some(ReadError::IdentityChanged)
    );
    assert!(matches!(
        answer(&mut promotion, 100, StorePayload::File(4)),
        Ok(ReadBody::File(4))
    ));
}

#[test]
fn matching_stream_installs_non_file_only_after_success() {
    let mut promotion = promotion();
    let mut assembly = stream(&mut promotion);
    assert!(matches!(
        promotion.state,
        FilePayloadPromotionState::Eligible
    ));
    assert_eq!(assembly.push(&[1, 2, 3, 4]), Ok(()));
    assert_eq!(
        promoting_finished(&mut promotion, assembly),
        Ok(vec![1, 2, 3, 4])
    );
    assert!(matches!(
        promotion.state,
        FilePayloadPromotionState::NonFile
    ));
    assert!(matches!(
        answer(&mut promotion, 100, StorePayload::File(9)),
        Ok(ReadBody::File(9))
    ));
    assert!(matches!(
        promotion.state,
        FilePayloadPromotionState::NonFile
    ));
}

#[test]
fn failed_or_short_stream_remains_eligible_and_retries() {
    let mut promotion = promotion();
    let mut assembly = stream(&mut promotion);
    assert_eq!(assembly.push(&[1, 2]), Ok(()));
    assert!(promoting_finished(&mut promotion, assembly).is_err());
    assert!(matches!(
        promotion.state,
        FilePayloadPromotionState::Eligible
    ));
    ask(&mut promotion);
}

#[test]
fn an_answer_about_another_range_is_a_mismatch() {
    let mut promotion = promotion();
    let body = promoting_answered(
        &mut promotion,
        request(0, 4),
        range(0, 4),
        range(0, 3),
        &meta(100),
        StorePayload::File(1),
    );
    assert_eq!(
        body.err(),
        Some(ReadError::OtherRange {
            answered: range(0, 3),
            asked: range(0, 4),
        })
    );
    assert_eq!(promotion.identity_mismatches, 1);
    let mut silent: FilePayloadPromotion<u32> = FilePayloadPromotion::new(meta(100), false);
    ask(&mut silent);
    assert_eq!(silent.get_opts_calls, 0);
}

struct Recorded {
    summary: DiagnosticSummary,
    lifecycle: ChildLifecycle,
    read: DiagnosticRead,
}

fn begin(length: usize) -> Recorded {
    let mut summary = DiagnosticSummary::new(3);
    let mut lifecycle = ChildLifecycle::Active;
    match begin_diagnostic_read(&mut summary, &mut lifecycle, 5, request(10, length), 100, 999) {
        Ok(read) => Recorded {
            summary,
            lifecycle,
            read,
        },
        Err(_) => panic!("the range has an end"),
    }
}

impl Recorded {
    fn step(&mut self, event: ReadEvent<'_>) -> ReadAction {
        read_diagnostic_object_store_range(
            &mut self.read,
            &mut self.summary,
            &mut self.lifecycle,
            event,
            999,
        )
    }

    fn finish(&mut self, event: ReadEvent<'_>) -> (Result<Vec<u8>, ReadError>, ChildReport) {
        match self.step(event) {
            ReadAction::Finished(result, report) => (result, report),
            _ => panic!("the event ends the read"),
        }
    }

    fn answered(&mut self, file: bool) {
        assert!(matches!(
            self.step(ReadEvent::Allocated),
            ReadAction::GetOpts(ByteRange { start: 10, end: 14 })
        ));
        let action = self.step(ReadEvent::Answered {
            file,
            elapsed: 20,
            at: 120,
            enqueued_at: 121,
        });
        if file {
            assert!(matches!(action, ReadAction::Enqueue(10)));
        } else {
            assert!(matches!(action, ReadAction::NextChunk));
        }
    }

    fn one_terminal(&self) {
        assert_eq!(self.summary.children, 1);
        assert_eq!(self.summary.terminals, 1);
        assert_eq!(
            self.summary.successes + self.summary.errors + self.summary.physical_cancellations,
            1
        );
        assert_eq!(
            self.summary.file_payloads + self.summary.stream_payloads + self.summary.no_payloads,
            1
        );
    }
}

#[test]
fn stream_success_has_one_terminal() {
    let mut recorded = begin(4);
    recorded.answered(false);
    assert!(matches!(
        recorded.step(ReadEvent::Chunk {
            bytes: &[1, 2],
            elapsed: 5,
            at: 125,
        }),
        ReadAction::NextChunk
    ));
    assert!(matches!(
        recorded.step(ReadEvent::Chunk {
            bytes: &[3, 4],
            elapsed: 8,
            at: 128,
        }),
        ReadAction::NextChunk
    ));
    let (result, report) = recorded.finish(ReadEvent::StreamEnded { elapsed: 9 });
    assert_eq!(result, Ok(vec![1, 2, 3, 4]));
    assert_eq!(report.outcome, Outcome::Success);
    assert_eq!(report.payload, Payload::Stream);
    assert_eq!(report.bytes, 4);
    assert_eq!(report.first_byte_ns, 5);
    assert_eq!(report.t_first_byte_ns, 125);
    assert_eq!(report.service_ns, 9);
    assert_eq!(report.get_opts_ns, 20);
    assert_eq!(report.read_at_id, 3);
    assert_eq!(report.child_index, 5);
    assert_eq!(report.t_blocking_enqueued_ns, 0);
    assert!(report.has_get_opts && report.has_get_opts_done);
    assert!(report.has_service && report.has_first_byte);
    assert!(!report.has_blocking_enqueued && !report.has_blocking_worker_id);
    assert_eq!(report.blocking_worker_name, None);
    assert!(!report.consumer_cancelled);
    recorded.one_terminal();
    assert_eq!(recorded.summary.completed_bytes, 4);
    assert_eq!(recorded.summary.requested_bytes, 4);
    assert_eq!(recorded.summary.service_ns, 9);
    let mut summary = recorded.summary;
    let mut lifecycle = recorded.lifecycle;
    assert!(recorded
        .read
        .terminal
        .dropped(&mut summary, &mut lifecycle, 1000)
        .is_none());
    assert_eq!(summary, recorded.summary);
}

#[test]
fn local_file_success_has_one_terminal() {
    let mut recorded = begin(4);
    recorded.answered(true);
    assert!(matches!(
        recorded.step(ReadEvent::BlockingStarted {
            queued: 4,
            at: 126,
            worker: 17,
            name: Some("io".to_string()),
        }),
        ReadAction::Pread
    ));
    let (result, report) = recorded.finish(ReadEvent::BlockingRead {
        result: Ok(vec![9, 8, 7, 6]),
        elapsed: 30,
    });
    assert_eq!(result, Ok(vec![9, 8, 7, 6]));
    assert_eq!(report.payload, Payload::File);
    assert_eq!(report.blocking_worker_id, 17);
    assert_eq!(report.blocking_queue_ns, 4);
    assert_eq!(report.t_blocking_start_ns, 126);
    assert!(report.has_blocking_enqueued && report.has_blocking_start);
    assert!(report.has_blocking_queue && report.has_blocking_worker_id);
    assert_eq!(report.blocking_worker_name.as_deref(), Some("io"));
    assert_eq!(recorded.read.terminal.blocking_worker_name.as_deref(), Some("io"));
    recorded.one_terminal();
    assert_eq!(recorded.summary.blocking_queue_observations, 1);
}

#[test]
fn get_opts_error_has_one_terminal() {
    let mut recorded = begin(4);
    assert!(matches!(
        recorded.step(ReadEvent::Allocated),
        ReadAction::GetOpts(_)
    ));
    let (result, report) = recorded.finish(ReadEvent::AnswerFailed {
        reason: 6,
        elapsed: 20,
        at: 120,
    });
    assert_eq!(result, Err(ReadError::Outside(6)));
    assert_eq!(report.outcome, Outcome::Error(Stage::GetOpts));
    assert_eq!(report.payload, Payload::Nothing);
    assert_eq!(Stage::GetOpts.as_str(), "get_opts");
    assert_eq!(report.outcome.as_str(), "error");
    assert_eq!(report.payload.as_str(), "none");
    recorded.one_terminal();
}

#[test]
fn stream_error_and_short_result_each_have_one_terminal() {
    let mut failing = begin(4);
    failing.answered(false);
    let (result, report) = failing.finish(ReadEvent::ChunkFailed {
        reason: 2,
        elapsed: 3,
    });
    assert_eq!(result, Err(ReadError::Outside(2)));
    assert_eq!(report.outcome, Outcome::Error(Stage::Stream));
    failing.one_terminal();

    let mut short = begin(4);
    short.answered(false);
    short.step(ReadEvent::Chunk {
        bytes: &[1],
        elapsed: 3,
        at: 123,
    });
    let (result, report) = short.finish(ReadEvent::StreamEnded { elapsed: 4 });
    assert_eq!(
        result,
        Err(ReadError::TooFewBytes {
            delivered: 1,
            expected: 4,
            range: range(10, 14),
        })
    );
    assert_eq!(report.bytes, 1);
    short.one_terminal();

    let mut long = begin(4);
    long.answered(false);
    let (result, report) = long.finish(ReadEvent::Chunk {
        bytes: &[1, 2, 3, 4, 5],
        elapsed: 3,
        at: 123,
    });
    assert_eq!(
        result,
        Err(ReadError::TooManyBytes {
            delivered: 5,
            expected: 4,
            range: range(10, 14),
        })
    );
    assert_eq!(report.bytes, 0);
    assert_eq!(report.service_ns, 3);
    long.one_terminal();
}

#[test]
fn pending_stream_cancellation_has_one_terminal() {
    let mut recorded = begin(4);
    recorded.answered(false);
    recorded.summary.consumer_dropped(&mut recorded.lifecycle);
    let report = recorded
        .read
        .terminal
        .dropped(&mut recorded.summary, &mut recorded.lifecycle, 500)
        .expect("the read had not ended");
    assert_eq!(report.outcome, Outcome::Cancel);
    assert!(report.consumer_cancelled);
    assert_eq!(report.t_finish_ns, 500);
    assert_eq!(recorded.summary.physical_cancellations, 1);
    assert_eq!(recorded.summary.consumer_cancellations, 1);
    assert_eq!(
        recorded.lifecycle,
        ChildLifecycle::FinishedAfterConsumerCancel
    );
}

#[test]
fn started_blocking_cancellation_keeps_physical_terminal_authoritative() {
    let mut recorded = begin(4);
    recorded.answered(true);
    recorded.step(ReadEvent::BlockingStarted {
        queued: 4,
        at: 126,
        worker: 17,
        name: None,
    });
    recorded.summary.consumer_dropped(&mut recorded.lifecycle);
    let (_, report) = recorded.finish(ReadEvent::BlockingRead {
        result: Ok(vec![0; 4]),
        elapsed: 30,
    });
    assert_eq!(report.outcome, Outcome::Success);
    assert!(report.consumer_cancelled);
    recorded.one_terminal();
    recorded.summary.consumer_dropped(&mut recorded.lifecycle);
    assert_eq!(recorded.summary.consumer_cancellations, 1);
}

#[test]
fn other_failures_have_one_terminal() {
    let mut recorded = begin(4);
    let (result, report) = recorded.finish(ReadEvent::AllocationFailed(8));
    assert_eq!(result, Err(ReadError::Outside(8)));
    assert_eq!(report.outcome, Outcome::Error(Stage::Allocate));
    recorded.one_terminal();

    let mut failing = begin(4);
    failing.answered(true);
    failing.step(ReadEvent::BlockingStarted {
        queued: 4,
        at: 126,
        worker: 17,
        name: None,
    });
    let (result, report) = failing.finish(ReadEvent::BlockingRead {
        result: Err(4),
        elapsed: 30,
    });
    assert_eq!(result, Err(ReadError::Outside(4)));
    assert_eq!(report.outcome, Outcome::Error(Stage::Pread));
    failing.one_terminal();

    let mut summary = DiagnosticSummary::new(3);
    let mut lifecycle = ChildLifecycle::Active;
    match begin_diagnostic_read(
        &mut summary,
        &mut lifecycle,
        0,
        request(u64::MAX, 1),
        100,
        101,
    ) {
        Err((error, report)) => {
            assert_eq!(error, ReadError::RangeOverflow);
            assert_eq!(report.outcome, Outcome::Error(Stage::Range));
        }
        Ok(_) => panic!("the range has no end"),
    }
    assert_eq!((summary.children, summary.terminals), (1, 1));
    assert_eq!(lifecycle, ChildLifecycle::Finished);
}

#[test]
fn never_polled_read_ranges_has_no_physical_children() {
    let mut summary = DiagnosticSummary::new(1);
    assert_eq!(summary.read_ranges(4, 0), 1);
    assert_eq!(summary.read_ranges(0, 9), 0);
    assert_eq!(summary.direct_read(), 0);
    assert_eq!(summary.direct_read(), 1);
    assert_eq!(summary.read_calls(), 4);
    assert_eq!(summary.children, 0);
}

#[test]
fn long_durations_are_the_largest_word() {
    assert_eq!(nanoseconds(7), 7);
    assert_eq!(nanoseconds(u128::from(u64::MAX) + 1), u64::MAX);
}

struct Numbered;

impl SegmentSource for Numbered {
    type Reply = u64;

    fn answers(&self, id: u64, reply: u64) -> bool {
        reply == id * 10
    }

    fn request(&self, id: u64) -> u64 {
        id * 10
    }
}

#[test]
fn segment_sources_read_on_demand_by_default() {
    let source = Arc::new(Numbered);
    assert_eq!(source.request(2), 20);
    assert_eq!(source.request_background(3), 30);
    assert_eq!(source.request_background_batch(&[1, 2, 3]), vec![10, 20, 30]);
    assert_eq!(source.request_nowait(1), Ok(ReadAtNowait::Unsupported));
    assert_eq!(source.diagnostic_instance_id(), None);
    assert!(!source.prefers_background_reads());
}

#[test]
fn embedded_kernels_are_carried() {
    let kernel = EmbeddedKernel::new("fastlanes.bitpacked".to_string(), 2, vec![0, 97, 115, 109]);
    assert_eq!(kernel.id(), "fastlanes.bitpacked");
    assert_eq!(kernel.abi_version(), 2);
    assert_eq!(kernel.module(), &[0, 97, 115, 109]);
    let none: EmbeddedKernelSession<u8> = EmbeddedKernelSession::default();
    assert!(none.loader().is_none());
    assert_eq!(EmbeddedKernelSession::new(7u8).loader(), Some(&7));
}
