//! Reads of an object, and the promotion of a file that a store answered with to a reader of all
//! later ranges.

use vstd::prelude::*;

use crate::io::assembly::ByteRange;
use crate::io::assembly::ReadAtRequest;
use crate::io::assembly::ReadError;
use crate::io::assembly::StreamAssembly;
use crate::location::text_of;

verus! {

/// Default number of concurrent requests to allow.
pub const DEFAULT_CONCURRENCY: usize = 192;

/// When reads that lie close together are made as one.
#[derive(Clone, Copy, Debug, PartialEq, Eq, Structural)]
pub struct CoalesceConfig {
    /// The largest gap that is read along.
    pub distance: u64,
    /// The largest read that is made.
    pub max_size: u64,
}

/// What identifies an object.
#[derive(Debug)]
pub struct ObjectMeta {
    /// Its path in the store.
    pub location: String,
    /// When it was last modified, in nanoseconds.
    pub last_modified: i128,
    /// Its size in bytes.
    pub size: u64,
    /// Its entity tag, if the store gives one.
    pub e_tag: Option<String>,
    /// Its version, if the store keeps versions.
    pub version: Option<String>,
}

/// What identifies an object, as contracts see it.
#[verifier::ext_equal]
pub struct MetaModel {
    /// Its path in the store.
    pub location: Seq<char>,
    /// When it was last modified, in nanoseconds.
    pub last_modified: i128,
    /// Its size in bytes.
    pub size: u64,
    /// Its entity tag, if the store gives one.
    pub e_tag: Option<Seq<char>>,
    /// Its version, if the store keeps versions.
    pub version: Option<Seq<char>>,
}

impl View for ObjectMeta {
    type V = MetaModel;

    open spec fn view(&self) -> MetaModel {
        MetaModel {
            location: self.location@,
            last_modified: self.last_modified,
            size: self.size,
            e_tag: text_of(self.e_tag),
            version: text_of(self.version),
        }
    }
}

fn same_optional(a: &Option<String>, b: &Option<String>) -> (same: bool)
    ensures
        same == (text_of(*a) == text_of(*b)),
{
    match (a, b) {
        (Some(a), Some(b)) => a.eq(b),
        (None, None) => true,
        _ => false,
    }
}

fn copy_optional(text: &Option<String>) -> (copy: Option<String>)
    ensures
        text_of(copy) == text_of(*text),
{
    match text {
        Some(text) => Some(text.clone()),
        None => None,
    }
}

impl ObjectMeta {
    /// Whether two identifications are the same.
    pub fn same(&self, other: &ObjectMeta) -> (same: bool)
        ensures
            same == (self@ == other@),
    {
        self.location.eq(&other.location) && self.last_modified == other.last_modified && self.size
            == other.size && same_optional(&self.e_tag, &other.e_tag) && same_optional(
            &self.version,
            &other.version,
        )
    }
}

/// A source of positional reads: what is known of it before a read.
pub trait VortexReadAt {
    /// The identity that correlates what is recorded of the source, if it has one.
    spec fn instance_id(&self) -> Option<u64>;

    /// What the source is known by, if it is.
    spec fn name(&self) -> Option<Seq<char>>;

    /// When reads that lie close together are made as one.
    spec fn coalescing(&self) -> Option<CoalesceConfig>;

    /// How many requests are made at a time.
    spec fn at_once(&self) -> usize;

    /// The identity that correlates what is recorded of the source, if it has one.
    fn diagnostic_instance_id(&self) -> (id: Option<u64>)
        ensures
            id == self.instance_id(),
    ;

    /// What the source is known by, if it is.
    fn uri(&self) -> (uri: Option<&String>)
        ensures
            match uri {
                Some(uri) => self.name() == Some(uri@),
                None => self.name() is None,
            },
    ;

    /// When reads that lie close together are made as one.
    fn coalesce_config(&self) -> (config: Option<CoalesceConfig>)
        ensures
            config == self.coalescing(),
    ;

    /// How many requests are made at a time.
    fn concurrency(&self) -> (concurrency: usize)
        ensures
            concurrency == self.at_once(),
    ;
}

/// An object store backed source of reads.
pub struct ObjectStoreReadAt {
    /// The object's path in the store.
    pub path: String,
    /// How many requests are made at a time.
    pub concurrency: usize,
    /// When reads that lie close together are made as one.
    pub coalesce_config: Option<CoalesceConfig>,
}

impl ObjectStoreReadAt {
    /// A source with the default concurrency, which coalesces reads as object stores like it.
    pub fn new(path: String, object_storage: CoalesceConfig) -> (reader: Self)
        ensures
            reader == (ObjectStoreReadAt {
                path,
                concurrency: DEFAULT_CONCURRENCY,
                coalesce_config: Some(object_storage),
            }),
    {
        ObjectStoreReadAt {
            path,
            concurrency: DEFAULT_CONCURRENCY,
            coalesce_config: Some(object_storage),
        }
    }

    /// Set the concurrency for this source.
    pub fn with_concurrency(self, concurrency: usize) -> (reader: Self)
        ensures
            reader == (ObjectStoreReadAt { concurrency, ..self }),
    {
        ObjectStoreReadAt { concurrency, ..self }
    }

    /// Set the coalesce config for this source.
    pub fn with_coalesce_config(self, config: CoalesceConfig) -> (reader: Self)
        ensures
            reader == (ObjectStoreReadAt { coalesce_config: Some(config), ..self }),
    {
        ObjectStoreReadAt { coalesce_config: Some(config), ..self }
    }

    /// Reuse a file that the store answers with, if it is exactly the identified object, for all
    /// later reads.
    pub fn into_file_payload_promoting<F: Copy>(
        self,
        expected_meta: ObjectMeta,
        diagnostics: bool,
    ) -> (reader: Result<PromotingObjectStoreReadAt<F>, ReadError>)
        ensures
            match reader {
                Ok(reader) => {
                    &&& self.path@ == expected_meta.location@
                    &&& reader.inner == self
                    &&& reader.promotion == FilePayloadPromotion::<F>::fresh(
                        expected_meta,
                        diagnostics,
                    )
                },
                Err(error) => self.path@ != expected_meta.location@ && error
                    == ReadError::OtherPath,
            },
    {
        if !self.path.eq(&expected_meta.location) {
            return Err(ReadError::OtherPath);
        }
        Ok(
            PromotingObjectStoreReadAt {
                inner: self,
                promotion: FilePayloadPromotion::new(expected_meta, diagnostics),
            },
        )
    }
}

/// An object-store reader that promotes an exactly identified file to a persistent reader.
pub struct PromotingObjectStoreReadAt<F> {
    /// The reader before the promotion.
    pub inner: ObjectStoreReadAt,
    /// Where the promotion stands.
    pub promotion: FilePayloadPromotion<F>,
}

impl<F: Copy> PromotingObjectStoreReadAt<F> {
    /// The object's size, known from its identification.
    pub fn size(&self) -> (size: u64)
        ensures
            size == self.promotion.expected_meta.size,
    {
        self.promotion.expected_meta.size
    }
}

impl VortexReadAt for ObjectStoreReadAt {
    open spec fn instance_id(&self) -> Option<u64> {
        None
    }

    open spec fn name(&self) -> Option<Seq<char>> {
        Some(self.path@)
    }

    open spec fn coalescing(&self) -> Option<CoalesceConfig> {
        self.coalesce_config
    }

    open spec fn at_once(&self) -> usize {
        self.concurrency
    }

    fn diagnostic_instance_id(&self) -> Option<u64> {
        None
    }

    fn uri(&self) -> Option<&String> {
        Some(&self.path)
    }

    fn coalesce_config(&self) -> Option<CoalesceConfig> {
        self.coalesce_config
    }

    fn concurrency(&self) -> usize {
        self.concurrency
    }
}

impl<F: Copy> VortexReadAt for PromotingObjectStoreReadAt<F> {
    open spec fn instance_id(&self) -> Option<u64> {
        self.inner.instance_id()
    }

    open spec fn name(&self) -> Option<Seq<char>> {
        self.inner.name()
    }

    open spec fn coalescing(&self) -> Option<CoalesceConfig> {
        self.inner.coalescing()
    }

    open spec fn at_once(&self) -> usize {
        self.inner.at_once()
    }

    fn diagnostic_instance_id(&self) -> Option<u64> {
        self.inner.diagnostic_instance_id()
    }

    fn uri(&self) -> Option<&String> {
        self.inner.uri()
    }

    fn coalesce_config(&self) -> Option<CoalesceConfig> {
        self.inner.coalesce_config()
    }

    fn concurrency(&self) -> usize {
        self.inner.concurrency()
    }
}

/// How many of a list of reads are made at a time: none of an empty list, else at least one.
pub fn read_ranges(requests: &Vec<ReadAtRequest>, concurrency: usize) -> (at_once: usize)
    ensures
        at_once == (if requests@.len() == 0 {
            0
        } else if concurrency == 0 {
            1
        } else {
            concurrency
        }),
{
    if requests.len() == 0 {
        0
    } else if concurrency == 0 {
        1
    } else {
        concurrency
    }
}

/// Whether a file was promoted.
#[derive(Debug)]
pub enum FilePayloadPromotionState<F> {
    /// The store has not answered yet.
    Eligible,
    /// This file serves all reads.
    File(F),
    /// The store answers with streams.
    NonFile,
}

/// The promotion of the file, known by a handle `F`, that a store answers reads with.
pub struct FilePayloadPromotion<F> {
    /// The object as it was identified.
    pub expected_meta: ObjectMeta,
    /// Whether a file was promoted.
    pub state: FilePayloadPromotionState<F>,
    /// Whether events are counted.
    pub diagnostics: bool,
    /// Reads that the store was asked for.
    pub get_opts_calls: u64,
    /// Files that the store answered with.
    pub file_payloads: u64,
    /// Reads that were served by the promoted file.
    pub cache_hits: u64,
    /// Files that were promoted.
    pub installs: u64,
    /// Files that came after another was promoted.
    pub install_races: u64,
    /// Answers about another object than the identified one.
    pub identity_mismatches: u64,
    /// Reads that were handed to a thread that may block.
    pub blocking_read_submissions: u64,
    /// Streams that the store answered with.
    pub non_file_payloads: u64,
}

/// A counter after an event, where events are counted.
pub open spec fn counted(counter: u64, diagnostics: bool) -> u64 {
    if diagnostics {
        counter.wrapping_add(1)
    } else {
        counter
    }
}

/// Count an event, where events are counted.
fn record(diagnostics: bool, counter: u64) -> (after: u64)
    ensures
        after == counted(counter, diagnostics),
{
    if diagnostics {
        counter.wrapping_add(1)
    } else {
        counter
    }
}

impl<F: Copy> FilePayloadPromotion<F> {
    /// Before the first answer.
    pub open spec fn fresh(expected_meta: ObjectMeta, diagnostics: bool) -> Self {
        FilePayloadPromotion {
            expected_meta,
            state: FilePayloadPromotionState::Eligible,
            diagnostics,
            get_opts_calls: 0,
            file_payloads: 0,
            cache_hits: 0,
            installs: 0,
            install_races: 0,
            identity_mismatches: 0,
            blocking_read_submissions: 0,
            non_file_payloads: 0,
        }
    }

    /// Before the first answer.
    pub fn new(expected_meta: ObjectMeta, diagnostics: bool) -> (promotion: Self)
        ensures
            promotion == Self::fresh(expected_meta, diagnostics),
    {
        FilePayloadPromotion {
            expected_meta,
            state: FilePayloadPromotionState::Eligible,
            diagnostics,
            get_opts_calls: 0,
            file_payloads: 0,
            cache_hits: 0,
            installs: 0,
            install_races: 0,
            identity_mismatches: 0,
            blocking_read_submissions: 0,
            non_file_payloads: 0,
        }
    }

    /// The promotion once it was asked for its file.
    pub open spec fn after_lookup(self) -> Self {
        match self.state {
            FilePayloadPromotionState::File(_) => FilePayloadPromotion {
                cache_hits: counted(self.cache_hits, self.diagnostics),
                ..self
            },
            _ => self,
        }
    }

    /// The promoted file, if there is one.
    pub fn cached_file(&mut self) -> (file: Option<F>)
        ensures
            file == (match old(self).state {
                FilePayloadPromotionState::File(file) => Some(file),
                _ => None,
            }),
            *final(self) == old(self).after_lookup(),
    {
        match self.state {
            FilePayloadPromotionState::File(file) => {
                self.cache_hits = record(self.diagnostics, self.cache_hits);
                Some(file)
            },
            FilePayloadPromotionState::Eligible | FilePayloadPromotionState::NonFile => None,
        }
    }

    /// The file that serves a read, once the store answered with `file` of the object `meta`. The
    /// promoted file is preferred even where the answer is about a replacement of the object.
    pub open spec fn serving(self, meta: MetaModel, file: F) -> Result<F, ReadError> {
        match self.state {
            FilePayloadPromotionState::File(promoted) => Ok(promoted),
            _ => if meta == self.expected_meta@ {
                Ok(file)
            } else {
                Err(ReadError::IdentityChanged)
            },
        }
    }

    /// The promotion once the store answered with `file` of the object `meta`.
    pub open spec fn after_file(self, meta: MetaModel, file: F) -> Self {
        let seen = FilePayloadPromotion {
            file_payloads: counted(self.file_payloads, self.diagnostics),
            ..self
        };
        match self.state {
            FilePayloadPromotionState::File(_) => FilePayloadPromotion {
                install_races: counted(self.install_races, self.diagnostics),
                ..seen
            },
            _ if meta != self.expected_meta@ => FilePayloadPromotion {
                identity_mismatches: counted(self.identity_mismatches, self.diagnostics),
                ..seen
            },
            FilePayloadPromotionState::Eligible => FilePayloadPromotion {
                state: FilePayloadPromotionState::File(file),
                installs: counted(self.installs, self.diagnostics),
                ..seen
            },
            FilePayloadPromotionState::NonFile => seen,
        }
    }

    /// The store answered with a file: promote it if it is the first answer and exactly the
    /// identified object.
    pub fn observe_file(&mut self, metadata: &ObjectMeta, file: F) -> (serving: Result<
        F,
        ReadError,
    >)
        ensures
            serving == old(self).serving(metadata@, file),
            *final(self) == old(self).after_file(metadata@, file),
    {
        self.file_payloads = record(self.diagnostics, self.file_payloads);
        match self.state {
            FilePayloadPromotionState::Eligible => {
                if !metadata.same(&self.expected_meta) {
                    self.identity_mismatches = record(self.diagnostics, self.identity_mismatches);
                    return Err(ReadError::IdentityChanged);
                }
                self.state = FilePayloadPromotionState::File(file);
                self.installs = record(self.diagnostics, self.installs);
                Ok(file)
            },
            FilePayloadPromotionState::File(promoted) => {
                self.install_races = record(self.diagnostics, self.install_races);
                Ok(promoted)
            },
            FilePayloadPromotionState::NonFile => {
                if !metadata.same(&self.expected_meta) {
                    self.identity_mismatches = record(self.diagnostics, self.identity_mismatches);
                    return Err(ReadError::IdentityChanged);
                }
                Ok(file)
            },
        }
    }

    /// The promotion once a stream was read to its end.
    pub open spec fn after_stream(self) -> Self {
        FilePayloadPromotion {
            non_file_payloads: counted(self.non_file_payloads, self.diagnostics),
            state: match self.state {
                FilePayloadPromotionState::Eligible => FilePayloadPromotionState::NonFile,
                state => state,
            },
            ..self
        }
    }

    /// A stream was read to its end: if it was the first answer, nothing is promoted any more.
    pub fn observe_non_file(&mut self)
        ensures
            *final(self) == old(self).after_stream(),
    {
        self.non_file_payloads = record(self.diagnostics, self.non_file_payloads);
        if let FilePayloadPromotionState::Eligible = self.state {
            self.state = FilePayloadPromotionState::NonFile;
        }
    }

    /// The promotion once an answer turned out to be about another object.
    pub open spec fn after_mismatch(self) -> Self {
        FilePayloadPromotion {
            identity_mismatches: counted(self.identity_mismatches, self.diagnostics),
            ..self
        }
    }

    /// The promotion once a read was handed to a thread that may block.
    pub open spec fn after_submission(self) -> Self {
        FilePayloadPromotion {
            blocking_read_submissions: counted(self.blocking_read_submissions, self.diagnostics),
            ..self
        }
    }

    /// The promotion once a read was asked of the store.
    pub open spec fn after_request(self) -> Self {
        FilePayloadPromotion {
            get_opts_calls: counted(self.get_opts_calls, self.diagnostics),
            ..self
        }
    }

    /// A promoted file serves all later reads: no answer replaces it, and an answer about another
    /// object is not promoted. Once the store answered with a stream, nothing is promoted.
    pub proof fn law_promotion_is_final(self, meta: MetaModel, file: F)
        ensures
            self.state is File ==> {
                &&& self.after_file(meta, file).state == self.state
                &&& self.after_stream().state == self.state
                &&& self.after_lookup().state == self.state
                &&& self.serving(meta, file) == Ok::<F, ReadError>(self.state->File_0)
            },
            self.state is NonFile ==> {
                &&& self.after_file(meta, file).state == self.state
                &&& self.after_stream().state == self.state
            },
            !(self.state is File) && self.after_file(meta, file).state is File ==> {
                &&& meta == self.expected_meta@
                &&& self.after_file(meta, file).state->File_0 == file
            },
    {
    }

    /// A file that serves a read is the promoted one, or one whose object is the identified one.
    pub proof fn law_served_by_identified(self, meta: MetaModel, file: F)
        requires
            self.serving(meta, file) is Ok,
        ensures
            self.serving(meta, file)->Ok_0 == file && meta == self.expected_meta@ || (self.state
                matches FilePayloadPromotionState::File(promoted) && self.serving(
                meta,
                file,
            )->Ok_0 == promoted),
    {
    }
}

/// How a read is made.
pub enum ReadSource<F> {
    /// From this file, at the start of the range.
    File(F, ByteRange),
    /// By asking the store, for exactly the identified object where the store can tell.
    Store {
        /// The range to ask for.
        range: ByteRange,
        /// The entity tag that the object has to have.
        if_match: Option<String>,
        /// The version to ask for.
        version: Option<String>,
    },
}

/// What a store answered with.
pub enum StorePayload<F> {
    /// An open file.
    File(F),
    /// A stream of bytes.
    Stream,
}

/// How a read goes on once the store answered.
pub enum ReadBody<F> {
    /// From this file, at the start of the range.
    File(F),
    /// From the stream, into these bytes.
    Stream(StreamAssembly),
}

/// The range to ask the store for. It ends at a position.
pub fn read_object_store_range(request: ReadAtRequest) -> (range: ByteRange)
    requires
        request.range_spec() is Some,
    ensures
        range == request.range_spec()->Some_0,
{
    ByteRange { start: request.offset, end: request.offset + request.length as u64 }
}

/// How a read goes on once the store answered.
pub fn read_answered<F>(
    request: ReadAtRequest,
    range: ByteRange,
    payload: StorePayload<F>,
) -> (body: ReadBody<F>)
    ensures
        match payload {
            StorePayload::File(file) => body == ReadBody::File(file),
            StorePayload::Stream => body matches ReadBody::Stream(assembly) && assembly.wf()
                && assembly.buffer@ == Seq::<u8>::empty() && assembly.length == request.length
                && assembly.range == range,
        },
{
    match payload {
        StorePayload::File(file) => ReadBody::File(file),
        StorePayload::Stream => ReadBody::Stream(StreamAssembly::new(request.length, range)),
    }
}

/// How a read is made: from the promoted file, or by asking the store.
pub fn read_promoting_object_store_range<F: Copy>(
    promotion: &mut FilePayloadPromotion<F>,
    request: ReadAtRequest,
) -> (source: Result<ReadSource<F>, ReadError>)
    ensures
        match request.range_spec() {
            None => source == Err::<ReadSource<F>, _>(ReadError::RangeOverflow)
                && *final(promotion) == *old(promotion),
            Some(range) => match old(promotion).state {
                FilePayloadPromotionState::File(file) => {
                    &&& source == Ok::<_, ReadError>(ReadSource::File(file, range))
                    &&& *final(promotion) == old(promotion).after_lookup().after_submission()
                },
                _ => {
                    &&& source matches Ok(ReadSource::Store { range: asked, if_match, version })
                        && asked == range && text_of(if_match)
                        == old(promotion).expected_meta@.e_tag && text_of(version)
                        == old(promotion).expected_meta@.version
                    &&& *final(promotion) == old(promotion).after_request()
                },
            },
        },
{
    let range: ByteRange = match request.range() {
        Ok(range) => range,
        Err(error) => return Err(error),
    };
    match promotion.cached_file() {
        Some(file) => {
            promotion.blocking_read_submissions = record(
                promotion.diagnostics,
                promotion.blocking_read_submissions,
            );
            Ok(ReadSource::File(file, range))
        },
        None => {
            promotion.get_opts_calls = record(promotion.diagnostics, promotion.get_opts_calls);
            Ok(
                ReadSource::Store {
                    range,
                    if_match: copy_optional(&promotion.expected_meta.e_tag),
                    version: copy_optional(&promotion.expected_meta.version),
                },
            )
        },
    }
}

/// How a read goes on once the store answered: the answer has to be about exactly the range that
/// was asked for, and about the identified object.
pub fn promoting_answered<F: Copy>(
    promotion: &mut FilePayloadPromotion<F>,
    request: ReadAtRequest,
    range: ByteRange,
    answered: ByteRange,
    metadata: &ObjectMeta,
    payload: StorePayload<F>,
) -> (body: Result<ReadBody<F>, ReadError>)
    ensures
        if answered != range {
            &&& body == Err::<ReadBody<F>, _>(ReadError::OtherRange { answered, asked: range })
            &&& *final(promotion) == old(promotion).after_mismatch()
        } else {
            match payload {
                StorePayload::File(file) => match old(promotion).serving(metadata@, file) {
                    Ok(serving) => {
                        &&& body == Ok::<_, ReadError>(ReadBody::File(serving))
                        &&& *final(promotion) == old(promotion).after_file(
                            metadata@,
                            file,
                        ).after_submission()
                    },
                    Err(error) => {
                        &&& body == Err::<ReadBody<F>, _>(error)
                        &&& *final(promotion) == old(promotion).after_file(metadata@, file)
                    },
                },
                StorePayload::Stream => if metadata@ != old(promotion).expected_meta@ {
                    &&& body == Err::<ReadBody<F>, _>(ReadError::IdentityChanged)
                    &&& *final(promotion) == old(promotion).after_mismatch()
                } else {
                    &&& body matches Ok(ReadBody::Stream(assembly)) && assembly.wf()
                        && assembly.buffer@ == Seq::<u8>::empty() && assembly.length
                        == request.length && assembly.range == range
                    &&& *final(promotion) == *old(promotion)
                },
            }
        },
{
    if answered != range {
        promotion.identity_mismatches = record(
            promotion.diagnostics,
            promotion.identity_mismatches,
        );
        return Err(ReadError::OtherRange { answered, asked: range });
    }
    match payload {
        StorePayload::File(file) => match promotion.observe_file(metadata, file) {
            Ok(serving) => {
                promotion.blocking_read_submissions = record(
                    promotion.diagnostics,
                    promotion.blocking_read_submissions,
                );
                Ok(ReadBody::File(serving))
            },
            Err(error) => Err(error),
        },
        StorePayload::Stream => {
            if !metadata.same(&promotion.expected_meta) {
                promotion.identity_mismatches = record(
                    promotion.diagnostics,
                    promotion.identity_mismatches,
                );
                return Err(ReadError::IdentityChanged);
            }
            Ok(ReadBody::Stream(StreamAssembly::new(request.length, range)))
        },
    }
}

/// The stream of a read ended. Only a stream that delivered all bytes counts as an answer.
pub fn promoting_finished<F: Copy>(
    promotion: &mut FilePayloadPromotion<F>,
    assembly: StreamAssembly,
) -> (bytes: Result<Vec<u8>, ReadError>)
    requires
        assembly.wf(),
    ensures
        if assembly.buffer@.len() == assembly.length {
            &&& bytes == Ok::<_, ReadError>(assembly.buffer)
            &&& *final(promotion) == old(promotion).after_stream()
        } else {
            &&& bytes == Err::<Vec<u8>, _>(
                ReadError::TooFewBytes {
                    delivered: assembly.buffer@.len() as usize,
                    expected: assembly.length,
                    range: assembly.range,
                },
            )
            &&& *final(promotion) == *old(promotion)
        },
{
    match assembly.finish() {
        Ok(bytes) => {
            promotion.observe_non_file();
            Ok(bytes)
        },
        Err(error) => Err(error),
    }
}

impl<F: Copy> FilePayloadPromotion<F> {
    /// The first answer decides: a file of the identified object is promoted and serves the reads
    /// after it, and a stream keeps any file from being promoted. An answer about another object
    /// decides nothing.
    pub proof fn law_first_answer_decides(
        self,
        meta: MetaModel,
        file: F,
        other: MetaModel,
        later: F,
    )
        requires
            self.state is Eligible,
        ensures
            meta == self.expected_meta@ ==> self.serving(meta, file) == Ok::<F, ReadError>(file)
                && self.after_file(meta, file).serving(other, later) == Ok::<F, ReadError>(file),
            meta != self.expected_meta@ ==> self.serving(meta, file) == Err::<F, ReadError>(
                ReadError::IdentityChanged,
            ) && self.after_file(meta, file).state is Eligible,
            meta == self.expected_meta@ ==> self.after_stream().serving(meta, file) == Ok::<
                F,
                ReadError,
            >(file) && !(self.after_stream().after_file(meta, file).state is File),
    {
    }

    /// Where events are counted, an answer with a file is counted as one, and once more as what
    /// became of it: promoted, too late, or of another object. Where they are not, nothing is.
    pub proof fn law_answers_are_counted(self, meta: MetaModel, file: F)
        ensures
            ({
                let after = self.after_file(meta, file);
                let counts = self.diagnostics;
                &&& after.file_payloads != self.file_payloads <==> counts
                &&& after.installs != self.installs <==> counts && !(self.state is File)
                    && after.state is File
                &&& after.install_races != self.install_races <==> counts && self.state is File
                &&& after.identity_mismatches != self.identity_mismatches <==> counts
                    && self.serving(meta, file) is Err
                &&& after.cache_hits == self.cache_hits
                &&& after.non_file_payloads == self.non_file_payloads
                &&& after.get_opts_calls == self.get_opts_calls
                &&& after.blocking_read_submissions == self.blocking_read_submissions
                &&& after.expected_meta == self.expected_meta
            }),
            self.after_lookup().cache_hits != self.cache_hits <==> self.diagnostics && self.state
                is File,
            self.after_stream().non_file_payloads != self.non_file_payloads <==> self.diagnostics,
            self.after_stream().file_payloads == self.file_payloads,
            self.after_mismatch().identity_mismatches != self.identity_mismatches
                <==> self.diagnostics,
            self.after_submission().blocking_read_submissions != self.blocking_read_submissions
                <==> self.diagnostics,
            self.after_request().get_opts_calls != self.get_opts_calls <==> self.diagnostics,
    {
    }
}

} // verus!
