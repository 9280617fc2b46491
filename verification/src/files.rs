//! Scanning many files as a single logical table: directories, glob patterns and explicit lists of
//! paths, so that a directory of files can be read as one table.

use vstd::prelude::*;

use crate::expr::Expression;
use crate::location::base;
use crate::location::local_path;
use crate::location::names_path;
use crate::location::path;
use crate::location::scheme;
use crate::location::url_base;
use crate::location::url_path;
use crate::location::url_scheme;
use crate::location::FilePath;
use crate::location::MAX_URL_LEN;
use crate::table_filter::RowRange;
use crate::text::chars_of;
use crate::text::same_text;
use vstd::string::StrSliceExecFns;
use vstd::string::StringExecFns;

verus! {

/// Whether a source names a path on the local filesystem, and so can be probed for being a
/// directory.
#[derive(Clone, Copy, PartialEq, Eq, Debug, Structural)]
pub enum Local {
    /// It does, and it is a directory or not.
    Yes {
        /// Whether it names an existing directory.
        is_dir: bool,
    },
    /// It does not.
    No,
}

/// Whether a text holds a character that glob patterns give a meaning to.
pub open spec fn has_glob(source: Seq<char>) -> bool {
    exists|i: int|
        0 <= i < source.len() && (#[trigger] source[i] == '*' || source[i] == '?' || source[i]
            == '[')
}

/// What a directory's path is extended by to match the files in it.
pub open spec fn directory_suffix() -> Seq<char> {
    "/*.vortex"@
}

/// The glob that a source stands for.
pub open spec fn glob_of(source: Seq<char>, local: Local) -> Seq<char> {
    if has_glob(source) {
        source
    } else if source.len() > 0 && source.last() == '/' {
        source.drop_last() + directory_suffix()
    } else if local == (Local::Yes { is_dir: true }) {
        source + directory_suffix()
    } else {
        source
    }
}

/// Expand a directory into a glob over the files it contains.
///
/// A source is treated as a directory when it ends in `/`, or when it names an existing local
/// directory. Sources that already contain glob characters are left alone, as is anything that
/// looks like a single file. Remote sources are never probed for existence, so a remote directory
/// has to be spelled with a trailing `/` (or an explicit glob) to be expanded.
pub fn add_directory_suffix(source: &str, local: Local) -> (glob: String)
    ensures
        glob@ == glob_of(source@, local),
{
    let chars: Vec<char> = chars_of(source);
    let mut i: usize = 0;
    while i < chars.len()
        invariant
            i <= chars@.len(),
            chars@ == source@,
            forall|j: int|
                0 <= j < i ==> !(#[trigger] source@[j] == '*' || source@[j] == '?' || source@[j]
                    == '['),
        decreases chars@.len() - i,
    {
        let c: char = chars[i];
        if c == '*' || c == '?' || c == '[' {
            assert(source@[i as int] == c);
            return source.to_owned();
        }
        i = i + 1;
    }
    let len: usize = chars.len();
    if len > 0 && chars[len - 1] == '/' {
        let prefix: &str = source.substring_char(0, len - 1);
        assert(prefix@ =~= source@.drop_last());
        return prefix.to_owned().concat("/*.vortex");
    }
    match local {
        Local::Yes { is_dir } => if is_dir {
            return source.to_owned().concat("/*.vortex");
        },
        Local::No => {},
    }
    source.to_owned()
}

/// A glob is expanded once: the expansion holds a glob character and is left alone.
pub proof fn law_expansion_is_final(source: Seq<char>, first: Local, second: Local)
    requires
        glob_of(source, first) != source,
    ensures
        has_glob(glob_of(source, first)),
        glob_of(glob_of(source, first), second) == glob_of(source, first),
{
    reveal_strlit("/*.vortex");
    let glob = glob_of(source, first);
    let at = if source.len() > 0 && source.last() == '/' {
        source.len() as int
    } else {
        source.len() as int + 1
    };
    assert(glob[at] == '*');
}

/// A directory is expanded alike however it is spelled: with a slash at its end, or as the path of
/// an existing directory. Anything else is left as it is, and so is what holds a glob character.
pub proof fn law_directory_spellings(path: Seq<char>, local: Local)
    ensures
        has_glob(path) ==> glob_of(path, local) == path,
        !has_glob(path) && (path.len() == 0 || path.last() != '/') ==> {
            &&& glob_of(path.push('/'), local) == path + seq![
                '/',
                '*',
                '.',
                'v',
                'o',
                'r',
                't',
                'e',
                'x',
            ]
            &&& glob_of(path, Local::Yes { is_dir: true }) == glob_of(path.push('/'), local)
            &&& glob_of(path, Local::Yes { is_dir: false }) == path
            &&& glob_of(path, Local::No) == path
        },
{
    reveal_strlit("/*.vortex");
    let spelled = path.push('/');
    if !has_glob(path) {
        assert(!has_glob(spelled)) by {
            assert forall|i: int| 0 <= i < spelled.len() implies !(#[trigger] spelled[i] == '*'
                || spelled[i] == '?' || spelled[i] == '[') by {
                if i < path.len() {
                    assert(path[i] == spelled[i]);
                }
            }
        }
        assert(spelled.drop_last() =~= path);
        assert(directory_suffix() =~= seq!['/', '*', '.', 'v', 'o', 'r', 't', 'e', 'x']);
    }
}

/// Where the files of a URL lie.
#[derive(Debug)]
pub enum GlobTarget {
    /// On the local filesystem, at this path.
    LocalPath(String),
    /// In the store at a URL with an empty path, at this path.
    Remote {
        /// The URL of the store.
        base: String,
        /// The path in the store.
        path: String,
    },
}

/// Why a source does not resolve.
#[derive(Clone, Copy, Debug, PartialEq, Eq, Structural)]
pub enum GlobError {
    /// The text is no URL.
    NotAUrl,
    /// A file URL names no local path.
    InvalidFileUrl,
    /// A local path is not valid UTF-8.
    NotUtf8,
}

/// Where the files of a file URL lie, given the path that it names.
pub open spec fn local_target_of(path: FilePath) -> Result<GlobTarget, GlobError> {
    match path {
        FilePath::Path(path) => Ok(GlobTarget::LocalPath(path)),
        FilePath::Invalid => Err(GlobError::InvalidFileUrl),
        FilePath::NotUtf8 => Err(GlobError::NotUtf8),
    }
}

/// Where the files of a file URL lie, given the path that it names.
///
/// The path is kept un-encoded so that names containing spaces or other characters that a URL
/// percent-encodes still resolve.
pub fn local_target(path: FilePath) -> (target: Result<GlobTarget, GlobError>)
    ensures
        target == local_target_of(path),
{
    match path {
        FilePath::Path(path) => Ok(GlobTarget::LocalPath(path)),
        FilePath::Invalid => Err(GlobError::InvalidFileUrl),
        FilePath::NotUtf8 => Err(GlobError::NotUtf8),
    }
}

/// Where the files of a URL that is not a file URL lie, given the parts of the URL.
pub fn remote_target(base: Option<String>, path: Option<String>) -> (target: Result<
    GlobTarget,
    GlobError,
>)
    ensures
        target == (match (base, path) {
            (Some(base), Some(path)) => Ok::<GlobTarget, GlobError>(
                GlobTarget::Remote { base, path },
            ),
            _ => Err(GlobError::NotAUrl),
        }),
{
    match (base, path) {
        (Some(base), Some(path)) => Ok(GlobTarget::Remote { base, path }),
        _ => Err(GlobError::NotAUrl),
    }
}

/// Resolve a URL into where its files lie: a file URL on the local filesystem, any other in the
/// store that the URL names.
pub fn resolve_url(url: &str) -> (target: Result<GlobTarget, GlobError>)
    requires
        url@.len() <= MAX_URL_LEN,
    ensures
        match url_scheme(url@) {
            None => target == Err::<GlobTarget, GlobError>(GlobError::NotAUrl),
            Some(scheme) => if scheme == "file"@ {
                exists|path: FilePath| #[trigger]
                    names_path(url, path) && target == local_target_of(path)
            } else {
                match (url_base(url@), url_path(url@)) {
                    (Some(base), Some(path)) => match target {
                        Ok(GlobTarget::Remote { base: b, path: p }) => b@ == base && p@ == path,
                        _ => false,
                    },
                    _ => target == Err::<GlobTarget, GlobError>(GlobError::NotAUrl),
                }
            },
        },
{
    match scheme(url) {
        None => Err(GlobError::NotAUrl),
        Some(scheme) => if same_text(scheme.as_str(), "file") {
            local_target(local_path(url))
        } else {
            remote_target(base(url), path(url))
        },
    }
}

/// Where a scan finds the files of a glob.
#[derive(Clone, Copy, Debug, PartialEq, Eq, Structural)]
pub enum GlobStore {
    /// In the store that the caller gave.
    Given,
    /// On the local filesystem.
    LocalFiles,
    /// In the store that the URL names.
    OfUrl,
}

/// Resolve a directory, glob pattern or path into a glob and where it is looked up.
///
/// `target` is where the source lies, or `None` where the caller gave a store: that makes the
/// source relative to the store, so it is used verbatim. `is_dir` says whether a local target
/// names an existing directory.
pub fn resolve_glob(source: &str, target: Option<GlobTarget>, is_dir: bool) -> (resolved: (
    String,
    GlobStore,
))
    ensures
        match target {
            None => resolved.0@ == glob_of(source@, Local::No) && resolved.1 == GlobStore::Given,
            Some(GlobTarget::LocalPath(path)) => resolved.0@ == glob_of(
                path@,
                Local::Yes { is_dir },
            ) && resolved.1 == GlobStore::LocalFiles,
            Some(GlobTarget::Remote { path, .. }) => resolved.0@ == glob_of(path@, Local::No)
                && resolved.1 == GlobStore::OfUrl,
        },
{
    match target {
        None => (add_directory_suffix(source, Local::No), GlobStore::Given),
        Some(GlobTarget::LocalPath(path)) => (
            add_directory_suffix(path.as_str(), Local::Yes { is_dir }),
            GlobStore::LocalFiles,
        ),
        Some(GlobTarget::Remote { path, .. }) => (
            add_directory_suffix(path.as_str(), Local::No),
            GlobStore::OfUrl,
        ),
    }
}

/// What a caller names files by.
pub enum GlobArgument {
    /// One text.
    Single(String),
    /// A list of texts.
    List(Vec<String>),
    /// Anything else.
    Other,
}

/// Why an argument names no files.
#[derive(Clone, Copy, Debug, PartialEq, Eq, Structural)]
pub enum GlobArgumentError {
    /// The list is empty.
    Empty,
    /// The argument is neither a text nor a list of texts.
    NotText,
}

impl GlobArgumentError {
    /// What went wrong.
    pub fn message(self) -> (message: &'static str)
        ensures
            message@ == (match self {
                GlobArgumentError::Empty =>
                    "paths must contain at least one directory, glob or file path"@,
                GlobArgumentError::NotText => "paths must be a string or a list of strings"@,
            }),
    {
        match self {
            GlobArgumentError::Empty =>
                "paths must contain at least one directory, glob or file path",
            GlobArgumentError::NotText => "paths must be a string or a list of strings",
        }
    }
}

/// The directories, glob patterns or file paths that an argument names: at least one.
pub fn into_globs(argument: GlobArgument) -> (globs: Result<Vec<String>, GlobArgumentError>)
    ensures
        match argument {
            GlobArgument::Single(single) => globs is Ok && globs->Ok_0@ == seq![single],
            GlobArgument::List(list) => if list@.len() == 0 {
                globs == Err::<Vec<String>, _>(GlobArgumentError::Empty)
            } else {
                globs == Ok::<_, GlobArgumentError>(list)
            },
            GlobArgument::Other => globs == Err::<Vec<String>, _>(GlobArgumentError::NotText),
        },
{
    match argument {
        GlobArgument::Single(single) => {
            let mut globs: Vec<String> = Vec::new();
            globs.push(single);
            Ok(globs)
        },
        GlobArgument::List(list) => if list.len() == 0 {
            Err(GlobArgumentError::Empty)
        } else {
            Ok(list)
        },
        GlobArgument::Other => Err(GlobArgumentError::NotText),
    }
}

/// Options for scanning many files into chunks.
pub struct MultiScanOptions {
    /// The projection expression, defaulting to all columns.
    pub projection: Expression,
    /// The predicate used to filter rows.
    pub filter: Option<Expression>,
    /// The maximum number of rows to read after filtering.
    pub limit: Option<u64>,
    /// Restrict the scan to a single partition (one file), as used by dataset fragments.
    pub partition: Option<u64>,
    /// Slice chunks larger than this many rows.
    pub batch_size: Option<usize>,
    /// Whether chunks are yielded in file order, or interleaved as files finish.
    pub ordered: bool,
}

impl Default for MultiScanOptions {
    fn default() -> (options: Self)
        ensures
            options == (MultiScanOptions {
                projection: Expression::Root,
                filter: None,
                limit: None,
                partition: None,
                batch_size: None,
                ordered: true,
            }),
    {
        MultiScanOptions {
            projection: Expression::Root,
            filter: None,
            limit: None,
            partition: None,
            batch_size: None,
            ordered: true,
        }
    }
}

/// A request to scan the files of a data source.
pub struct MultiScanRequest {
    /// The projection expression.
    pub projection: Expression,
    /// The predicate used to filter rows.
    pub filter: Option<Expression>,
    /// The limit of each partition, which bounds the work per file.
    pub limit: Option<u64>,
    /// Whether chunks are yielded in file order.
    pub ordered: bool,
    /// The partitions to scan, if not all.
    pub partition_range: Option<RowRange>,
}

/// What a scan does to the chunks of its partitions.
#[derive(Clone, Copy, Debug, PartialEq, Eq, Structural)]
pub struct ChunkShape {
    /// The rows to yield in all, if bounded: the limit of each partition does not bound the total.
    pub limit: Option<u64>,
    /// The rows of a chunk, if bounded.
    pub batch_size: Option<usize>,
}

/// The request that options make, and what is done to the chunks that it yields.
///
/// The last partition number has no range that ends after it.
pub fn scan_request(options: MultiScanOptions) -> (request: (MultiScanRequest, ChunkShape))
    requires
        options.partition != Some(u64::MAX),
    ensures
        request.0 == (MultiScanRequest {
            projection: options.projection,
            filter: options.filter,
            limit: options.limit,
            ordered: options.ordered,
            partition_range: match options.partition {
                Some(i) => Some(RowRange { start: i, end: (i + 1) as u64 }),
                None => None,
            },
        }),
        request.1 == (ChunkShape { limit: options.limit, batch_size: options.batch_size }),
{
    let partition_range: Option<RowRange> = match options.partition {
        Some(i) => Some(RowRange { start: i, end: i + 1 }),
        None => None,
    };
    let shape = ChunkShape { limit: options.limit, batch_size: options.batch_size };
    let request = MultiScanRequest {
        projection: options.projection,
        filter: options.filter,
        limit: options.limit,
        ordered: options.ordered,
        partition_range,
    };
    (request, shape)
}

/// A slice of a chunk.
#[derive(Clone, Copy, Debug, PartialEq, Eq, Structural)]
pub struct ChunkSlice {
    /// The first row.
    pub start: usize,
    /// The row after the last.
    pub end: usize,
}

/// How many slices of at most `batch_size` rows a chunk has.
pub open spec fn slice_count(len: int, batch_size: int) -> int {
    if len % batch_size == 0 {
        len / batch_size
    } else {
        len / batch_size + 1
    }
}

/// Slice `i` of a chunk.
pub open spec fn chunk_slice(len: int, batch_size: int, i: int) -> ChunkSlice {
    ChunkSlice {
        start: (i * batch_size) as usize,
        end: (if (i + 1) * batch_size <= len {
            (i + 1) * batch_size
        } else {
            len
        }) as usize,
    }
}

/// Slice a chunk larger than `batch_size` rows into consecutive slices of at most that many; a
/// size of zero counts as one.
pub fn split_larger(len: usize, batch_size: usize) -> (slices: Vec<ChunkSlice>)
    ensures
        ({
            let size = if batch_size == 0 {
                1
            } else {
                batch_size as int
            };
            &&& slices@.len() == slice_count(len as int, size)
            &&& forall|i: int|
                0 <= i < slices@.len() ==> #[trigger] slices@[i] == chunk_slice(
                    len as int,
                    size,
                    i,
                )
        }),
{
    let size: usize = if batch_size == 0 {
        1
    } else {
        batch_size
    };
    let mut slices: Vec<ChunkSlice> = Vec::new();
    let mut start: usize = 0;
    assert(0 * size == 0) by (nonlinear_arith);
    while start < len
        invariant
            size >= 1,
            start <= len,
            start == len || start == slices@.len() * size,
            start == len ==> slices@.len() == slice_count(len as int, size as int) || slices@.len()
                == 0,
            start < len || len == 0 || slices@.len() > 0,
            forall|i: int|
                0 <= i < slices@.len() ==> #[trigger] slices@[i] == chunk_slice(
                    len as int,
                    size as int,
                    i,
                ),
        decreases len - start,
    {
        let ghost n = slices@.len() as int;
        assert((n + 1) * size == n * size + size) by (nonlinear_arith);
        let end: usize = if len - start <= size {
            len
        } else {
            start + size
        };
        slices.push(ChunkSlice { start, end });
        proof {
            if end == len {
                assert(slice_count(len as int, size as int) == n + 1) by {
                    vstd::arithmetic::div_mod::lemma_fundamental_div_mod(len as int, size as int);
                    if len - start == size {
                        vstd::arithmetic::div_mod::lemma_fundamental_div_mod_converse(
                            len as int,
                            size as int,
                            n + 1,
                            0,
                        );
                    } else {
                        vstd::arithmetic::div_mod::lemma_fundamental_div_mod_converse(
                            len as int,
                            size as int,
                            n,
                            len - start,
                        );
                    }
                }
            }
        }
        start = end;
    }
    proof {
        if len == 0 {
            vstd::arithmetic::div_mod::lemma_fundamental_div_mod_converse(0, size as int, 0, 0);
        }
    }
    slices
}

/// Slices follow one another, cover the chunk, and hold `batch_size` rows each, but the last one,
/// which holds the rest.
pub proof fn law_slices_cover(len: usize, batch_size: usize, i: int)
    requires
        batch_size > 0,
        0 <= i < slice_count(len as int, batch_size as int),
    ensures
        ({
            let slice = chunk_slice(len as int, batch_size as int, i);
            let last = slice_count(len as int, batch_size as int) - 1;
            &&& slice.start < slice.end
            &&& slice.end - slice.start <= batch_size
            &&& i == 0 ==> slice.start == 0
            &&& i < last ==> slice.end - slice.start == batch_size
            &&& i < last ==> slice.end == chunk_slice(len as int, batch_size as int, i + 1).start
            &&& i == last ==> slice.end == len
        }),
{
    let (n, size) = (len as int, batch_size as int);
    vstd::arithmetic::div_mod::lemma_fundamental_div_mod(n, size);
    let last = slice_count(n, size) - 1;
    assert((i + 1) * size == i * size + size) by (nonlinear_arith);
    assert(0 <= i * size) by (nonlinear_arith)
        requires
            0 <= i,
            size > 0,
    ;
    assert(last * size < n <= (last + 1) * size) by (nonlinear_arith)
        requires
            n == size * (n / size) + n % size,
            0 <= n % size < size,
            last == (if n % size == 0 {
                n / size - 1
            } else {
                n / size
            }),
            size > 0,
    ;
    assert(i * size <= last * size) by (nonlinear_arith)
        requires
            i <= last,
            size > 0,
    ;
    if i < last {
        assert((i + 1) * size <= last * size) by (nonlinear_arith)
            requires
                i + 1 <= last,
                size > 0,
        ;
    }
}

/// The rows that are still to be yielded, given a limit. A limit beyond the machine's word cannot
/// be reached by chunks in memory.
pub fn initial_rows(limit: u64) -> (remaining: usize)
    ensures
        remaining == most_rows(limit),
{
    if limit > usize::MAX as u64 {
        usize::MAX
    } else {
        limit as usize
    }
}

/// What is yielded for a chunk while `remaining` rows are still to be: of a chunk of some length
/// as many of its first rows as are still to be, of a failed chunk its error. Once all rows were
/// yielded the stream stops, whatever the chunk.
pub fn truncate(remaining: &mut usize, chunk: Result<usize, u64>) -> (step: Option<
    Result<usize, u64>,
>)
    ensures
        *old(remaining) == 0 ==> step is None,
        *old(remaining) > 0 ==> step == Some(
            match chunk {
                Ok(len) => Ok::<usize, u64>(
                    if *old(remaining) < len {
                        *old(remaining)
                    } else {
                        len
                    },
                ),
                Err(error) => Err(error),
            },
        ),
        *final(remaining) == *old(remaining) - (match step {
            Some(Ok(rows)) => rows as int,
            _ => 0,
        }),
{
    if *remaining == 0 {
        return None;
    }
    match chunk {
        Ok(len) => {
            let take: usize = if *remaining < len {
                *remaining
            } else {
                len
            };
            *remaining = *remaining - take;
            Some(Ok(take))
        },
        Err(error) => Some(Err(error)),
    }
}

/// The rows of a chunk; a failed one has none.
pub open spec fn chunk_rows(chunk: Result<usize, u64>) -> int {
    match chunk {
        Ok(len) => len as int,
        Err(_) => 0,
    }
}

/// The rows yielded of a sequence of chunks, given how many may be.
pub open spec fn yielded(chunks: Seq<Result<usize, u64>>, limit: int) -> int
    decreases chunks.len(),
{
    if chunks.len() == 0 {
        0
    } else {
        let before = yielded(chunks.drop_last(), limit);
        if limit - before < chunk_rows(chunks.last()) {
            limit
        } else {
            before + chunk_rows(chunks.last())
        }
    }
}

/// The rows of a sequence of chunks, without those that failed.
pub open spec fn good_rows(chunks: Seq<Result<usize, u64>>) -> int
    decreases chunks.len(),
{
    if chunks.len() == 0 {
        0
    } else {
        good_rows(chunks.drop_last()) + chunk_rows(chunks.last())
    }
}

/// In all, as many rows are yielded as there are, or as the limit allows.
pub proof fn law_limit_bounds_total(chunks: Seq<Result<usize, u64>>, limit: int)
    requires
        0 <= limit,
    ensures
        yielded(chunks, limit) == (if good_rows(chunks) < limit {
            good_rows(chunks)
        } else {
            limit
        }),
        0 <= good_rows(chunks),
    decreases chunks.len(),
{
    if chunks.len() > 0 {
        law_limit_bounds_total(chunks.drop_last(), limit);
    }
}

/// The first chunks have no more rows than all of them.
proof fn lemma_total_prefix(chunks: Seq<Result<usize, u64>>, k: int)
    requires
        0 <= k <= chunks.len(),
    ensures
        good_rows(chunks.take(k)) <= good_rows(chunks),
    decreases chunks.len(),
{
    if k < chunks.len() {
        lemma_total_prefix(chunks.drop_last(), k);
        assert(chunks.drop_last().take(k) =~= chunks.take(k));
    } else {
        assert(chunks.take(k) =~= chunks);
    }
}

/// The most rows that a limit lets through.
pub open spec fn most_rows(limit: u64) -> int {
    if limit > usize::MAX {
        usize::MAX as int
    } else {
        limit as int
    }
}

/// What a sequence of chunks yields under a limit, up to where the stream stops. A chunk that
/// failed before that is passed on.
pub fn truncate_all(chunks: &Vec<Result<usize, u64>>, limit: Option<u64>) -> (items: Vec<
    Result<usize, u64>,
>)
    ensures
        items@.len() <= chunks@.len(),
        limit is None ==> items@ == chunks@,
        limit matches Some(limit) ==> {
            let most = most_rows(limit);
            &&& forall|i: int|
                0 <= i < items@.len() ==> #[trigger] items@[i] == (match chunks@[i] {
                    Ok(_) => Ok::<usize, u64>(
                        (yielded(chunks@.take(i + 1), most) - yielded(
                            chunks@.take(i),
                            most,
                        )) as usize,
                    ),
                    Err(error) => Err(error),
                })
            &&& items@.len() < chunks@.len() ==> yielded(
                chunks@.take(items@.len() as int),
                most,
            ) == most
            &&& forall|i: int|
                0 <= i < items@.len() ==> yielded(#[trigger] chunks@.take(i), most) < most
            &&& good_rows(items@) == if good_rows(chunks@) < most {
                good_rows(chunks@)
            } else {
                most
            }
        },
{
    let mut items: Vec<Result<usize, u64>> = Vec::new();
    let mut i: usize = 0;
    let bound: u64 = match limit {
        Some(limit) => limit,
        None => {
            while i < chunks.len()
                invariant
                    i <= chunks@.len(),
                    items@ == chunks@.take(i as int),
                decreases chunks@.len() - i,
            {
                items.push(chunks[i]);
                i = i + 1;
                assert(items@ =~= chunks@.take(i as int));
            }
            assert(items@ =~= chunks@);
            return items;
        },
    };
    let mut remaining: usize = initial_rows(bound);
    let ghost most = remaining as int;
    assert(chunks@.take(0) =~= Seq::empty());
    while i < chunks.len()
        invariant
            i <= chunks@.len(),
            items@.len() == i,
            limit == Some(bound),
            most == most_rows(bound),
            remaining == most - yielded(chunks@.take(i as int), most),
            good_rows(items@) == yielded(chunks@.take(i as int), most),
            forall|j: int|
                0 <= j < items@.len() ==> #[trigger] items@[j] == (match chunks@[j] {
                    Ok(_) => Ok::<usize, u64>(
                        (yielded(chunks@.take(j + 1), most) - yielded(
                            chunks@.take(j),
                            most,
                        )) as usize,
                    ),
                    Err(error) => Err(error),
                }),
            forall|j: int| 0 <= j < i ==> yielded(#[trigger] chunks@.take(j), most) < most,
        decreases chunks@.len() - i,
    {
        assert(chunks@.take(i + 1).drop_last() =~= chunks@.take(i as int));
        let ghost before = items@;
        match truncate(&mut remaining, chunks[i]) {
            Some(item) => {
                items.push(item);
                assert(items@.drop_last() =~= before);
            },
            None => {
                proof {
                    law_limit_bounds_total(chunks@.take(i as int), most);
                    lemma_total_prefix(chunks@, i as int);
                }
                return items;
            },
        }
        i = i + 1;
    }
    proof {
        assert(chunks@.take(i as int) =~= chunks@);
        law_limit_bounds_total(chunks@, most);
    }
    items
}

/// The rows of chunks add up, however the chunks are split; a failed chunk has none.
pub proof fn law_good_rows_add_up(
    front: Seq<Result<usize, u64>>,
    back: Seq<Result<usize, u64>>,
    len: usize,
    error: u64,
)
    ensures
        good_rows(front + back) == good_rows(front) + good_rows(back),
        good_rows(seq![Ok::<usize, u64>(len)]) == len,
        good_rows(seq![Err::<usize, u64>(error)]) == 0,
    decreases back.len(),
{
    reveal_with_fuel(good_rows, 2);
    assert(seq![Ok::<usize, u64>(len)].drop_last() =~= Seq::empty());
    assert(seq![Err::<usize, u64>(error)].drop_last() =~= Seq::empty());
    if back.len() > 0 {
        law_good_rows_add_up(front, back.drop_last(), len, error);
        assert((front + back).drop_last() =~= front + back.drop_last());
    } else {
        assert(front + back =~= front);
    }
}

} // verus!
