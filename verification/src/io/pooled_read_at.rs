//! Reads of a file in chunks, through buffers that are pooled.

use vstd::prelude::*;

use crate::files::chunk_slice;
use crate::files::slice_count;
use crate::files::split_larger;
use crate::files::ChunkSlice;
use crate::io::assembly::ByteRange;
use crate::io::assembly::ReadAtRequest;
use crate::io::assembly::ReadError;

verus! {

/// The largest read of a file that is made at once.
pub const FILE_READ_CHUNK_BYTES: usize = 0x40_0000;

/// How files are read.
#[derive(Clone, Copy, Debug, PartialEq, Eq, Structural)]
pub struct PooledFileReadAtOptions {
    /// Whether reads bypass the cache of the operating system.
    pub direct_io: bool,
}

impl Default for PooledFileReadAtOptions {
    fn default() -> (options: Self)
        ensures
            !options.direct_io,
    {
        PooledFileReadAtOptions { direct_io: false }
    }
}

impl PooledFileReadAtOptions {
    /// Bypass the cache of the operating system.
    pub fn with_direct_io(self) -> (options: Self)
        ensures
            options == (PooledFileReadAtOptions { direct_io: true, ..self }),
    {
        PooledFileReadAtOptions { direct_io: true, ..self }
    }
}

/// One of the reads that a read of a file is made of.
#[derive(Clone, Copy, Debug, PartialEq, Eq, Structural)]
pub struct FileChunk {
    /// Its first byte in the file.
    pub offset: u64,
    /// Its first byte in the read.
    pub start: usize,
    /// How many bytes.
    pub length: usize,
}

/// Chunk `i` of a read.
pub open spec fn file_chunk(request: ReadAtRequest, i: int) -> FileChunk {
    let slice = chunk_slice(request.length as int, FILE_READ_CHUNK_BYTES as int, i);
    FileChunk {
        offset: (request.offset + slice.start) as u64,
        start: slice.start,
        length: (slice.end - slice.start) as usize,
    }
}

/// The reads that a read of a file is made of. A range that ends beyond the largest position is
/// refused before anything is read.
pub fn file_chunks(request: ReadAtRequest) -> (chunks: Result<Vec<FileChunk>, ReadError>)
    ensures
        match chunks {
            Ok(chunks) => {
                &&& request.range_spec() is Some
                &&& chunks@.len() == slice_count(
                    request.length as int,
                    FILE_READ_CHUNK_BYTES as int,
                )
                &&& forall|i: int|
                    0 <= i < chunks@.len() ==> #[trigger] chunks@[i] == file_chunk(request, i)
            },
            Err(error) => request.range_spec() is None && error == ReadError::RangeOverflow,
        },
{
    let range: ByteRange = match request.range() {
        Ok(range) => range,
        Err(error) => return Err(error),
    };
    let slices: Vec<ChunkSlice> = split_larger(request.length, FILE_READ_CHUNK_BYTES);
    let mut chunks: Vec<FileChunk> = Vec::new();
    let mut i: usize = 0;
    while i < slices.len()
        invariant
            i <= slices@.len(),
            request.range_spec() == Some(range),
            slices@.len() == slice_count(request.length as int, FILE_READ_CHUNK_BYTES as int),
            forall|j: int|
                0 <= j < slices@.len() ==> #[trigger] slices@[j] == chunk_slice(
                    request.length as int,
                    FILE_READ_CHUNK_BYTES as int,
                    j,
                ),
            chunks@.len() == i,
            forall|j: int| 0 <= j < i ==> #[trigger] chunks@[j] == file_chunk(request, j),
        decreases slices@.len() - i,
    {
        let slice: ChunkSlice = slices[i];
        proof {
            crate::files::law_slices_cover(request.length, FILE_READ_CHUNK_BYTES, i as int);
            lemma_slice_inside(request.length, i as int);
        }
        chunks.push(
            FileChunk {
                offset: range.start + slice.start as u64,
                start: slice.start,
                length: slice.end - slice.start,
            },
        );
        i = i + 1;
    }
    Ok(chunks)
}

/// A slice ends inside the whole.
proof fn lemma_slice_inside(len: usize, i: int)
    requires
        0 <= i < slice_count(len as int, FILE_READ_CHUNK_BYTES as int),
    ensures
        chunk_slice(len as int, FILE_READ_CHUNK_BYTES as int, i).end <= len,
{
}

/// The chunks of a read follow one another in the file and in the read, from the first byte to the
/// last, so that each byte is read once and lands at its place.
pub proof fn law_chunks_cover(request: ReadAtRequest, i: int)
    requires
        request.range_spec() is Some,
        0 <= i < slice_count(request.length as int, FILE_READ_CHUNK_BYTES as int),
    ensures
        ({
            let chunk = file_chunk(request, i);
            let last = slice_count(request.length as int, FILE_READ_CHUNK_BYTES as int) - 1;
            &&& 0 < chunk.length <= FILE_READ_CHUNK_BYTES
            &&& chunk.offset == request.offset + chunk.start
            &&& i == 0 ==> chunk.start == 0
            &&& i < last ==> file_chunk(request, i + 1).start == chunk.start + chunk.length
            &&& i == last ==> chunk.start + chunk.length == request.length
        }),
{
    crate::files::law_slices_cover(request.length, FILE_READ_CHUNK_BYTES, i);
    lemma_slice_inside(request.length, i);
}

} // verus!
