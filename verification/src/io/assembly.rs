//! A read of one range, and the bytes that a stream delivers for it.

use vstd::prelude::*;

verus! {

/// A range of bytes of an object.
#[derive(Clone, Copy, Debug, PartialEq, Eq, Structural)]
pub struct ByteRange {
    /// The first byte.
    pub start: u64,
    /// The byte after the last.
    pub end: u64,
}

/// A read at a position.
#[derive(Clone, Copy, Debug, PartialEq, Eq, Structural)]
pub struct ReadAtRequest {
    /// The first byte.
    pub offset: u64,
    /// How many bytes.
    pub length: usize,
    /// The alignment of the buffer that receives them.
    pub alignment: usize,
}

/// Why a read failed.
#[derive(Clone, Copy, Debug, PartialEq, Eq, Structural)]
pub enum ReadError {
    /// The range ends beyond the largest position.
    RangeOverflow,
    /// A call to the outside failed, for a reason known by its number.
    Outside(u64),
    /// The number of bytes that the stream delivered does not fit the machine's word.
    CountOverflow,
    /// The stream delivered more bytes than were asked for.
    TooManyBytes {
        /// The bytes so far.
        delivered: usize,
        /// The bytes that were asked for.
        expected: usize,
        /// Their range.
        range: ByteRange,
    },
    /// The stream delivered fewer bytes than were asked for.
    TooFewBytes {
        /// The bytes in all.
        delivered: usize,
        /// The bytes that were asked for.
        expected: usize,
        /// Their range.
        range: ByteRange,
    },
    /// The store answered with another range than was asked for.
    OtherRange {
        /// The range of the answer.
        answered: ByteRange,
        /// The range that was asked for.
        asked: ByteRange,
    },
    /// The object is no longer the one that was identified.
    IdentityChanged,
    /// The reader's path is not that of the identified object.
    OtherPath,
}

impl ReadAtRequest {
    /// The range of the read, if it ends at a position.
    pub open spec fn range_spec(self) -> Option<ByteRange> {
        if self.offset + self.length <= u64::MAX {
            Some(ByteRange { start: self.offset, end: (self.offset + self.length) as u64 })
        } else {
            None
        }
    }

    /// The range of the read, or an error where it ends beyond the largest position.
    pub fn range(self) -> (range: Result<ByteRange, ReadError>)
        ensures
            range == (match self.range_spec() {
                Some(range) => Ok::<ByteRange, ReadError>(range),
                None => Err(ReadError::RangeOverflow),
            }),
    {
        match self.offset.checked_add(self.length as u64) {
            Some(end) => Ok(ByteRange { start: self.offset, end }),
            None => Err(ReadError::RangeOverflow),
        }
    }
}

/// Whether so many delivered bytes are too many, and then why.
pub open spec fn excess_of(delivered: int, length: usize, range: ByteRange) -> Option<ReadError> {
    if delivered > usize::MAX {
        Some(ReadError::CountOverflow)
    } else if delivered > length {
        Some(
            ReadError::TooManyBytes { delivered: delivered as usize, expected: length, range },
        )
    } else {
        None
    }
}

/// The bytes of a range, as a stream delivers them.
pub struct StreamAssembly {
    /// The bytes so far.
    pub buffer: Vec<u8>,
    /// How many there have to be.
    pub length: usize,
    /// Their range.
    pub range: ByteRange,
}

impl StreamAssembly {
    /// No more bytes were delivered than were asked for.
    pub open spec fn wf(self) -> bool {
        self.buffer@.len() <= self.length
    }

    /// Whether `bytes` more would be too many, and then why.
    pub open spec fn excess(self, bytes: int) -> Option<ReadError> {
        excess_of(self.buffer@.len() + bytes, self.length, self.range)
    }

    /// Before the first bytes.
    pub fn new(length: usize, range: ByteRange) -> (assembly: Self)
        ensures
            assembly.wf(),
            assembly.buffer@ == Seq::<u8>::empty(),
            assembly.length == length,
            assembly.range == range,
    {
        StreamAssembly { buffer: Vec::new(), length, range }
    }

    /// The stream delivered `bytes`.
    pub fn push(&mut self, bytes: &[u8]) -> (result: Result<(), ReadError>)
        requires
            old(self).wf(),
        ensures
            final(self).wf(),
            final(self).length == old(self).length,
            final(self).range == old(self).range,
            match old(self).excess(bytes@.len() as int) {
                Some(error) => result == Err::<(), ReadError>(error) && final(self).buffer@
                    == old(self).buffer@,
                None => result == Ok::<(), ReadError>(()) && final(self).buffer@
                    == old(self).buffer@ + bytes@,
            },
    {
        let written: usize = self.buffer.len();
        let delivered: usize = match written.checked_add(bytes.len()) {
            Some(delivered) => delivered,
            None => return Err(ReadError::CountOverflow),
        };
        if delivered > self.length {
            return Err(
                ReadError::TooManyBytes { delivered, expected: self.length, range: self.range },
            );
        }
        let ghost start = self.buffer@;
        let mut i: usize = 0;
        while i < bytes.len()
            invariant
                i <= bytes@.len(),
                self.length == old(self).length,
                self.range == old(self).range,
                self.buffer@ == start + bytes@.take(i as int),
            decreases bytes@.len() - i,
        {
            self.buffer.push(bytes[i]);
            i = i + 1;
            assert(self.buffer@ =~= start + bytes@.take(i as int));
        }
        assert(bytes@.take(i as int) =~= bytes@);
        Ok(())
    }

    /// The stream ended: all bytes have to be there.
    pub fn finish(self) -> (result: Result<Vec<u8>, ReadError>)
        requires
            self.wf(),
        ensures
            result == (if self.buffer@.len() == self.length {
                Ok::<Vec<u8>, ReadError>(self.buffer)
            } else {
                Err(
                    ReadError::TooFewBytes {
                        delivered: self.buffer@.len() as usize,
                        expected: self.length,
                        range: self.range,
                    },
                )
            }),
    {
        let delivered: usize = self.buffer.len();
        if delivered == self.length {
            Ok(self.buffer)
        } else {
            Err(ReadError::TooFewBytes { delivered, expected: self.length, range: self.range })
        }
    }
}

/// All bytes of a sequence of chunks.
pub open spec fn concatenated(chunks: Seq<Vec<u8>>) -> Seq<u8>
    decreases chunks.len(),
{
    if chunks.len() == 0 {
        seq![]
    } else {
        concatenated(chunks.drop_last()) + chunks.last()@
    }
}

/// The bytes of a prefix of chunks are a prefix of all bytes.
proof fn lemma_concatenated_prefix(chunks: Seq<Vec<u8>>, n: int)
    requires
        0 <= n <= chunks.len(),
    ensures
        concatenated(chunks.take(n)).len() <= concatenated(chunks).len(),
    decreases chunks.len(),
{
    if n < chunks.len() {
        assert(chunks.drop_last().take(n) =~= chunks.take(n));
        lemma_concatenated_prefix(chunks.drop_last(), n);
    } else {
        assert(chunks.take(n) =~= chunks);
    }
}

/// The bytes that a stream delivered with these chunks, or why the first chunk that brings too
/// many of them is refused.
pub open spec fn gathered(chunks: Seq<Vec<u8>>, length: usize, range: ByteRange) -> Result<
    Seq<u8>,
    ReadError,
>
    decreases chunks.len(),
{
    if chunks.len() == 0 {
        Ok(seq![])
    } else {
        match gathered(chunks.drop_last(), length, range) {
            Err(error) => Err(error),
            Ok(bytes) => match excess_of((bytes.len() + chunks.last()@.len()) as int, length, range) {
                Some(error) => Err(error),
                None => Ok(bytes + chunks.last()@),
            },
        }
    }
}

/// A chunk that is refused decides, whatever follows.
proof fn lemma_refused(chunks: Seq<Vec<u8>>, length: usize, range: ByteRange, n: int)
    requires
        0 <= n <= chunks.len(),
        gathered(chunks.take(n), length, range) is Err,
    ensures
        gathered(chunks, length, range) == gathered(chunks.take(n), length, range),
    decreases chunks.len(),
{
    if n < chunks.len() {
        assert(chunks.drop_last().take(n) =~= chunks.take(n));
        lemma_refused(chunks.drop_last(), length, range, n);
    } else {
        assert(chunks.take(n) =~= chunks);
    }
}

/// The bytes of a stream that delivered these chunks and ended: there are any if and only if the
/// chunks hold exactly as many bytes as were asked for, and then they are those of the chunks.
pub fn assemble(chunks: &Vec<Vec<u8>>, length: usize, range: ByteRange) -> (result: Result<
    Vec<u8>,
    ReadError,
>)
    ensures
        match result {
            Ok(bytes) => bytes@ == concatenated(chunks@) && bytes@.len() == length,
            Err(error) => {
                &&& concatenated(chunks@).len() != length
                &&& error == (match gathered(chunks@, length, range) {
                    Err(error) => error,
                    Ok(bytes) => ReadError::TooFewBytes {
                        delivered: bytes.len() as usize,
                        expected: length,
                        range,
                    },
                })
            },
        },
{
    let mut assembly = StreamAssembly::new(length, range);
    let mut i: usize = 0;
    while i < chunks.len()
        invariant
            i <= chunks@.len(),
            assembly.wf(),
            assembly.length == length,
            assembly.range == range,
            assembly.buffer@ == concatenated(chunks@.take(i as int)),
            gathered(chunks@.take(i as int), length, range) == Ok::<Seq<u8>, ReadError>(
                assembly.buffer@,
            ),
        decreases chunks@.len() - i,
    {
        assert(chunks@.take(i + 1).drop_last() =~= chunks@.take(i as int));
        proof {
            lemma_concatenated_prefix(chunks@, i + 1);
        }
        match assembly.push(chunks[i].as_slice()) {
            Ok(()) => {},
            Err(error) => {
                proof {
                    lemma_refused(chunks@, length, range, i + 1);
                }
                return Err(error);
            },
        }
        i = i + 1;
    }
    assert(chunks@.take(i as int) =~= chunks@);
    assembly.finish()
}

/// Every chunk stands, byte for byte, where the chunks before it end.
pub proof fn law_chunks_stand_in_order(chunks: Seq<Vec<u8>>, k: int)
    requires
        0 <= k < chunks.len(),
    ensures
        ({
            let start = concatenated(chunks.take(k)).len() as int;
            let end = start + chunks[k]@.len();
            &&& concatenated(chunks.take(k + 1)).len() == end
            &&& end <= concatenated(chunks).len()
            &&& concatenated(chunks).subrange(start, end) == chunks[k]@
        }),
    decreases chunks.len(),
{
    let front = chunks.drop_last();
    let start = concatenated(chunks.take(k)).len() as int;
    let end = start + chunks[k]@.len();
    let whole = concatenated(chunks);
    assert(chunks.take(k + 1).drop_last() =~= chunks.take(k));
    if k < front.len() {
        assert(front.take(k) =~= chunks.take(k));
        assert(front.take(k + 1) =~= chunks.take(k + 1));
        law_chunks_stand_in_order(front, k);
        assert(whole.subrange(start, end) =~= concatenated(front).subrange(start, end));
    } else {
        assert(chunks.take(k) =~= front);
        assert(whole.subrange(start, end) =~= chunks[k]@);
    }
}

/// A stream is refused exactly if it delivers too many bytes, and by the count of the chunk that
/// brings the first one too many.
pub proof fn law_refused_by_first_excess(
    chunks: Seq<Vec<u8>>,
    length: usize,
    range: ByteRange,
    k: int,
)
    requires
        0 <= k < chunks.len(),
        concatenated(chunks.take(k)).len() <= length,
        concatenated(chunks.take(k + 1)).len() > length,
    ensures
        gathered(chunks, length, range) == Err::<Seq<u8>, _>(
            if concatenated(chunks.take(k + 1)).len() <= usize::MAX {
                ReadError::TooManyBytes {
                    delivered: concatenated(chunks.take(k + 1)).len() as usize,
                    expected: length,
                    range,
                }
            } else {
                ReadError::CountOverflow
            },
        ),
{
    let through = chunks.take(k + 1);
    assert(through.drop_last() =~= chunks.take(k));
    lemma_gathered_all(chunks.take(k), length, range);
    lemma_refused(chunks, length, range, k + 1);
}

/// Chunks that do not bring too many bytes are gathered.
proof fn lemma_gathered_all(chunks: Seq<Vec<u8>>, length: usize, range: ByteRange)
    requires
        concatenated(chunks).len() <= length,
    ensures
        gathered(chunks, length, range) == Ok::<Seq<u8>, ReadError>(concatenated(chunks)),
    decreases chunks.len(),
{
    if chunks.len() > 0 {
        lemma_gathered_all(chunks.drop_last(), length, range);
    }
}

/// The range of a read starts at its position and has as many bytes as were asked for; there is none
/// exactly if it would end beyond the largest position.
pub proof fn law_range_of_request(request: ReadAtRequest)
    ensures
        match request.range_spec() {
            Some(range) => range.start == request.offset && range.end - range.start
                == request.length,
            None => request.offset + request.length > 0xffff_ffff_ffff_ffff,
        },
{
}

} // verus!
