//! The filter over a join's keys: which columns it can be probed with, when it is worth probing,
//! and its verdict on each row.

use vstd::prelude::*;
use vstd::slice::slice_subrange;

use crate::abi::PType;
use crate::bits::bit;
use crate::bits::bit_at;
use crate::bits::clear_bits;
use crate::bits::lemma_pack_unique;
use crate::bits::pack;
use crate::bits::set_bit;
use crate::bloom::hash::hash_bits;
use crate::bloom::hash::hash_bits_spec;
use crate::bloom::hash::hash_bytes;
use crate::bloom::hash::hash_bytes_spec;
use crate::bloom::hash::is_float;
use crate::bloom::hash::is_signed;
use crate::bloom::hash::law_hash_is_mixed_value;
use crate::bloom::hash::law_hash_of_integer_bits;
use crate::bloom::hash::DuckDbHash;
use crate::bloom::hash::NULL_HASH;
use crate::bloom::probe::contains_spec;
use crate::bloom::probe::is_power_of_two;
use crate::bloom::probe::Sectors;
use crate::data::buffer_contents;
use crate::data::le_value;
use crate::data::ArrayKind;
use crate::data::ArrayView;
use crate::data::PrimitiveView;
use crate::decoded::view_value;
use crate::decoded::MAX_INLINED;
use crate::decoded::VIEW_SIZE;
use crate::le::read_u32;
use crate::le::u32_at;

verus! {

/// How many rows a filter probes before its selectivity is judged.
pub const SELECTIVITY_CHECK_ROWS: u64 = 153_600;

/// A filter that passes one row in this many, or more, is not worth probing.
pub const SELECTIVITY_DIVISOR: u64 = 4;

/// Why a filter could not be probed.
#[derive(Clone, Copy, Debug, PartialEq, Eq, Structural)]
pub enum BloomError {
    /// The keys are half-precision floats, which the join has no type for.
    HalfPrecision,
    /// Keys of this type are not hashed.
    UnsupportedKey,
    /// The column's keys are not of the kind the filter was built from.
    KeyMismatch,
}

impl BloomError {
    /// What went wrong.
    pub fn message(self) -> (message: &'static str)
        ensures
            message@ == (match self {
                BloomError::HalfPrecision => "DuckDB has no half-precision type to hash"@,
                BloomError::UnsupportedKey => "unsupported bloom filter key type"@,
                BloomError::KeyMismatch => "bloom filter was built from other keys"@,
            }),
    {
        match self {
            BloomError::HalfPrecision => "DuckDB has no half-precision type to hash",
            BloomError::UnsupportedKey => "unsupported bloom filter key type",
            BloomError::KeyMismatch => "bloom filter was built from other keys",
        }
    }
}

/// The physical representation a join key is hashed as.
#[derive(Clone, Copy, Debug, PartialEq, Eq, Structural)]
pub enum KeyKind {
    /// A boolean.
    Bool,
    /// A fixed-width number.
    Primitive(PType),
    /// A string or blob.
    Bytes,
}

impl KeyKind {
    /// The name of the kind.
    pub open spec fn name_spec(self) -> Seq<char> {
        match self {
            KeyKind::Bool => "bool"@,
            KeyKind::Primitive(PType::I8) => "i8"@,
            KeyKind::Primitive(PType::I16) => "i16"@,
            KeyKind::Primitive(PType::I32) => "i32"@,
            KeyKind::Primitive(PType::I64) => "i64"@,
            KeyKind::Primitive(PType::U8) => "u8"@,
            KeyKind::Primitive(PType::U16) => "u16"@,
            KeyKind::Primitive(PType::U32) => "u32"@,
            KeyKind::Primitive(PType::U64) => "u64"@,
            KeyKind::Primitive(PType::F16) => "f16"@,
            KeyKind::Primitive(PType::F32) => "f32"@,
            KeyKind::Primitive(PType::F64) => "f64"@,
            KeyKind::Bytes => "bytes"@,
        }
    }

    /// The name of the kind.
    pub fn name(self) -> (name: &'static str)
        ensures
            name@ == self.name_spec(),
    {
        match self {
            KeyKind::Bool => "bool",
            KeyKind::Primitive(ptype) => match ptype {
                PType::I8 => "i8",
                PType::I16 => "i16",
                PType::I32 => "i32",
                PType::I64 => "i64",
                PType::U8 => "u8",
                PType::U16 => "u16",
                PType::U32 => "u32",
                PType::U64 => "u64",
                PType::F16 => "f16",
                PType::F32 => "f32",
                PType::F64 => "f64",
            },
            KeyKind::Bytes => "bytes",
        }
    }
}

/// What is read of a column's type: which kind of key it holds.
pub enum KeyDType {
    /// Booleans.
    Bool,
    /// Fixed-width numbers.
    Primitive(PType),
    /// Strings.
    Utf8,
    /// Blobs.
    Binary,
    /// An extension type over a storage type.
    Extension(Box<KeyDType>),
    /// Any other type.
    Other,
}

/// The logical types of the engine that plans the join.
#[derive(Clone, Copy, Debug, PartialEq, Eq, Structural)]
pub enum DuckDbType {
    /// BOOLEAN
    Boolean,
    /// TINYINT
    TinyInt,
    /// SMALLINT
    SmallInt,
    /// INTEGER
    Integer,
    /// BIGINT
    BigInt,
    /// UTINYINT
    UTinyInt,
    /// USMALLINT
    USmallInt,
    /// UINTEGER
    UInteger,
    /// UBIGINT
    UBigInt,
    /// FLOAT
    Float,
    /// DOUBLE
    Double,
    /// DATE
    Date,
    /// TIME
    Time,
    /// TIME_NS
    TimeNs,
    /// TIMESTAMP
    Timestamp,
    /// TIMESTAMP_S
    TimestampS,
    /// TIMESTAMP_MS
    TimestampMs,
    /// TIMESTAMP_NS
    TimestampNs,
    /// TIMESTAMP WITH TIME ZONE
    TimestampTz,
    /// VARCHAR
    Varchar,
    /// BLOB
    Blob,
    /// Any other type, by its number.
    Other(u32),
}

impl KeyDType {
    /// The way values of this type are hashed: an extension type as its storage.
    pub open spec fn key_kind_spec(self) -> Option<KeyKind>
        decreases self,
    {
        match self {
            KeyDType::Bool => Some(KeyKind::Bool),
            KeyDType::Primitive(PType::F16) => None,
            KeyDType::Primitive(ptype) => Some(KeyKind::Primitive(ptype)),
            KeyDType::Utf8 | KeyDType::Binary => Some(KeyKind::Bytes),
            KeyDType::Extension(storage) => storage.key_kind_spec(),
            KeyDType::Other => None,
        }
    }
}

impl DuckDbType {
    /// The physical representation values of a logical type are hashed as. Only types whose
    /// stored bits are what the join hashes are listed.
    pub open spec fn key_kind_spec(self) -> Option<KeyKind> {
        match self {
            DuckDbType::Boolean => Some(KeyKind::Bool),
            DuckDbType::TinyInt => Some(KeyKind::Primitive(PType::I8)),
            DuckDbType::SmallInt => Some(KeyKind::Primitive(PType::I16)),
            DuckDbType::Integer | DuckDbType::Date => Some(KeyKind::Primitive(PType::I32)),
            DuckDbType::BigInt
            | DuckDbType::Time
            | DuckDbType::TimeNs
            | DuckDbType::Timestamp
            | DuckDbType::TimestampS
            | DuckDbType::TimestampMs
            | DuckDbType::TimestampNs
            | DuckDbType::TimestampTz => Some(KeyKind::Primitive(PType::I64)),
            DuckDbType::UTinyInt => Some(KeyKind::Primitive(PType::U8)),
            DuckDbType::USmallInt => Some(KeyKind::Primitive(PType::U16)),
            DuckDbType::UInteger => Some(KeyKind::Primitive(PType::U32)),
            DuckDbType::UBigInt => Some(KeyKind::Primitive(PType::U64)),
            DuckDbType::Float => Some(KeyKind::Primitive(PType::F32)),
            DuckDbType::Double => Some(KeyKind::Primitive(PType::F64)),
            DuckDbType::Varchar | DuckDbType::Blob => Some(KeyKind::Bytes),
            DuckDbType::Other(_) => None,
        }
    }
}

/// The way values of `dtype` are hashed, or `None` when the join's hash cannot be reproduced.
///
/// Extension types hash as their storage: a date as its day count, a timestamp as its ticks.
pub fn key_kind(dtype: &KeyDType) -> (kind: Option<KeyKind>)
    ensures
        kind == dtype.key_kind_spec(),
    decreases dtype,
{
    match dtype {
        KeyDType::Bool => Some(KeyKind::Bool),
        KeyDType::Primitive(ptype) => match ptype {
            PType::F16 => None,
            _ => Some(KeyKind::Primitive(*ptype)),
        },
        KeyDType::Utf8 | KeyDType::Binary => Some(KeyKind::Bytes),
        KeyDType::Extension(storage) => key_kind(storage),
        KeyDType::Other => None,
    }
}

/// The physical representation values of a logical type are hashed as.
pub fn duckdb_key_kind(key_type: DuckDbType) -> (kind: Option<KeyKind>)
    ensures
        kind == key_type.key_kind_spec(),
{
    match key_type {
        DuckDbType::Boolean => Some(KeyKind::Bool),
        DuckDbType::TinyInt => Some(KeyKind::Primitive(PType::I8)),
        DuckDbType::SmallInt => Some(KeyKind::Primitive(PType::I16)),
        DuckDbType::Integer | DuckDbType::Date => Some(KeyKind::Primitive(PType::I32)),
        DuckDbType::BigInt
        | DuckDbType::Time
        | DuckDbType::TimeNs
        | DuckDbType::Timestamp
        | DuckDbType::TimestampS
        | DuckDbType::TimestampMs
        | DuckDbType::TimestampNs
        | DuckDbType::TimestampTz => Some(KeyKind::Primitive(PType::I64)),
        DuckDbType::UTinyInt => Some(KeyKind::Primitive(PType::U8)),
        DuckDbType::USmallInt => Some(KeyKind::Primitive(PType::U16)),
        DuckDbType::UInteger => Some(KeyKind::Primitive(PType::U32)),
        DuckDbType::UBigInt => Some(KeyKind::Primitive(PType::U64)),
        DuckDbType::Float => Some(KeyKind::Primitive(PType::F32)),
        DuckDbType::Double => Some(KeyKind::Primitive(PType::F64)),
        DuckDbType::Varchar | DuckDbType::Blob => Some(KeyKind::Bytes),
        DuckDbType::Other(_) => None,
    }
}

/// The probe of one pushed-down filter.
///
/// The filter itself is owned by the join and published once its build side is done, so it is
/// handed in afresh for every batch. Equality compares the identity of the filter rather than its
/// contents, so that an expression tree keeps a stable identity as the join fills the filter in.
#[derive(Clone, Copy)]
pub struct BloomFilterProbe {
    /// Which filter this is.
    pub identity: u64,
    /// The kind of keys it was built from.
    pub keys: KeyKind,
    /// How many of the probed rows passed.
    pub rows_passed: u64,
    /// How many rows were probed.
    pub rows_probed: u64,
    /// Set once the filter has proven too weak to be worth probing.
    pub paused: bool,
}

impl BloomFilterProbe {
    /// The probe by the identity of its filter alone, with the rest left blank.
    pub open spec fn named(self) -> BloomFilterProbe {
        BloomFilterProbe {
            identity: self.identity,
            keys: KeyKind::Bool,
            rows_passed: 0,
            rows_probed: 0,
            paused: false,
        }
    }
}

/// The probe that a filter gets when it is pushed onto a column, before any row is probed; `None`
/// where it cannot be applied.
pub open spec fn fresh_probe(
    identity: u64,
    key_type: DuckDbType,
    dtype: KeyDType,
    column_type: Option<DuckDbType>,
) -> Option<BloomFilterProbe> {
    if key_type.key_kind_spec() is Some && dtype.key_kind_spec() == key_type.key_kind_spec()
        && column_type == Some(key_type) {
        Some(
            BloomFilterProbe {
                identity,
                keys: key_type.key_kind_spec()->Some_0,
                rows_passed: 0,
                rows_probed: 0,
                paused: false,
            },
        )
    } else {
        None
    }
}

impl PartialEq for BloomFilterProbe {
    fn eq(&self, other: &Self) -> (same: bool) {
        self.identity == other.identity
    }
}

impl vstd::std_specs::cmp::PartialEqSpecImpl for BloomFilterProbe {
    open spec fn obeys_eq_spec() -> bool {
        true
    }

    open spec fn eq_spec(&self, other: &Self) -> bool {
        self.identity == other.identity
    }
}

/// Builds the probe for a filter pushed onto a column of `dtype`, which the engine knows as a
/// column of `column_type`.
///
/// Returns `None` when the filter cannot be applied, either because the hash of the key type
/// cannot be reproduced or because the column is not what the engine believes the join key to be.
/// The filter is always pushed inside an optional one, so declining it only costs the rows it
/// would have ruled out.
pub fn try_new_probe(
    identity: u64,
    key_type: DuckDbType,
    dtype: &KeyDType,
    column_type: Option<DuckDbType>,
) -> (probe: Option<BloomFilterProbe>)
    ensures
        probe == fresh_probe(identity, key_type, *dtype, column_type),
{
    let keys: KeyKind = match duckdb_key_kind(key_type) {
        Some(keys) => keys,
        None => return None,
    };
    match key_kind(dtype) {
        Some(kind) => if kind != keys {
            return None;
        },
        None => return None,
    }
    match column_type {
        Some(column) => if column != key_type {
            return None;
        },
        None => return None,
    }
    Some(BloomFilterProbe { identity, keys, rows_passed: 0, rows_probed: 0, paused: false })
}

/// A constant key.
pub enum KeyScalar {
    /// A NULL of any type.
    Null,
    /// A boolean.
    Bool(bool),
    /// A number, by its bits zero-extended to 64.
    Primitive(PType, u64),
    /// A string or blob.
    Bytes(Vec<u8>),
    /// A value of an extension type, by its storage value.
    Extension(Box<KeyScalar>),
    /// A value of any other type.
    Other,
}

impl KeyScalar {
    /// The hash of the key.
    pub open spec fn hash_spec(self) -> Result<u64, BloomError>
        decreases self,
    {
        match self {
            KeyScalar::Null => Ok(NULL_HASH),
            KeyScalar::Bool(value) => Ok(DuckDbHash::hash_spec(value)),
            KeyScalar::Primitive(ptype, bits) => match hash_bits_spec(ptype, bits) {
                Some(hash) => Ok(hash),
                None => Err(BloomError::HalfPrecision),
            },
            KeyScalar::Bytes(bytes) => Ok(hash_bytes_spec(bytes@)),
            KeyScalar::Extension(storage) => storage.hash_spec(),
            KeyScalar::Other => Err(BloomError::UnsupportedKey),
        }
    }
}

/// The hash of a constant key, matching the hashes of the same values in a column.
pub fn hash_scalar(scalar: &KeyScalar) -> (hash: Result<u64, BloomError>)
    ensures
        hash == scalar.hash_spec(),
    decreases scalar,
{
    match scalar {
        KeyScalar::Null => Ok(NULL_HASH),
        KeyScalar::Bool(value) => Ok(value.duckdb_hash()),
        KeyScalar::Primitive(ptype, bits) => match hash_bits(*ptype, *bits) {
            Some(hash) => Ok(hash),
            None => Err(BloomError::HalfPrecision),
        },
        KeyScalar::Bytes(bytes) => Ok(hash_bytes(bytes.as_slice())),
        KeyScalar::Extension(storage) => hash_scalar(storage),
        KeyScalar::Other => Err(BloomError::UnsupportedKey),
    }
}

impl<'a> ArrayView<'a> {
    /// The array whose rows are hashed: below every extension type, its storage.
    pub open spec fn key_array(self) -> ArrayView<'a>
        decreases self,
    {
        match self.kind {
            ArrayKind::Extension { storage } => storage.key_array(),
            _ => self,
        }
    }

    /// Why the keys of a column without extension types cannot be hashed, if they cannot.
    pub open spec fn key_error(self) -> Option<BloomError> {
        match self.kind {
            ArrayKind::Null | ArrayKind::Bool { .. } | ArrayKind::VarBinView { .. } => None,
            ArrayKind::Primitive { ptype, .. } => if ptype == PType::F16 {
                Some(BloomError::HalfPrecision)
            } else {
                None
            },
            _ => Some(BloomError::UnsupportedKey),
        }
    }

    /// Whether the value of row `i` stands inside the array's buffers.
    pub open spec fn key_in_bounds(self, i: int) -> bool {
        match self.kind {
            ArrayKind::Bool { bits } => i / 8 < bits@.len(),
            ArrayKind::Primitive { ptype, values } => (i + 1) * ptype.width() <= values@.len(),
            ArrayKind::VarBinView { views, data } => {
                let at = VIEW_SIZE * i;
                let size = u32_at(views@, at) as int;
                let buffer = u32_at(views@, at + 8) as int;
                &&& at + VIEW_SIZE <= views@.len()
                &&& size > MAX_INLINED ==> buffer < data@.len() && u32_at(views@, at + 12) + size
                    <= data@[buffer]@.len()
            },
            _ => true,
        }
    }

    /// Whether the values of all valid rows stand inside the array's buffers.
    pub open spec fn keys_in_bounds(self) -> bool {
        let array = self.key_array();
        forall|i: int|
            0 <= i < array.len && array.validity@.is_valid(i) ==> #[trigger] array.key_in_bounds(i)
    }

    /// The hash of the value of row `i`.
    pub open spec fn value_hash(self, i: int) -> u64 {
        match self.kind {
            ArrayKind::Bool { bits } => DuckDbHash::hash_spec(bit_at(bits@, i)),
            ArrayKind::Primitive { ptype, values } => hash_bits_spec(
                ptype,
                le_value(
                    values@.subrange(i * ptype.width() as int, (i + 1) * ptype.width() as int),
                ) as u64,
            )->Some_0,
            ArrayKind::VarBinView { views, data } => hash_bytes_spec(
                view_value(views@, buffer_contents(data@), i),
            ),
            _ => NULL_HASH,
        }
    }

    /// The hash of row `i`: that of its value, or that of a NULL key.
    pub open spec fn key_hash(self, i: int) -> u64 {
        if self.validity@.is_valid(i) {
            self.value_hash(i)
        } else {
            NULL_HASH
        }
    }

    /// Whether row `i` passes the filter.
    pub open spec fn passes(self, sectors: Seq<u64>, i: int) -> bool {
        contains_spec(sectors, self.key_hash(i))
    }

    /// The verdict on every row.
    pub open spec fn verdict(self, sectors: Seq<u64>) -> Result<Seq<u8>, BloomError> {
        let array = self.key_array();
        match array.key_error() {
            Some(error) => Err(error),
            None => Ok(pack(|i: int| array.passes(sectors, i), array.len as int)),
        }
    }

    /// How many of the first `n` rows pass.
    pub open spec fn passing(self, sectors: Seq<u64>, n: nat) -> nat
        decreases n,
    {
        if n == 0 {
            0
        } else {
            self.passing(sectors, (n - 1) as nat) + if self.passes(sectors, n - 1) {
                1nat
            } else {
                0nat
            }
        }
    }

    /// The hash of the value of a row.
    fn hash_value(&self, i: usize) -> (hash: u64)
        requires
            i < self.len,
            self.key_error() is None,
            self.key_in_bounds(i as int),
        ensures
            hash == self.value_hash(i as int),
    {
        match &self.kind {
            ArrayKind::Bool { bits } => {
                let value: bool = bit(bits, i);
                value.duckdb_hash()
            },
            ArrayKind::Primitive { ptype, values } => {
                let view = PrimitiveView {
                    ptype: *ptype,
                    len: self.len,
                    values,
                    validity: self.validity,
                };
                let bits: u64 = view.value_u64(i);
                match hash_bits(*ptype, bits) {
                    Some(hash) => hash,
                    None => NULL_HASH,
                }
            },
            ArrayKind::VarBinView { views, data } => {
                let ghost value = view_value(views@, buffer_contents(data@), i as int);
                assert(views.len() <= usize::MAX);
                let at: usize = VIEW_SIZE * i;
                let size: usize = read_u32(views, at) as usize;
                if size <= MAX_INLINED {
                    let inlined = slice_subrange(views, at + 4, at + 4 + size);
                    assert(inlined@ == value);
                    hash_bytes(inlined)
                } else {
                    let buffer: usize = read_u32(views, at + 8) as usize;
                    let offset: usize = read_u32(views, at + 12) as usize;
                    let bytes: &[u8] = data[buffer];
                    assert(bytes.len() <= usize::MAX);
                    let outlined = slice_subrange(bytes, offset, offset + size);
                    assert(outlined@ == value);
                    hash_bytes(outlined)
                }
            },
            _ => NULL_HASH,
        }
    }
}

/// Probes the filter for every row, hashing an invalid row to the value of a NULL key, which is
/// how the join itself probes one. The answer is a bitmap, and how many of its bits are set.
fn probe_rows<'a>(array: &ArrayView<'a>, sectors: &Sectors<'_>) -> (result: (Vec<u8>, usize))
    requires
        array.key_array() == *array,
        array.key_error() is None,
        array.keys_in_bounds(),
    ensures
        result.0@ == pack(|i: int| array.passes(sectors@, i), array.len as int),
        result.1 == array.passing(sectors@, array.len as nat),
        result.1 <= array.len,
{
    let ghost wanted = |i: int| array.passes(sectors@, i);
    let mut out: Vec<u8> = clear_bits(array.len);
    let mut count: usize = 0;
    let mut row: usize = 0;
    while row < array.len
        invariant
            row <= array.len,
            array.key_array() == *array,
            array.key_error() is None,
            array.keys_in_bounds(),
            out@.len() == (array.len + 7) / 8,
            wanted == |i: int| array.passes(sectors@, i),
            forall|i: int|
                0 <= i < 8 * out@.len() ==> #[trigger] bit_at(out@, i) == (i < row && wanted(i)),
            count == array.passing(sectors@, row as nat),
            count <= row,
        decreases array.len - row,
    {
        let hash: u64 = if array.validity.is_valid(row) {
            assert(array.key_in_bounds(row as int));
            array.hash_value(row)
        } else {
            NULL_HASH
        };
        if sectors.contains(hash) {
            assert(wanted(row as int));
            set_bit(&mut out, row);
            count = count + 1;
        } else {
            assert(!wanted(row as int));
        }
        row = row + 1;
    }
    proof {
        lemma_pack_unique(out@, wanted, array.len as int);
    }
    (out, count)
}

/// Probes the filter for every row of a column, below extension types for every row of its
/// storage.
fn probe_counted<'a>(array: &ArrayView<'a>, sectors: &Sectors<'_>) -> (result: Result<
    (Vec<u8>, usize),
    BloomError,
>)
    requires
        array.keys_in_bounds(),
    ensures
        match result {
            Ok((bits, count)) => {
                let keys = array.key_array();
                &&& array.verdict(sectors@) == Ok::<Seq<u8>, BloomError>(bits@)
                &&& count == keys.passing(sectors@, keys.len as nat)
                &&& count <= keys.len
            },
            Err(error) => array.verdict(sectors@) == Err::<Seq<u8>, BloomError>(error),
        },
    decreases array,
{
    match &array.kind {
        ArrayKind::Extension { storage } => probe_counted(storage, sectors),
        ArrayKind::Primitive { ptype, .. } => match ptype {
            PType::F16 => Err(BloomError::HalfPrecision),
            _ => Ok(probe_rows(array, sectors)),
        },
        ArrayKind::Null | ArrayKind::Bool { .. } | ArrayKind::VarBinView { .. } => Ok(
            probe_rows(array, sectors),
        ),
        _ => Err(BloomError::UnsupportedKey),
    }
}

/// Probes the filter for every row of a column.
pub fn probe_canonical<'a>(array: &ArrayView<'a>, sectors: &Sectors<'_>) -> (result: Result<
    Vec<u8>,
    BloomError,
>)
    requires
        array.keys_in_bounds(),
    ensures
        match result {
            Ok(bits) => array.verdict(sectors@) == Ok::<Seq<u8>, BloomError>(bits@),
            Err(error) => array.verdict(sectors@) == Err::<Seq<u8>, BloomError>(error),
        },
{
    match probe_counted(array, sectors) {
        Ok((bits, _)) => Ok(bits),
        Err(error) => Err(error),
    }
}

/// The keys of a batch.
pub enum KeyColumn<'a> {
    /// One key for all rows.
    Constant(KeyScalar),
    /// A key per row.
    Canonical(ArrayView<'a>),
}

/// The verdict on a batch.
pub enum Verdict {
    /// One verdict for all rows.
    Uniform(bool),
    /// A bitmap with a verdict per row.
    Rows(Vec<u8>),
}

/// The verdict on a batch, as contracts see it.
#[verifier::ext_equal]
pub enum VerdictModel {
    /// One verdict for all rows.
    Uniform(bool),
    /// A bitmap with a verdict per row.
    Rows(Seq<u8>),
}

impl View for Verdict {
    type V = VerdictModel;

    open spec fn view(&self) -> VerdictModel {
        match self {
            Verdict::Uniform(passes) => VerdictModel::Uniform(*passes),
            Verdict::Rows(bits) => VerdictModel::Rows(bits@),
        }
    }
}

impl<'a> KeyColumn<'a> {
    /// The verdict on the batch.
    pub open spec fn verdict(self, sectors: Seq<u64>) -> Result<VerdictModel, BloomError> {
        match self {
            KeyColumn::Constant(scalar) => match scalar.hash_spec() {
                Ok(hash) => Ok(VerdictModel::Uniform(contains_spec(sectors, hash))),
                Err(error) => Err(error),
            },
            KeyColumn::Canonical(array) => match array.verdict(sectors) {
                Ok(bits) => Ok(VerdictModel::Rows(bits)),
                Err(error) => Err(error),
            },
        }
    }

    /// How many rows of a batch of `row_count` pass.
    pub open spec fn passing(self, sectors: Seq<u64>, row_count: usize) -> int {
        match self {
            KeyColumn::Constant(scalar) => if contains_spec(sectors, scalar.hash_spec()->Ok_0) {
                row_count as int
            } else {
                0
            },
            KeyColumn::Canonical(array) => array.key_array().passing(
                sectors,
                array.key_array().len as nat,
            ) as int,
        }
    }

    /// Whether the values of all valid rows stand inside the column's buffers, and there are as
    /// many rows as the batch has.
    pub open spec fn holds(self, row_count: usize) -> bool {
        match self {
            KeyColumn::Constant(_) => true,
            KeyColumn::Canonical(array) => array.keys_in_bounds() && array.key_array().len
                == row_count,
        }
    }
}

impl BloomFilterProbe {
    /// The probe once `passed` of `probed` more rows were let through: its selectivity is judged
    /// by the batch that crosses the check point, and by no other.
    pub open spec fn observed(self, passed: int, probed: int) -> BloomFilterProbe {
        let total_passed = self.rows_passed + passed;
        let total_probed = self.rows_probed + probed;
        BloomFilterProbe {
            rows_passed: total_passed as u64,
            rows_probed: total_probed as u64,
            paused: self.paused || (self.rows_probed < SELECTIVITY_CHECK_ROWS && total_probed
                >= SELECTIVITY_CHECK_ROWS && SELECTIVITY_DIVISOR * total_passed >= total_probed),
            ..self
        }
    }

    /// A batch is judged only where it crosses the check point, and a paused filter stays paused.
    pub proof fn law_judged_once(self, first: (int, int), second: (int, int))
        requires
            0 <= first.0 && 0 <= first.1 && 0 <= second.0 && 0 <= second.1,
            self.rows_passed + first.0 + second.0 <= u64::MAX,
            self.rows_probed + first.1 + second.1 <= u64::MAX,
        ensures
            self.paused ==> self.observed(first.0, first.1).paused,
            self.rows_probed + first.1 >= SELECTIVITY_CHECK_ROWS ==> self.observed(
                first.0,
                first.1,
            ).observed(second.0, second.1).paused == self.observed(first.0, first.1).paused,
            self.rows_probed + first.1 < SELECTIVITY_CHECK_ROWS ==> self.observed(
                first.0,
                first.1,
            ).observed(second.0, second.1) == self.observed(
                first.0 + second.0,
                first.1 + second.1,
            ),
    {
    }

    /// Records how many of `probed` rows the filter let through, and gives up on a filter that
    /// rules out too few of them to pay for itself.
    pub fn observe(&mut self, passed: usize, probed: usize)
        requires
            old(self).rows_passed + passed <= u64::MAX,
            old(self).rows_probed + probed <= u64::MAX,
        ensures
            *final(self) == old(self).observed(passed as int, probed as int),
    {
        let before: u64 = self.rows_probed;
        self.rows_probed = before + probed as u64;
        self.rows_passed = self.rows_passed + passed as u64;
        let crossed: bool = before < SELECTIVITY_CHECK_ROWS && self.rows_probed
            >= SELECTIVITY_CHECK_ROWS;
        if crossed && self.rows_passed as u128 * 4 >= self.rows_probed as u128 {
            self.paused = true;
        }
    }

    /// The filter's bits, or `None` while it is not worth probing: either the join has not
    /// published the filter yet, or the filter turned out not to be selective.
    pub fn sectors<'a>(&self, published: Option<&'a [u64]>) -> (sectors: Option<Sectors<'a>>)
        requires
            published matches Some(bits) ==> is_power_of_two(bits@.len() as int),
        ensures
            match sectors {
                Some(sectors) => !self.paused && published is Some && sectors@
                    == published->Some_0@,
                None => self.paused || published is None,
            },
    {
        if self.paused {
            return None;
        }
        match published {
            Some(bits) => Some(Sectors::new(bits)),
            None => None,
        }
    }

    /// Where the filter stands: paused, pending, or probed with keys of its kind.
    pub fn status(&self, published: bool) -> (status: &'static str)
        ensures
            status@ == (if self.paused {
                "paused"@
            } else if !published {
                "pending"@
            } else {
                self.keys.name_spec()
            }),
    {
        if self.paused {
            "paused"
        } else if !published {
            "pending"
        } else {
            self.keys.name()
        }
    }
}

/// Probes the filter that a hash join built over its build side.
///
/// Takes the join key column and returns, for every row, whether the filter might contain its
/// value. False positives are possible; false negatives are not, so a row the filter rejects
/// cannot join.
#[derive(Clone, Copy)]
pub struct BloomFilterContains;

impl BloomFilterContains {
    /// The number of arguments: the keys.
    pub fn arity(&self) -> (arity: usize)
        ensures
            arity == 1,
    {
        1
    }

    /// The name of the argument.
    pub fn child_name(&self, child_idx: usize) -> (name: &'static str)
        requires
            child_idx == 0,
        ensures
            name@ == "keys"@,
    {
        "keys"
    }

    /// Whether a column's keys are what the filter was built from. The answer to a probe is never
    /// NULL, even for NULL keys.
    pub fn return_dtype(&self, probe: &BloomFilterProbe, dtype: &KeyDType) -> (result: Result<
        (),
        BloomError,
    >)
        ensures
            result == (if dtype.key_kind_spec() == Some(probe.keys) {
                Ok::<(), BloomError>(())
            } else {
                Err(BloomError::KeyMismatch)
            }),
    {
        match key_kind(dtype) {
            Some(kind) => if kind == probe.keys {
                Ok(())
            } else {
                Err(BloomError::KeyMismatch)
            },
            None => Err(BloomError::KeyMismatch),
        }
    }

    /// Probe the filter with a batch of keys. Until the join publishes the filter, and once the
    /// filter is paused, every row passes and nothing is recorded.
    pub fn execute<'a>(
        &self,
        probe: &mut BloomFilterProbe,
        published: Option<&[u64]>,
        keys: &KeyColumn<'a>,
        row_count: usize,
    ) -> (result: Result<Verdict, BloomError>)
        requires
            published matches Some(bits) ==> is_power_of_two(bits@.len() as int),
            keys.holds(row_count),
            old(probe).rows_passed + row_count <= u64::MAX,
            old(probe).rows_probed + row_count <= u64::MAX,
        ensures
            match published {
                Some(bits) if !old(probe).paused => match keys.verdict(bits@) {
                    Ok(verdict) => {
                        &&& result is Ok
                        &&& result->Ok_0@ == verdict
                        &&& *final(probe) == old(probe).observed(
                            keys.passing(bits@, row_count),
                            row_count as int,
                        )
                    },
                    Err(error) => result == Err::<Verdict, _>(error) && *final(probe) == *old(probe),
                },
                _ => result is Ok && result->Ok_0@ == VerdictModel::Uniform(true) && *final(probe)
                    == *old(probe),
            },
    {
        let sectors: Sectors<'_> = match probe.sectors(published) {
            Some(sectors) => sectors,
            None => return Ok(Verdict::Uniform(true)),
        };
        match keys {
            KeyColumn::Constant(scalar) => match hash_scalar(scalar) {
                Ok(hash) => {
                    let passes: bool = sectors.contains(hash);
                    let passed: usize = if passes {
                        row_count
                    } else {
                        0
                    };
                    probe.observe(passed, row_count);
                    Ok(Verdict::Uniform(passes))
                },
                Err(error) => Err(error),
            },
            KeyColumn::Canonical(array) => match probe_counted(array, &sectors) {
                Ok((bits, count)) => {
                    probe.observe(count, row_count);
                    Ok(Verdict::Rows(bits))
                },
                Err(error) => Err(error),
            },
        }
    }

    /// A NULL key does not propagate: it is hashed to a fixed value and probed with that.
    pub fn is_strict(&self) -> (strict: bool)
        ensures
            !strict,
    {
        false
    }

    /// Every key type that is accepted can be hashed and probed.
    pub fn is_infallible(&self) -> (infallible: bool)
        ensures
            infallible,
    {
        true
    }
}

/// A constant key is hashed as the same value in a column is, so that a column of one key is ruled
/// on alike whether it is stored as a constant or row by row.
pub proof fn law_constant_matches_column<'a>(array: ArrayView<'a>, row: int)
    requires
        array.key_error() is None,
        0 <= row,
    ensures
        !array.validity@.is_valid(row) ==> KeyScalar::Null.hash_spec() == Ok::<u64, BloomError>(
            array.key_hash(row),
        ),
        array.validity@.is_valid(row) ==> match array.kind {
            ArrayKind::Bool { bits } => KeyScalar::Bool(bit_at(bits@, row)).hash_spec() == Ok::<
                u64,
                BloomError,
            >(array.key_hash(row)),
            ArrayKind::Primitive { ptype, values } => KeyScalar::Primitive(
                ptype,
                le_value(
                    values@.subrange(row * ptype.width() as int, (row + 1) * ptype.width() as int),
                ) as u64,
            ).hash_spec() == Ok::<u64, BloomError>(array.key_hash(row)),
            ArrayKind::VarBinView { views, data } => forall|bytes: Vec<u8>|
                bytes@ == view_value(views@, buffer_contents(data@), row) ==> #[trigger]
                    KeyScalar::Bytes(bytes).hash_spec() == Ok::<u64, BloomError>(
                    array.key_hash(row),
                ),
            _ => true,
        },
{
}

/// A constant key of a kind that columns can have is always hashed.
pub proof fn law_accepted_keys_hash(scalar: KeyScalar, kind: KeyKind)
    requires
        kind != KeyKind::Primitive(PType::F16),
        scalar.has_kind(kind),
    ensures
        scalar.hash_spec() is Ok,
    decreases scalar,
{
    if let KeyScalar::Extension(storage) = scalar {
        law_accepted_keys_hash(*storage, kind);
    }
}

impl KeyScalar {
    /// Whether the key is NULL or of the given kind, below extension types.
    pub open spec fn has_kind(self, kind: KeyKind) -> bool
        decreases self,
    {
        match self {
            KeyScalar::Null => true,
            KeyScalar::Bool(_) => kind == KeyKind::Bool,
            KeyScalar::Primitive(ptype, _) => kind == KeyKind::Primitive(ptype),
            KeyScalar::Bytes(_) => kind == KeyKind::Bytes,
            KeyScalar::Extension(storage) => storage.has_kind(kind),
            KeyScalar::Other => false,
        }
    }
}

impl<'a> ArrayView<'a> {
    /// Whether the rows, below extension types, are NULL or of the given kind.
    pub open spec fn has_kind(self, kind: KeyKind) -> bool {
        match self.key_array().kind {
            ArrayKind::Null => true,
            ArrayKind::Bool { .. } => kind == KeyKind::Bool,
            ArrayKind::Primitive { ptype, .. } => kind == KeyKind::Primitive(ptype),
            ArrayKind::VarBinView { .. } => kind == KeyKind::Bytes,
            _ => false,
        }
    }
}

/// A column of a type that is accepted is probed without error.
pub proof fn law_accepted_columns_are_probed<'a>(
    array: ArrayView<'a>,
    dtype: KeyDType,
    sectors: Seq<u64>,
)
    requires
        dtype.key_kind_spec() is Some,
        array.has_kind(dtype.key_kind_spec()->Some_0),
    ensures
        array.verdict(sectors) is Ok,
{
    law_accepted_kind(dtype);
}

/// The kinds that a column's type can have are never half-precision.
pub proof fn law_accepted_kind(dtype: KeyDType)
    ensures
        dtype.key_kind_spec() != Some(KeyKind::Primitive(PType::F16)),
    decreases dtype,
{
    if let KeyDType::Extension(storage) = dtype {
        law_accepted_kind(*storage);
    }
}

/// A row whose key the build side holds passes, whatever else the build side holds: a rejected
/// row cannot join.
pub proof fn law_joining_rows_pass<'a>(
    array: ArrayView<'a>,
    empty: Seq<u64>,
    build: Seq<u64>,
    row: int,
    key: int,
)
    requires
        empty.len() > 0,
        0 <= key < build.len(),
        array.key_hash(row) == build[key],
    ensures
        array.passes(crate::bloom::probe::built(empty, build), row),
{
    crate::bloom::probe::law_no_false_negatives(empty, build, key);
}

/// What the verdict on a column says of each row: its bit is set exactly if the filter might hold
/// the row's key.
pub proof fn law_verdict_rows<'a>(array: ArrayView<'a>, sectors: Seq<u64>, row: int)
    requires
        0 <= row < array.key_array().len,
        array.verdict(sectors) is Ok,
    ensures
        bit_at(array.verdict(sectors)->Ok_0, row) == contains_spec(
            sectors,
            array.key_array().key_hash(row),
        ),
        array.verdict(sectors)->Ok_0.len() == (array.key_array().len + 7) / 8,
{
    let keys = array.key_array();
    crate::bits::lemma_pack_bit(|i: int| keys.passes(sectors, i), keys.len as int, row);
}

/// The rows that pass, among the first `n`, in order.
pub open spec fn passing_rows<'a>(array: ArrayView<'a>, sectors: Seq<u64>, n: nat) -> Seq<int> {
    Seq::new(n, |i: int| i).filter(|i: int| contains_spec(sectors, array.key_hash(i)))
}

/// As many rows are counted as pass.
pub proof fn law_passing_rows<'a>(array: ArrayView<'a>, sectors: Seq<u64>, n: nat)
    ensures
        array.passing(sectors, n) == passing_rows(array, sectors, n).len(),
    decreases n,
{
    reveal(Seq::filter);
    let all = Seq::new(n, |i: int| i);
    if n > 0 {
        let before = (n - 1) as nat;
        law_passing_rows(array, sectors, before);
        assert(all.drop_last() =~= Seq::new(before, |i: int| i));
        assert(all.last() == before);
    }
}

/// Two rows with the same value have the same hash, wherever they stand and whatever stands beside
/// them.
pub proof fn law_same_row_same_hash<'a>(a: ArrayView<'a>, i: int, b: ArrayView<'a>, j: int)
    requires
        a.frame().same_row(i, b.frame(), j),
        0 <= i,
        0 <= j,
        a.key_error() is None,
    ensures
        a.key_hash(i) == b.key_hash(j),
{
    let (f, g) = (a.frame(), b.frame());
    match (a.kind, b.kind) {
        (ArrayKind::VarBinView { views, data }, ArrayKind::VarBinView { views: other, data: more }) => {
            assert(f.buffers.skip(1) =~= buffer_contents(data@));
            assert(g.buffers.skip(1) =~= buffer_contents(more@));
        },
        (ArrayKind::Primitive { ptype, .. }, ArrayKind::Primitive { ptype: other, .. }) => {
            ptype.lemma_tag_round_trip();
            other.lemma_tag_round_trip();
        },
        _ => {},
    }
}

impl BloomFilterProbe {
    /// A filter is given up exactly if, once enough rows were probed, it ruled out no more than
    /// three rows of every four.
    pub proof fn law_weak_filters_pause(self, passed: int, probed: int)
        requires
            self.rows_probed == 0 && self.rows_passed == 0 && !self.paused,
            0 <= passed <= probed <= u64::MAX,
        ensures
            self.observed(passed, probed).paused <==> probed >= 153_600 && probed - passed <= 3
                * passed,
            self.observed(passed, probed).rows_passed == passed,
            self.observed(passed, probed).rows_probed == probed,
            self.observed(passed, probed).identity == self.identity,
            self.observed(passed, probed).keys == self.keys,
    {
    }
}

impl DuckDbType {
    /// Whether values of the type are stored as whole numbers or counts.
    pub open spec fn is_counted(self) -> bool {
        !(self == DuckDbType::Boolean || self == DuckDbType::Float || self == DuckDbType::Double
            || self == DuckDbType::Varchar || self == DuckDbType::Blob || self is Other)
    }

    /// Whether values of the type are stored without a sign.
    pub open spec fn is_unsigned(self) -> bool {
        self == DuckDbType::UTinyInt || self == DuckDbType::USmallInt || self
            == DuckDbType::UInteger || self == DuckDbType::UBigInt
    }

    /// How many bytes a number of the type is stored in. Days are counted in four bytes, times and
    /// timestamps in eight.
    pub open spec fn stored_bytes(self) -> nat {
        if self == DuckDbType::TinyInt || self == DuckDbType::UTinyInt {
            1
        } else if self == DuckDbType::SmallInt || self == DuckDbType::USmallInt {
            2
        } else if self == DuckDbType::Integer || self == DuckDbType::UInteger || self
            == DuckDbType::Float || self == DuckDbType::Date {
            4
        } else {
            8
        }
    }
}

/// A key type is hashed as what it is stored as: by its width and its sign.
pub proof fn law_key_types(key_type: DuckDbType)
    ensures
        key_type.key_kind_spec() is None <==> key_type is Other,
        key_type.key_kind_spec() == Some(KeyKind::Bool) <==> key_type == DuckDbType::Boolean,
        key_type.key_kind_spec() == Some(KeyKind::Bytes) <==> key_type == DuckDbType::Varchar
            || key_type == DuckDbType::Blob,
        key_type.key_kind_spec() matches Some(KeyKind::Primitive(ptype)) ==> {
            &&& ptype.width() == key_type.stored_bytes()
            &&& is_signed(ptype) <==> key_type.is_counted() && !key_type.is_unsigned()
            &&& is_float(ptype) <==> !key_type.is_counted()
        },
{
}

/// A constant of an extension type hashes as its storage value does, and a boolean as the byte that
/// it is stored as.
pub proof fn law_scalar_hashes(storage: KeyScalar, value: bool)
    ensures
        KeyScalar::Extension(Box::new(storage)).hash_spec() == storage.hash_spec(),
        KeyScalar::Bool(value).hash_spec() == KeyScalar::Primitive(
            PType::I8,
            if value {
                1
            } else {
                0
            },
        ).hash_spec(),
{
    let bits: u64 = if value {
        1
    } else {
        0
    };
    law_hash_of_integer_bits(PType::I8, bits);
    vstd::arithmetic::power2::lemma2_to64();
    law_hash_is_mixed_value(0, 0, 0, 0, 0, 0, 0, 0, value);
}

/// A filter is probed exactly if the column is of the type that the join's keys are, and both are
/// hashed alike; its probe starts with nothing counted.
pub proof fn law_probe_of_matching_column(
    identity: u64,
    key_type: DuckDbType,
    dtype: KeyDType,
    column_type: DuckDbType,
    kind: KeyKind,
)
    requires
        dtype.key_kind_spec() == Some(kind),
    ensures
        fresh_probe(identity, key_type, dtype, None) is None,
        fresh_probe(identity, key_type, dtype, Some(column_type)) is Some <==> column_type
            == key_type && key_type.key_kind_spec() == Some(kind),
        fresh_probe(identity, key_type, dtype, Some(column_type)) matches Some(probe) ==> {
            &&& probe.identity == identity
            &&& probe.keys == kind
            &&& probe.rows_passed == 0
            &&& probe.rows_probed == 0
            &&& !probe.paused
        },
{
}

} // verus!
