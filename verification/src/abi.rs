//! Host/guest ABI constants.
//!
//! A kernel is the decoder for one array encoding. The host resolves an unknown encoding id to a
//! kernel and drives it with the array's real serialized parts: `vx_children` asks for the dtype
//! and length of each serialized child, and `vx_decode` hands over the metadata, the raw buffers
//! and the decoded children, and gets back the decoded array. Arrays cross the boundary in
//! canonical layouts (a buffer table plus a [`shape`] tag); types cross in the compact
//! [`dtype`](crate::dtype) encoding. All integers are little-endian.

pub mod array_descriptor;
pub mod array_frame;
pub mod arrow_array;
pub mod arrow_schema;
pub mod child_descriptor;
pub mod child_entry;
pub mod children_frame;
pub mod decode_frame;
pub mod decode_result;
pub mod dtype_derivation;
pub mod dtype_kind;
pub mod dtype_tag;
pub mod plan_frame;
pub mod plan_op;
pub mod shape;
pub mod validity;

use vstd::prelude::*;

verus! {

/// Host/guest ABI version.
pub const ABI_VERSION: u32 = 3;

/// Host import module name the guest links against.
pub const HOST_MODULE: &'static str = "vortex_host";

/// Frame flag bit 0: the parent dtype is nullable.
pub const FLAG_NULLABLE: u32 = 1;

/// Primitive type. Its [`discriminant`](PType::discriminant) is the one that encoding metadata
/// and the frames store.
#[derive(Debug, Clone, Copy, PartialEq, Eq, Structural)]
pub enum PType {
    /// `u8`
    U8,
    /// `u16`
    U16,
    /// `u32`
    U32,
    /// `u64`
    U64,
    /// `i8`
    I8,
    /// `i16`
    I16,
    /// `i32`
    I32,
    /// `i64`
    I64,
    /// `f16`
    F16,
    /// `f32`
    F32,
    /// `f64`
    F64,
}

impl PType {
    /// The stored discriminant.
    pub open spec fn tag(self) -> u8 {
        match self {
            PType::U8 => 0,
            PType::U16 => 1,
            PType::U32 => 2,
            PType::U64 => 3,
            PType::I8 => 4,
            PType::I16 => 5,
            PType::I32 => 6,
            PType::I64 => 7,
            PType::F16 => 8,
            PType::F32 => 9,
            PType::F64 => 10,
        }
    }

    /// The primitive type with the given discriminant, if there is one.
    pub open spec fn of_tag(value: int) -> Option<PType> {
        if value == 0 {
            Some(PType::U8)
        } else if value == 1 {
            Some(PType::U16)
        } else if value == 2 {
            Some(PType::U32)
        } else if value == 3 {
            Some(PType::U64)
        } else if value == 4 {
            Some(PType::I8)
        } else if value == 5 {
            Some(PType::I16)
        } else if value == 6 {
            Some(PType::I32)
        } else if value == 7 {
            Some(PType::I64)
        } else if value == 8 {
            Some(PType::F16)
        } else if value == 9 {
            Some(PType::F32)
        } else if value == 10 {
            Some(PType::F64)
        } else {
            None
        }
    }

    /// Width of one element in bytes.
    pub open spec fn width(self) -> nat {
        match self {
            PType::U8 | PType::I8 => 1,
            PType::U16 | PType::I16 | PType::F16 => 2,
            PType::U32 | PType::I32 | PType::F32 => 4,
            PType::U64 | PType::I64 | PType::F64 => 8,
        }
    }

    /// The Arrow C Data Interface format code, a single character.
    pub open spec fn format(self) -> u8 {
        match self {
            PType::U8 => 67,
            PType::U16 => 83,
            PType::U32 => 73,
            PType::U64 => 76,
            PType::I8 => 99,
            PType::I16 => 115,
            PType::I32 => 105,
            PType::I64 => 108,
            PType::F16 => 101,
            PType::F32 => 102,
            PType::F64 => 103,
        }
    }

    /// The discriminant of a primitive type names that type.
    pub proof fn lemma_tag_round_trip(self)
        ensures
            Self::of_tag(self.tag() as int) == Some(self),
    {
    }

    /// Only the discriminant of a primitive type names it.
    pub proof fn lemma_of_tag(value: int)
        ensures
            Self::of_tag(value) matches Some(ptype) ==> ptype.tag() == value,
    {
    }

    /// The stored discriminant.
    pub fn discriminant(self) -> (tag: u8)
        ensures
            tag == self.tag(),
    {
        match self {
            PType::U8 => 0,
            PType::U16 => 1,
            PType::U32 => 2,
            PType::U64 => 3,
            PType::I8 => 4,
            PType::I16 => 5,
            PType::I32 => 6,
            PType::I64 => 7,
            PType::F16 => 8,
            PType::F32 => 9,
            PType::F64 => 10,
        }
    }

    /// Width in bytes.
    pub fn byte_width(self) -> (width: usize)
        ensures
            width == self.width(),
    {
        match self {
            PType::U8 | PType::I8 => 1,
            PType::U16 | PType::I16 | PType::F16 => 2,
            PType::U32 | PType::I32 | PType::F32 => 4,
            PType::U64 | PType::I64 | PType::F64 => 8,
        }
    }

    /// Parse a stored discriminant (used in encoding metadata).
    pub fn from_discriminant(value: u64) -> (ptype: Option<Self>)
        ensures
            ptype == Self::of_tag(value as int),
    {
        match value {
            0 => Some(PType::U8),
            1 => Some(PType::U16),
            2 => Some(PType::U32),
            3 => Some(PType::U64),
            4 => Some(PType::I8),
            5 => Some(PType::I16),
            6 => Some(PType::I32),
            7 => Some(PType::I64),
            8 => Some(PType::F16),
            9 => Some(PType::F32),
            10 => Some(PType::F64),
            _ => None,
        }
    }

    /// The Arrow C Data Interface format code.
    pub fn format_code(self) -> (code: u8)
        ensures
            code == self.format(),
    {
        match self {
            PType::U8 => 67,
            PType::U16 => 83,
            PType::U32 => 73,
            PType::U64 => 76,
            PType::I8 => 99,
            PType::I16 => 115,
            PType::I32 => 105,
            PType::I64 => 108,
            PType::F16 => 101,
            PType::F32 => 102,
            PType::F64 => 103,
        }
    }

    /// The primitive type with the given Arrow format code.
    pub fn from_format(code: &[u8]) -> (ptype: Option<Self>)
        ensures
            match ptype {
                Some(found) => code@ == seq![found.format()],
                None => forall|other: PType| code@ != seq![other.format()],
            },
    {
        if code.len() != 1 {
            assert forall|other: PType| code@ != seq![other.format()] by {
                assert(seq![other.format()].len() == 1);
            }
            return None;
        }
        let ptype = match code[0] {
            67 => Some(PType::U8),
            83 => Some(PType::U16),
            73 => Some(PType::U32),
            76 => Some(PType::U64),
            99 => Some(PType::I8),
            115 => Some(PType::I16),
            105 => Some(PType::I32),
            108 => Some(PType::I64),
            101 => Some(PType::F16),
            102 => Some(PType::F32),
            103 => Some(PType::F64),
            _ => None,
        };
        proof {
            assert(code@ =~= seq![code@[0]]);
            assert forall|other: PType| code@ == seq![other.format()] implies code@[0]
                == other.format() by {
                assert(seq![other.format()][0] == other.format());
            }
        }
        ptype
    }
}

/// The numbers of the primitive types say what they are: four unsigned integers, four signed ones
/// and three floats, each twice as wide as the one before it. A letter is in upper case exactly
/// for an unsigned integer, and then that of the signed integer of the same width.
pub proof fn law_primitive_types(ptype: PType, other: PType)
    ensures
        ptype.tag() < 11,
        ptype.tag() < 8 ==> ptype.width() == (if ptype.tag() % 4 == 0 {
            1nat
        } else if ptype.tag() % 4 == 1 {
            2
        } else if ptype.tag() % 4 == 2 {
            4
        } else {
            8
        }),
        ptype.tag() >= 8 ==> ptype.width() == (if ptype.tag() == 8 {
            2nat
        } else if ptype.tag() == 9 {
            4
        } else {
            8
        }),
        ptype.tag() < 4 && other.tag() == ptype.tag() + 4 ==> ptype.format() + 32
            == other.format(),
        ptype.tag() < 4 <==> ptype.format() < 97,
        ptype.tag() >= 8 && other.tag() == ptype.tag() + 1 ==> other.format() == ptype.format()
            + 1,
        ptype.tag() == other.tag() ==> ptype == other,
        ptype.format() == other.format() ==> ptype == other,
{
}

} // verus!
