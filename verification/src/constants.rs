//! The alphabet of the TBON format: delimiters and type bits.

use vstd::prelude::*;

verus! {

/// Opens and closes an array of fixed-size elements: `=`.
pub const ARRAY_DELIMIT: u8 = 61;

/// Marks the next byte of a string or of an array as data: `\`.
pub const ESCAPE: u8 = 92;

/// Opens a list: `[`.
pub const LIST_BEGIN: u8 = 91;

/// Closes a list: `]`.
pub const LIST_END: u8 = 93;

/// Opens a map: `{`.
pub const MAP_BEGIN: u8 = 123;

/// Closes a map: `}`.
pub const MAP_END: u8 = 125;

/// Opens and closes a string: `"`.
pub const STRING_DELIMIT: u8 = 34;

/// The payload of a boolean that holds.
pub const TRUE: u8 = 1;

/// The payload of a boolean that does not hold.
pub const FALSE: u8 = 0;

/// The type of a fixed-size value, written in front of it as one byte (its type bit).
#[derive(Clone, Copy, Debug, PartialEq, Eq, Structural)]
pub enum Type {
    Unit,
    Bool,
    F32,
    F64,
    I8,
    I16,
    I32,
    I64,
    U8,
    U16,
    U32,
    U64,
}

impl Type {
    /// The type bit.
    pub open spec fn code(self) -> u8 {
        match self {
            Type::Unit => 0,
            Type::Bool => 1,
            Type::F32 => 2,
            Type::F64 => 3,
            Type::I8 => 4,
            Type::I16 => 5,
            Type::I32 => 6,
            Type::I64 => 7,
            Type::U8 => 8,
            Type::U16 => 9,
            Type::U32 => 10,
            Type::U64 => 11,
        }
    }

    /// The type with the given type bit.
    pub open spec fn from_code(code: u8) -> Option<Type> {
        if code == 0 {
            Some(Type::Unit)
        } else if code == 1 {
            Some(Type::Bool)
        } else if code == 2 {
            Some(Type::F32)
        } else if code == 3 {
            Some(Type::F64)
        } else if code == 4 {
            Some(Type::I8)
        } else if code == 5 {
            Some(Type::I16)
        } else if code == 6 {
            Some(Type::I32)
        } else if code == 7 {
            Some(Type::I64)
        } else if code == 8 {
            Some(Type::U8)
        } else if code == 9 {
            Some(Type::U16)
        } else if code == 10 {
            Some(Type::U32)
        } else if code == 11 {
            Some(Type::U64)
        } else {
            None
        }
    }

    /// The number of bytes of a value of this type, behind its type bit.
    pub open spec fn width(self) -> nat {
        match self {
            Type::Unit => 0,
            Type::Bool | Type::I8 | Type::U8 => 1,
            Type::I16 | Type::U16 => 2,
            Type::F32 | Type::I32 | Type::U32 => 4,
            Type::F64 | Type::I64 | Type::U64 => 8,
        }
    }

    /// The name of the type in error messages.
    pub open spec fn label(self) -> Seq<char> {
        match self {
            Type::Unit => "none"@,
            Type::Bool => "bool"@,
            Type::F32 => "f32"@,
            Type::F64 => "f64"@,
            Type::I8 => "i8"@,
            Type::I16 => "i16"@,
            Type::I32 => "i32"@,
            Type::I64 => "i64"@,
            Type::U8 => "u8"@,
            Type::U16 => "u16"@,
            Type::U32 => "u32"@,
            Type::U64 => "u64"@,
        }
    }

    /// Returns the type bit.
    pub fn to_u8(self) -> (code: u8)
        ensures
            code == self.code(),
    {
        match self {
            Type::Unit => 0,
            Type::Bool => 1,
            Type::F32 => 2,
            Type::F64 => 3,
            Type::I8 => 4,
            Type::I16 => 5,
            Type::I32 => 6,
            Type::I64 => 7,
            Type::U8 => 8,
            Type::U16 => 9,
            Type::U32 => 10,
            Type::U64 => 11,
        }
    }

    /// Returns the type with the given type bit, if there is one.
    pub fn from_u8(code: u8) -> (r: Option<Type>)
        ensures
            r == Self::from_code(code),
    {
        match code {
            0 => Some(Type::Unit),
            1 => Some(Type::Bool),
            2 => Some(Type::F32),
            3 => Some(Type::F64),
            4 => Some(Type::I8),
            5 => Some(Type::I16),
            6 => Some(Type::I32),
            7 => Some(Type::I64),
            8 => Some(Type::U8),
            9 => Some(Type::U16),
            10 => Some(Type::U32),
            11 => Some(Type::U64),
            _ => None,
        }
    }

    /// Returns the name of the type in error messages.
    pub fn name(self) -> (s: &'static str)
        ensures
            s@ == self.label(),
    {
        match self {
            Type::Unit => "none",
            Type::Bool => "bool",
            Type::F32 => "f32",
            Type::F64 => "f64",
            Type::I8 => "i8",
            Type::I16 => "i16",
            Type::I32 => "i32",
            Type::I64 => "i64",
            Type::U8 => "u8",
            Type::U16 => "u16",
            Type::U32 => "u32",
            Type::U64 => "u64",
        }
    }

    /// A type bit stands for one type, and is none of the delimiters.
    pub proof fn code_is_unambiguous(self, other: Type)
        ensures
            Self::from_code(self.code()) == Some(self),
            self.code() == other.code() ==> self == other,
            self.code() != ARRAY_DELIMIT,
            self.code() != LIST_BEGIN,
            self.code() != LIST_END,
            self.code() != MAP_BEGIN,
            self.code() != MAP_END,
            self.code() != STRING_DELIMIT,
            self.code() != ESCAPE,
    {
    }
}

} // verus!
