//! Element kinds and their type codes.

use crate::text::is_text;
use vstd::prelude::*;

verus! {

/// The numeric kind of an array's elements.
#[derive(Clone, Copy, Debug, PartialEq, Eq, Structural)]
pub enum DType {
    /// 8-bit unsigned integer.
    U8,
    /// 32-bit unsigned integer.
    U32,
    /// 16-bit brain float. It has no type code.
    BF16,
    /// 16-bit float.
    F16,
    /// 32-bit float.
    F32,
    /// 64-bit float.
    F64,
}

/// The element kind that a type code names. Booleans (`b1`, `?`) count as
/// 8-bit unsigned integers.
pub open spec fn code_dtype(code: Seq<char>) -> Option<DType> {
    if code == "f2"@ {
        Some(DType::F16)
    } else if code == "f4"@ {
        Some(DType::F32)
    } else if code == "f8"@ || code == "d"@ {
        Some(DType::F64)
    } else if code == "u1"@ || code == "B"@ {
        Some(DType::U8)
    } else if code == "u4"@ || code == "I"@ {
        Some(DType::U32)
    } else if code == "b1"@ || code == "?"@ {
        Some(DType::U8)
    } else {
        None
    }
}

impl DType {
    /// The canonical two-character type code of the kind, if it has one.
    pub open spec fn code(self) -> Option<Seq<char>> {
        match self {
            DType::U8 => Some("u1"@),
            DType::U32 => Some("u4"@),
            DType::BF16 => None,
            DType::F16 => Some("f2"@),
            DType::F32 => Some("f4"@),
            DType::F64 => Some("f8"@),
        }
    }

    /// The element kind that `code` names.
    pub fn from_code(code: &[char]) -> (r: Option<DType>)
        ensures
            r == code_dtype(code@),
    {
        if is_text(code, "f2") {
            Some(DType::F16)
        } else if is_text(code, "f4") {
            Some(DType::F32)
        } else if is_text(code, "f8") || is_text(code, "d") {
            Some(DType::F64)
        } else if is_text(code, "u1") || is_text(code, "B") {
            Some(DType::U8)
        } else if is_text(code, "u4") || is_text(code, "I") {
            Some(DType::U32)
        } else if is_text(code, "b1") || is_text(code, "?") {
            Some(DType::U8)
        } else {
            None
        }
    }
}

} // verus!
