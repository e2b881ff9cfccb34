//! Element types of tensors.

use vstd::prelude::*;
use crate::color::{rgb, Rgb};
use crate::text::str_eq;

verus! {

#[derive(Debug, Clone, Copy, PartialEq, Eq, Structural)]
pub enum Dtype {
    F64,
    F32,
    F16,
    BF16,
    F8E4M3,
    F8E5M2,
    I64,
    I32,
    I16,
    I8,
    U64,
    U32,
    U16,
    U8,
    Bool,
    Unknown,
}

/// The element type that a safetensors header names.
pub open spec fn dtype_named(s: Seq<char>) -> Dtype {
    if s == "F64"@ {
        Dtype::F64
    } else if s == "F32"@ {
        Dtype::F32
    } else if s == "F16"@ {
        Dtype::F16
    } else if s == "BF16"@ {
        Dtype::BF16
    } else if s == "F8_E4M3"@ || s == "F8_E4M3FN"@ || s == "F8_E4M3FNUZ"@ {
        Dtype::F8E4M3
    } else if s == "F8_E5M2"@ || s == "F8_E5M2FNUZ"@ {
        Dtype::F8E5M2
    } else if s == "I64"@ {
        Dtype::I64
    } else if s == "I32"@ {
        Dtype::I32
    } else if s == "I16"@ {
        Dtype::I16
    } else if s == "I8"@ {
        Dtype::I8
    } else if s == "U64"@ {
        Dtype::U64
    } else if s == "U32"@ {
        Dtype::U32
    } else if s == "U16"@ {
        Dtype::U16
    } else if s == "U8"@ {
        Dtype::U8
    } else if s == "BOOL"@ {
        Dtype::Bool
    } else {
        Dtype::Unknown
    }
}

/// How many bytes one element takes.
pub open spec fn size_of_element(d: Dtype) -> int {
    match d {
        Dtype::F64 | Dtype::I64 | Dtype::U64 => 8,
        Dtype::F32 | Dtype::I32 | Dtype::U32 => 4,
        Dtype::F16 | Dtype::BF16 | Dtype::I16 | Dtype::U16 => 2,
        _ => 1,
    }
}

/// The colour of an element type.
pub open spec fn dtype_color(d: Dtype) -> Rgb {
    match d {
        Dtype::F32 => Rgb { r: 255, g: 120, b: 50 },
        Dtype::F16 => Rgb { r: 255, g: 210, b: 60 },
        Dtype::BF16 => Rgb { r: 180, g: 255, b: 60 },
        Dtype::F64 => Rgb { r: 255, g: 50, b: 50 },
        Dtype::F8E4M3 => Rgb { r: 50, g: 220, b: 255 },
        Dtype::F8E5M2 => Rgb { r: 50, g: 255, b: 200 },
        Dtype::I8 | Dtype::U8 => Rgb { r: 60, g: 60, b: 255 },
        Dtype::I16 | Dtype::U16 => Rgb { r: 130, g: 60, b: 255 },
        Dtype::I32 | Dtype::U32 | Dtype::I64 | Dtype::U64 | Dtype::Bool => Rgb {
            r: 220,
            g: 60,
            b: 255,
        },
        Dtype::Unknown => Rgb { r: 0, g: 0, b: 0 },
    }
}

/// The name of an element type in labels.
pub open spec fn dtype_label(d: Dtype) -> Seq<char> {
    match d {
        Dtype::F32 => "F32"@,
        Dtype::F16 => "F16"@,
        Dtype::BF16 => "BF16"@,
        Dtype::F64 => "F64"@,
        Dtype::F8E4M3 => "F8E4M3"@,
        Dtype::F8E5M2 => "F8E5M2"@,
        Dtype::I8 => "I8"@,
        Dtype::U8 => "U8"@,
        Dtype::I16 => "I16"@,
        Dtype::U16 => "U16"@,
        Dtype::I32 => "I32"@,
        Dtype::U32 => "U32"@,
        Dtype::I64 => "I64"@,
        Dtype::U64 => "U64"@,
        Dtype::Bool => "BOOL"@,
        Dtype::Unknown => "?"@,
    }
}

impl Dtype {
    /// The element type with the given safetensors name; `Unknown` for a name
    /// that is none.
    pub fn from_str(s: &str) -> (d: Self)
        ensures
            d == dtype_named(s@),
    {
        if str_eq(s, "F64") {
            Dtype::F64
        } else if str_eq(s, "F32") {
            Dtype::F32
        } else if str_eq(s, "F16") {
            Dtype::F16
        } else if str_eq(s, "BF16") {
            Dtype::BF16
        } else if str_eq(s, "F8_E4M3") || str_eq(s, "F8_E4M3FN") || str_eq(s, "F8_E4M3FNUZ") {
            Dtype::F8E4M3
        } else if str_eq(s, "F8_E5M2") || str_eq(s, "F8_E5M2FNUZ") {
            Dtype::F8E5M2
        } else if str_eq(s, "I64") {
            Dtype::I64
        } else if str_eq(s, "I32") {
            Dtype::I32
        } else if str_eq(s, "I16") {
            Dtype::I16
        } else if str_eq(s, "I8") {
            Dtype::I8
        } else if str_eq(s, "U64") {
            Dtype::U64
        } else if str_eq(s, "U32") {
            Dtype::U32
        } else if str_eq(s, "U16") {
            Dtype::U16
        } else if str_eq(s, "U8") {
            Dtype::U8
        } else if str_eq(s, "BOOL") {
            Dtype::Bool
        } else {
            Dtype::Unknown
        }
    }

    /// How many bytes one element takes.
    pub fn element_size(self) -> (n: usize)
        ensures
            n == size_of_element(self),
    {
        match self {
            Dtype::F64 | Dtype::I64 | Dtype::U64 => 8,
            Dtype::F32 | Dtype::I32 | Dtype::U32 => 4,
            Dtype::F16 | Dtype::BF16 | Dtype::I16 | Dtype::U16 => 2,
            _ => 1,
        }
    }

    /// The colour of the element type.
    pub fn to_color(self) -> (c: Rgb)
        ensures
            c == dtype_color(self),
    {
        match self {
            Dtype::F32 => rgb(255, 120, 50),
            Dtype::F16 => rgb(255, 210, 60),
            Dtype::BF16 => rgb(180, 255, 60),
            Dtype::F64 => rgb(255, 50, 50),
            Dtype::F8E4M3 => rgb(50, 220, 255),
            Dtype::F8E5M2 => rgb(50, 255, 200),
            Dtype::I8 | Dtype::U8 => rgb(60, 60, 255),
            Dtype::I16 | Dtype::U16 => rgb(130, 60, 255),
            Dtype::I32 | Dtype::U32 | Dtype::I64 | Dtype::U64 | Dtype::Bool => rgb(220, 60, 255),
            Dtype::Unknown => rgb(0, 0, 0),
        }
    }

    /// The name of the element type in labels.
    pub fn label(self) -> (s: &'static str)
        ensures
            s@ == dtype_label(self),
    {
        match self {
            Dtype::F32 => "F32",
            Dtype::F16 => "F16",
            Dtype::BF16 => "BF16",
            Dtype::F64 => "F64",
            Dtype::F8E4M3 => "F8E4M3",
            Dtype::F8E5M2 => "F8E5M2",
            Dtype::I8 => "I8",
            Dtype::U8 => "U8",
            Dtype::I16 => "I16",
            Dtype::U16 => "U16",
            Dtype::I32 => "I32",
            Dtype::U32 => "U32",
            Dtype::I64 => "I64",
            Dtype::U64 => "U64",
            Dtype::Bool => "BOOL",
            Dtype::Unknown => "?",
        }
    }
}

/// The label of a known element type whose name has no variants is the name
/// that it is read from.
pub proof fn label_names_dtype(d: Dtype)
    requires
        d != Dtype::F8E4M3,
        d != Dtype::F8E5M2,
        d != Dtype::Unknown,
    ensures
        dtype_named(dtype_label(d)) == d,
{
    reveal_strlit("F64");
    reveal_strlit("F32");
    reveal_strlit("F16");
    reveal_strlit("BF16");
    reveal_strlit("F8_E4M3");
    reveal_strlit("F8_E4M3FN");
    reveal_strlit("F8_E4M3FNUZ");
    reveal_strlit("F8_E5M2");
    reveal_strlit("F8_E5M2FNUZ");
    reveal_strlit("I64");
    reveal_strlit("I32");
    reveal_strlit("I16");
    reveal_strlit("I8");
    reveal_strlit("U64");
    reveal_strlit("U32");
    reveal_strlit("U16");
    reveal_strlit("U8");
    reveal_strlit("BOOL");
    let s = dtype_label(d);
    assert(s[0] == 'F' || s[0] == 'B' || s[0] == 'I' || s[0] == 'U');
    assert(s[1] == '8' || s[1] == '6' || s[1] == '3' || s[1] == '1' || s[1] == 'F' || s[1] == 'O');
}

} // verus!
