//! The values a container holds.

use vstd::prelude::*;

verus! {

/// The kind of a metadata value, as its wire code names it.
#[derive(Debug, Clone, Copy, PartialEq, Eq, Structural)]
pub enum GGUFValueType {
    String,
    Array,
    Bool,
    U8,
    I8,
    U16,
    I16,
    U32,
    I32,
    U64,
    I64,
    F32,
    F64,
    StringArray,
    Binary,
    /// A code outside the table.
    Unknown(u8),
}

impl GGUFValueType {
    /// The wire code of this kind.
    pub open spec fn code(self) -> u8 {
        match self {
            GGUFValueType::String => 1,
            GGUFValueType::Array => 2,
            GGUFValueType::U8 => 3,
            GGUFValueType::I8 => 4,
            GGUFValueType::U16 => 5,
            GGUFValueType::I16 => 6,
            GGUFValueType::U32 => 7,
            GGUFValueType::I32 => 8,
            GGUFValueType::U64 => 9,
            GGUFValueType::Bool => 10,
            GGUFValueType::I64 => 11,
            GGUFValueType::F64 => 12,
            GGUFValueType::F32 => 13,
            GGUFValueType::StringArray => 14,
            GGUFValueType::Binary => 15,
            GGUFValueType::Unknown(n) => n,
        }
    }

    /// The kind that a wire code names.
    pub open spec fn of_code(n: u8) -> GGUFValueType {
        if n == 1 {
            GGUFValueType::String
        } else if n == 2 {
            GGUFValueType::Array
        } else if n == 3 {
            GGUFValueType::U8
        } else if n == 4 {
            GGUFValueType::I8
        } else if n == 5 {
            GGUFValueType::U16
        } else if n == 6 {
            GGUFValueType::I16
        } else if n == 7 {
            GGUFValueType::U32
        } else if n == 8 {
            GGUFValueType::I32
        } else if n == 9 {
            GGUFValueType::U64
        } else if n == 10 {
            GGUFValueType::Bool
        } else if n == 11 {
            GGUFValueType::I64
        } else if n == 12 {
            GGUFValueType::F64
        } else if n == 13 {
            GGUFValueType::F32
        } else if n == 14 {
            GGUFValueType::StringArray
        } else if n == 15 {
            GGUFValueType::Binary
        } else {
            GGUFValueType::Unknown(n)
        }
    }

    /// Whether this is the form in which `from_u8` gives a kind: no
    /// `Unknown` that holds a code of the table.
    pub open spec fn canonical(self) -> bool {
        self matches GGUFValueType::Unknown(n) ==> !(1 <= n <= 15)
    }

    /// The kind that the wire code `n` names.
    pub fn from_u8(n: u8) -> (kind: GGUFValueType)
        ensures
            kind == GGUFValueType::of_code(n),
    {
        match n {
            1 => GGUFValueType::String,
            2 => GGUFValueType::Array,
            3 => GGUFValueType::U8,
            4 => GGUFValueType::I8,
            5 => GGUFValueType::U16,
            6 => GGUFValueType::I16,
            7 => GGUFValueType::U32,
            8 => GGUFValueType::I32,
            9 => GGUFValueType::U64,
            10 => GGUFValueType::Bool,
            11 => GGUFValueType::I64,
            12 => GGUFValueType::F64,
            13 => GGUFValueType::F32,
            14 => GGUFValueType::StringArray,
            15 => GGUFValueType::Binary,
            _ => GGUFValueType::Unknown(n),
        }
    }

    /// The wire code of this kind.
    pub fn to_u8(self) -> (n: u8)
        ensures
            n == self.code(),
    {
        match self {
            GGUFValueType::String => 1,
            GGUFValueType::Array => 2,
            GGUFValueType::U8 => 3,
            GGUFValueType::I8 => 4,
            GGUFValueType::U16 => 5,
            GGUFValueType::I16 => 6,
            GGUFValueType::U32 => 7,
            GGUFValueType::I32 => 8,
            GGUFValueType::U64 => 9,
            GGUFValueType::Bool => 10,
            GGUFValueType::I64 => 11,
            GGUFValueType::F64 => 12,
            GGUFValueType::F32 => 13,
            GGUFValueType::StringArray => 14,
            GGUFValueType::Binary => 15,
            GGUFValueType::Unknown(n) => n,
        }
    }
}

/// Every code names one kind, and that kind has the code; a kind in
/// canonical form comes back from its code.
pub proof fn lemma_kind_codes(n: u8, kind: GGUFValueType)
    ensures
        GGUFValueType::of_code(n).code() == n,
        GGUFValueType::of_code(n).canonical(),
        kind.canonical() ==> GGUFValueType::of_code(kind.code()) == kind,
{
}

/// A metadata value. A float is held as the bits of its IEEE 754 encoding.
#[derive(Debug, Clone, PartialEq, Eq)]
pub enum GGUFValue {
    String(String),
    Bool(bool),
    U8(u8),
    I8(i8),
    U16(u16),
    I16(i16),
    U32(u32),
    I32(i32),
    U64(u64),
    I64(i64),
    /// The bits of a single-precision float.
    F32(u32),
    /// The bits of a double-precision float.
    F64(u64),
    StringArray(Vec<String>),
    Binary(Vec<u8>),
    /// A value of a kind outside the table: only its code is known.
    Unknown(u8),
}

/// What a `GGUFValue` holds, as a mathematical value.
pub enum ValueView {
    String(Seq<char>),
    Bool(bool),
    U8(u8),
    I8(i8),
    U16(u16),
    I16(i16),
    U32(u32),
    I32(i32),
    U64(u64),
    I64(i64),
    F32(u32),
    F64(u64),
    StringArray(Seq<Seq<char>>),
    Binary(Seq<u8>),
    Unknown(u8),
}

/// The texts of a list of strings.
pub open spec fn texts(items: Seq<String>) -> Seq<Seq<char>> {
    Seq::new(items.len(), |i: int| items[i]@)
}

impl View for GGUFValue {
    type V = ValueView;

    open spec fn view(&self) -> ValueView {
        match self {
            GGUFValue::String(s) => ValueView::String(s@),
            GGUFValue::Bool(b) => ValueView::Bool(*b),
            GGUFValue::U8(v) => ValueView::U8(*v),
            GGUFValue::I8(v) => ValueView::I8(*v),
            GGUFValue::U16(v) => ValueView::U16(*v),
            GGUFValue::I16(v) => ValueView::I16(*v),
            GGUFValue::U32(v) => ValueView::U32(*v),
            GGUFValue::I32(v) => ValueView::I32(*v),
            GGUFValue::U64(v) => ValueView::U64(*v),
            GGUFValue::I64(v) => ValueView::I64(*v),
            GGUFValue::F32(v) => ValueView::F32(*v),
            GGUFValue::F64(v) => ValueView::F64(*v),
            GGUFValue::StringArray(items) => ValueView::StringArray(texts(items@)),
            GGUFValue::Binary(data) => ValueView::Binary(data@),
            GGUFValue::Unknown(code) => ValueView::Unknown(*code),
        }
    }
}

impl ValueView {
    /// The kind of this value.
    pub open spec fn kind(self) -> GGUFValueType {
        match self {
            ValueView::String(_) => GGUFValueType::String,
            ValueView::Bool(_) => GGUFValueType::Bool,
            ValueView::U8(_) => GGUFValueType::U8,
            ValueView::I8(_) => GGUFValueType::I8,
            ValueView::U16(_) => GGUFValueType::U16,
            ValueView::I16(_) => GGUFValueType::I16,
            ValueView::U32(_) => GGUFValueType::U32,
            ValueView::I32(_) => GGUFValueType::I32,
            ValueView::U64(_) => GGUFValueType::U64,
            ValueView::I64(_) => GGUFValueType::I64,
            ValueView::F32(_) => GGUFValueType::F32,
            ValueView::F64(_) => GGUFValueType::F64,
            ValueView::StringArray(_) => GGUFValueType::StringArray,
            ValueView::Binary(_) => GGUFValueType::Binary,
            ValueView::Unknown(code) => GGUFValueType::Unknown(code),
        }
    }
}

impl GGUFValue {
    /// The kind of this value.
    pub fn value_type(&self) -> (kind: GGUFValueType)
        ensures
            kind == self@.kind(),
    {
        match self {
            GGUFValue::String(_) => GGUFValueType::String,
            GGUFValue::Bool(_) => GGUFValueType::Bool,
            GGUFValue::U8(_) => GGUFValueType::U8,
            GGUFValue::I8(_) => GGUFValueType::I8,
            GGUFValue::U16(_) => GGUFValueType::U16,
            GGUFValue::I16(_) => GGUFValueType::I16,
            GGUFValue::U32(_) => GGUFValueType::U32,
            GGUFValue::I32(_) => GGUFValueType::I32,
            GGUFValue::U64(_) => GGUFValueType::U64,
            GGUFValue::I64(_) => GGUFValueType::I64,
            GGUFValue::F32(_) => GGUFValueType::F32,
            GGUFValue::F64(_) => GGUFValueType::F64,
            GGUFValue::StringArray(_) => GGUFValueType::StringArray,
            GGUFValue::Binary(_) => GGUFValueType::Binary,
            GGUFValue::Unknown(code) => GGUFValueType::Unknown(*code),
        }
    }
}

/// A tensor to be written from numbers: `values` holds the bits of its
/// single-precision elements.
#[derive(Debug, Clone, PartialEq, Eq)]
pub struct TensorDef {
    pub name: String,
    pub type_id: u32,
    pub dims: Vec<u64>,
    pub values: Vec<u32>,
}

/// A tensor of a container: its directory entry and its encoded payload.
#[derive(Debug, Clone, PartialEq, Eq)]
pub struct GGUFTensor {
    pub name: String,
    pub type_id: u32,
    pub dims: Vec<u64>,
    /// Where the payload starts, counted from the start of the container.
    pub offset: u64,
    pub values: Vec<u8>,
}

/// What a `GGUFTensor` holds, as a mathematical value.
pub struct TensorView {
    pub name: Seq<char>,
    pub type_id: u32,
    pub dims: Seq<u64>,
    pub offset: u64,
    pub values: Seq<u8>,
}

impl View for GGUFTensor {
    type V = TensorView;

    open spec fn view(&self) -> TensorView {
        TensorView {
            name: self.name@,
            type_id: self.type_id,
            dims: self.dims@,
            offset: self.offset,
            values: self.values@,
        }
    }
}

/// The views of a list of tensors.
pub open spec fn tensor_views(tensors: Seq<GGUFTensor>) -> Seq<TensorView> {
    Seq::new(tensors.len(), |i: int| tensors[i]@)
}

/// Type code of raw little-endian single-precision floats.
pub const TYPE_F32: u32 = 0;

/// Type code of 4-bit blocks.
pub const TYPE_Q4_0: u32 = 100;

/// Type code of 5-bit blocks.
pub const TYPE_Q5_1: u32 = 101;

} // verus!
