//! The interface consumed from the external array-file reader, modeled as
//! plain data.
//!
//! The reader itself (path validation, binary parsing, disk I/O, on-disk
//! type decoding) is an outside collaborator that this crate does not
//! verify.  The boundary hands the core a snapshot of what the reader
//! yielded for one request; everything the core then does with it is
//! verified.  Floating-point values cross the boundary as their IEEE 754
//! bit patterns, together with the boundary's decimal rendering where the
//! core needs one.

use vstd::prelude::*;

verus! {

/// One typed attribute value as the reader decoded it.
///
/// Scalar floating-point variants carry the value's bit pattern (read by
/// fill-value extraction) and its decimal rendering (read by attribute
/// normalization); array floating-point variants carry one rendering per
/// element.  All other variants are plain values.
#[allow(inconsistent_fields)]
#[derive(Clone)]
pub enum AttrValue {
    /// A text value.
    Str(String),
    /// An array of text values.
    Strs(Vec<String>),
    /// An unsigned 8-bit scalar.
    Uchar(u8),
    /// An array of unsigned 8-bit values.
    Uchars(Vec<u8>),
    /// A signed 8-bit scalar.
    Schar(i8),
    /// An array of signed 8-bit values.
    Schars(Vec<i8>),
    /// An unsigned 16-bit scalar.
    Ushort(u16),
    /// An array of unsigned 16-bit values.
    Ushorts(Vec<u16>),
    /// A signed 16-bit scalar.
    Short(i16),
    /// An array of signed 16-bit values.
    Shorts(Vec<i16>),
    /// An unsigned 32-bit scalar.
    Uint(u32),
    /// An array of unsigned 32-bit values.
    Uints(Vec<u32>),
    /// A signed 32-bit scalar.
    Int(i32),
    /// An array of signed 32-bit values.
    Ints(Vec<i32>),
    /// An unsigned 64-bit scalar.
    Ulonglong(u64),
    /// An array of unsigned 64-bit values.
    Ulonglongs(Vec<u64>),
    /// A signed 64-bit scalar.
    Longlong(i64),
    /// An array of signed 64-bit values.
    Longlongs(Vec<i64>),
    /// A single-precision scalar: bit pattern and boundary rendering.
    Float { bits: u32, text: String },
    /// An array of single-precision values: one boundary rendering each.
    Floats { texts: Vec<String> },
    /// A double-precision scalar: bit pattern and boundary rendering.
    Double { bits: u64, text: String },
    /// An array of double-precision values: one boundary rendering each.
    Doubles { texts: Vec<String> },
}

/// One attribute as enumerated by the reader; `value` is absent when the
/// reader could not decode it.
#[derive(Clone)]
pub struct RawAttr {
    /// Attribute name.
    pub name: String,
    /// Decoded value, when the reader could decode one.
    pub value: Option<AttrValue>,
}

/// One dimension as enumerated by the reader.
#[derive(Clone)]
pub struct RawDim {
    /// Dimension name.
    pub name: String,
    /// Current size.
    pub size: usize,
    /// Whether the dimension is unlimited.
    pub is_unlimited: bool,
}

/// Canonical tag of an on-disk element kind.
pub enum VarKind {
    /// Character data, decoded as text.
    Char,
    /// Signed 8-bit integers.
    Byte,
    /// Unsigned 8-bit integers.
    Ubyte,
    /// Signed 16-bit integers.
    Short,
    /// Unsigned 16-bit integers.
    Ushort,
    /// Signed 32-bit integers.
    Int,
    /// Unsigned 32-bit integers.
    Uint,
    /// Signed 64-bit integers.
    Int64,
    /// Unsigned 64-bit integers.
    Uint64,
    /// Single-precision floating point.
    Float,
    /// Double-precision floating point.
    Double,
    /// A true variable-length string kind: recognized as text but its
    /// reading is not implemented.
    Str,
    /// Any other kind, carrying the reader's description of it.
    Other(String),
}

impl VarKind {
    /// The canonical textual tag of this kind, as a specification.
    pub open spec fn spec_label(&self) -> Seq<char> {
        match self {
            VarKind::Char => "Basic(Char)"@,
            VarKind::Byte => "Basic(Byte)"@,
            VarKind::Ubyte => "Basic(Ubyte)"@,
            VarKind::Short => "Basic(Short)"@,
            VarKind::Ushort => "Basic(Ushort)"@,
            VarKind::Int => "Basic(Int)"@,
            VarKind::Uint => "Basic(Uint)"@,
            VarKind::Int64 => "Basic(Int64)"@,
            VarKind::Uint64 => "Basic(Uint64)"@,
            VarKind::Float => "Basic(Float)"@,
            VarKind::Double => "Basic(Double)"@,
            VarKind::Str => "String"@,
            VarKind::Other(s) => s@,
        }
    }

    /// Renders the canonical textual tag of this kind.
    pub fn label(&self) -> (r: String)
        ensures
            r@ == self.spec_label(),
    {
        match self {
            VarKind::Char => "Basic(Char)".to_owned(),
            VarKind::Byte => "Basic(Byte)".to_owned(),
            VarKind::Ubyte => "Basic(Ubyte)".to_owned(),
            VarKind::Short => "Basic(Short)".to_owned(),
            VarKind::Ushort => "Basic(Ushort)".to_owned(),
            VarKind::Int => "Basic(Int)".to_owned(),
            VarKind::Uint => "Basic(Uint)".to_owned(),
            VarKind::Int64 => "Basic(Int64)".to_owned(),
            VarKind::Uint64 => "Basic(Uint64)".to_owned(),
            VarKind::Float => "Basic(Float)".to_owned(),
            VarKind::Double => "Basic(Double)".to_owned(),
            VarKind::Str => "String".to_owned(),
            VarKind::Other(s) => s.as_str().to_owned(),
        }
    }

    /// Whether data of this kind is decoded as text rather than numbers.
    pub open spec fn spec_is_text(&self) -> bool {
        self is Char || self is Str
    }

    /// Whether data of this kind is decoded as text rather than numbers.
    pub fn is_text(&self) -> (r: bool)
        ensures
            r == self.spec_is_text(),
    {
        match self {
            VarKind::Char => true,
            VarKind::Str => true,
            _ => false,
        }
    }
}

/// One variable as enumerated by the reader, without its data.
pub struct RawVar {
    /// Variable name.
    pub name: String,
    /// Element kind.
    pub kind: VarKind,
    /// The dimensions attached to this variable, in order.
    pub dims: Vec<RawDim>,
    /// The variable's attributes, in enumeration order.
    pub attrs: Vec<RawAttr>,
}

/// Everything the reader yields when a file is opened for metadata.
pub struct RawFile {
    /// Every dimension, in declaration order.
    pub dimensions: Vec<RawDim>,
    /// Every variable, in declaration order.
    pub variables: Vec<RawVar>,
    /// The file's global attributes, in enumeration order.
    pub global_attrs: Vec<RawAttr>,
}

/// What opening a path through the reader came to.
pub enum OpenOutcome {
    /// The path does not exist.
    Missing,
    /// The reader rejected the file, with its message.
    Rejected(String),
    /// The reader opened the file and yielded this snapshot.
    Opened(RawFile),
}

/// One raw typed array as the reader returned it.  Floating-point arrays
/// carry bit patterns.
pub enum RawValues {
    /// Signed 8-bit elements.
    I8(Vec<i8>),
    /// Unsigned 8-bit elements (also carries character data as bytes).
    U8(Vec<u8>),
    /// Signed 16-bit elements.
    I16(Vec<i16>),
    /// Unsigned 16-bit elements.
    U16(Vec<u16>),
    /// Signed 32-bit elements.
    I32(Vec<i32>),
    /// Unsigned 32-bit elements.
    U32(Vec<u32>),
    /// Signed 64-bit elements.
    I64(Vec<i64>),
    /// Unsigned 64-bit elements.
    U64(Vec<u64>),
    /// Single-precision elements, as bit patterns.
    F32(Vec<u32>),
    /// Double-precision elements, as bit patterns.
    F64(Vec<u64>),
}

/// One variable as resolved for a data request: its description, the raw
/// typed read the reader performed (or the reader's failure message), and
/// one fill-proximity flag per element.
///
/// `near_fill[i]` reports whether the element, coerced to double precision,
/// lies within absolute tolerance `1e-10` of the variable's fill value —
/// the one comparison that is performed in floating point at the boundary.
/// The flags are read only when a `_FillValue` attribute is present.
pub struct RawVariable {
    /// The variable's description.
    pub meta: RawVar,
    /// The raw typed read, or the reader's failure message.
    pub read: Result<RawValues, String>,
    /// Per-element proximity to the fill value.
    pub near_fill: Vec<bool>,
}

/// What fetching one variable for a data request came to.
pub enum VarFetch {
    /// The path does not exist.
    Missing,
    /// The reader rejected the file, with its message.
    Rejected(String),
    /// The file opened but holds no variable of the requested name.
    NoSuchVar,
    /// The variable was resolved.
    Found(RawVariable),
}

} // verus!
