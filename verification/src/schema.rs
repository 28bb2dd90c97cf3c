//! Shapes: what a reader has to know of a value before it can read it.

use vstd::prelude::*;

verus! {

/// The eight integer types of the format.
#[derive(Debug, Clone, Copy, PartialEq, Eq, Structural)]
pub enum IntKind {
    U8,
    U16,
    U32,
    U64,
    I8,
    I16,
    I32,
    I64,
}

impl IntKind {
    /// The number of bytes of an integer of this kind.
    pub open spec fn width(self) -> nat {
        match self {
            IntKind::U8 | IntKind::I8 => 1,
            IntKind::U16 | IntKind::I16 => 2,
            IntKind::U32 | IntKind::I32 => 4,
            IntKind::U64 | IntKind::I64 => 8,
        }
    }

    /// Whether the kind has negative numbers.
    pub open spec fn is_signed(self) -> bool {
        match self {
            IntKind::I8 | IntKind::I16 | IntKind::I32 | IntKind::I64 => true,
            _ => false,
        }
    }

    /// The number of bytes of an integer of this kind.
    pub fn size(self) -> (r: u64)
        ensures
            r == self.width(),
    {
        match self {
            IntKind::U8 | IntKind::I8 => 1,
            IntKind::U16 | IntKind::I16 => 2,
            IntKind::U32 | IntKind::I32 => 4,
            IntKind::U64 | IntKind::I64 => 8,
        }
    }
}

/// An integer of one of the eight kinds.
#[derive(Debug, Clone, Copy, PartialEq, Eq, Structural)]
pub enum Int {
    U8(u8),
    U16(u16),
    U32(u32),
    U64(u64),
    I8(i8),
    I16(i16),
    I32(i32),
    I64(i64),
}

impl Int {
    pub open spec fn kind(self) -> IntKind {
        match self {
            Int::U8(_) => IntKind::U8,
            Int::U16(_) => IntKind::U16,
            Int::U32(_) => IntKind::U32,
            Int::U64(_) => IntKind::U64,
            Int::I8(_) => IntKind::I8,
            Int::I16(_) => IntKind::I16,
            Int::I32(_) => IntKind::I32,
            Int::I64(_) => IntKind::I64,
        }
    }

    /// The number that the integer holds.
    pub open spec fn value(self) -> int {
        match self {
            Int::U8(v) => v as int,
            Int::U16(v) => v as int,
            Int::U32(v) => v as int,
            Int::U64(v) => v as int,
            Int::I8(v) => v as int,
            Int::I16(v) => v as int,
            Int::I32(v) => v as int,
            Int::I64(v) => v as int,
        }
    }

    /// The integer of `kind` that holds `v`, where `v` is in the range of `kind`.
    pub open spec fn of(kind: IntKind, v: int) -> Int {
        match kind {
            IntKind::U8 => Int::U8(v as u8),
            IntKind::U16 => Int::U16(v as u16),
            IntKind::U32 => Int::U32(v as u32),
            IntKind::U64 => Int::U64(v as u64),
            IntKind::I8 => Int::I8(v as i8),
            IntKind::I16 => Int::I16(v as i16),
            IntKind::I32 => Int::I32(v as i32),
            IntKind::I64 => Int::I64(v as i64),
        }
    }

    /// The kind of the integer.
    pub fn get_kind(&self) -> (r: IntKind)
        ensures
            r == self.kind(),
    {
        match self {
            Int::U8(_) => IntKind::U8,
            Int::U16(_) => IntKind::U16,
            Int::U32(_) => IntKind::U32,
            Int::U64(_) => IntKind::U64,
            Int::I8(_) => IntKind::I8,
            Int::I16(_) => IntKind::I16,
            Int::I32(_) => IntKind::I32,
            Int::I64(_) => IntKind::I64,
        }
    }

    /// Zero, as an integer of `kind`.
    pub fn zero(kind: IntKind) -> (r: Int)
        ensures
            r == Int::of(kind, 0),
    {
        match kind {
            IntKind::U8 => Int::U8(0),
            IntKind::U16 => Int::U16(0),
            IntKind::U32 => Int::U32(0),
            IntKind::U64 => Int::U64(0),
            IntKind::I8 => Int::I8(0),
            IntKind::I16 => Int::I16(0),
            IntKind::I32 => Int::I32(0),
            IntKind::I64 => Int::I64(0),
        }
    }

    /// Whether two integers are of one kind and hold one number.
    pub fn same(&self, other: &Int) -> (r: bool)
        ensures
            r == (*self == *other),
    {
        match (*self, *other) {
            (Int::U8(a), Int::U8(b)) => a == b,
            (Int::U16(a), Int::U16(b)) => a == b,
            (Int::U32(a), Int::U32(b)) => a == b,
            (Int::U64(a), Int::U64(b)) => a == b,
            (Int::I8(a), Int::I8(b)) => a == b,
            (Int::I16(a), Int::I16(b)) => a == b,
            (Int::I32(a), Int::I32(b)) => a == b,
            (Int::I64(a), Int::I64(b)) => a == b,
            _ => false,
        }
    }
}

/// One field of an object: the index under which it is found, and its shape.
#[derive(Debug, PartialEq, Eq)]
pub struct FieldShape {
    pub index: i32,
    pub shape: Shape,
}

/// One case of a union: the key that announces it, and the shape of its payload.
#[derive(Debug, PartialEq, Eq)]
pub struct CaseShape {
    pub key: Int,
    pub shape: Shape,
}

/// The shape of a value.
#[derive(Debug, PartialEq, Eq)]
pub enum Shape {
    /// One byte, 1 for `true`.
    Bool,
    /// A little-endian integer.
    Int(IntKind),
    /// UTF-8 text behind its length in bytes.
    Str,
    /// Seconds since 1970-01-01 00:00:00 UTC, and nanoseconds.
    Instant,
    /// Seconds and nanoseconds of a span of time.
    Duration,
    /// A value that may be absent, behind a one-byte flag.
    HasValue(Box<Shape>),
    /// An object, a union or a sequence that may be absent: the size or count
    /// -1 stands for the absent one.
    Nullable(Box<Shape>),
    /// Two values, one behind the other.
    Tuple(Box<Shape>, Box<Shape>),
    /// Fields in a fixed order, one behind the other.
    Struct(Vec<Shape>),
    /// Fields found through a table of offsets, by their indices.
    Object(Vec<FieldShape>),
    /// One of several cases, told apart by a key of the given kind.
    Union(IntKind, Vec<CaseShape>),
    /// Any number of values of one shape.
    Sequence(Box<Shape>),
}

impl Shape {
    /// Whether the first four bytes of a value of this shape are a size or a count.
    pub open spec fn starts_with_size(self) -> bool {
        self is Object || self is Union || self is Sequence
    }

    /// Whether the first four bytes of a value of this shape are a size or a count.
    pub fn is_sized(&self) -> (r: bool)
        ensures
            r == self.starts_with_size(),
    {
        match self {
            Shape::Object(_) | Shape::Union(_, _) | Shape::Sequence(_) => true,
            _ => false,
        }
    }

    /// The shape of a value of `inner` that may be absent: `Nullable` where
    /// `inner` begins with a size or a count, `HasValue` where it does not.
    pub fn optional(inner: Shape) -> (r: Shape)
        ensures
            r == (if inner.starts_with_size() {
                Shape::Nullable(Box::new(inner))
            } else {
                Shape::HasValue(Box::new(inner))
            }),
    {
        if inner.is_sized() {
            Shape::Nullable(Box::new(inner))
        } else {
            Shape::HasValue(Box::new(inner))
        }
    }
}

} // verus!
