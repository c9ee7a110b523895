use vstd::prelude::*;
use crate::sealed::Sealed;

verus! {

/// The closed set of element kinds that an array operand may hold.
///
/// Every value of a kind is a fixed-width bit pattern without padding, held
/// here in the low `bits(kind)` bits of a `u64` word.
#[derive(Clone, Copy, Debug, PartialEq, Eq, Structural)]
pub enum ElementKind {
    F32,
    F64,
    I8,
    I16,
    I32,
    I64,
    Isize,
    U8,
    U16,
    U32,
    U64,
    Usize,
}

/// Width in bits of one element of kind `k`. `Isize` and `Usize` are taken
/// as 64 bits, their width on 64-bit hosts.
pub open spec fn bits(k: ElementKind) -> nat {
    match k {
        ElementKind::I8 | ElementKind::U8 => 8,
        ElementKind::I16 | ElementKind::U16 => 16,
        ElementKind::F32 | ElementKind::I32 | ElementKind::U32 => 32,
        _ => 64,
    }
}

/// Number of distinct bit patterns of kind `k`, that is `2^bits(k)`.
pub open spec fn modulus(k: ElementKind) -> nat {
    match k {
        ElementKind::I8 | ElementKind::U8 => 0x100,
        ElementKind::I16 | ElementKind::U16 => 0x1_0000,
        ElementKind::F32 | ElementKind::I32 | ElementKind::U32 => 0x1_0000_0000,
        _ => 0x1_0000_0000_0000_0000,
    }
}

pub open spec fn is_float(k: ElementKind) -> bool {
    k == ElementKind::F32 || k == ElementKind::F64
}

pub open spec fn is_signed(k: ElementKind) -> bool {
    match k {
        ElementKind::I8 | ElementKind::I16 | ElementKind::I32 | ElementKind::I64
        | ElementKind::Isize => true,
        _ => false,
    }
}

/// Every word of `s` is a valid bit pattern of kind `k`.
pub open spec fn words_fit(k: ElementKind, s: Seq<u64>) -> bool {
    forall|i: int| 0 <= i < s.len() ==> (#[trigger] s[i]) < modulus(k)
}

impl ElementKind {
    /// Width in bits of one element.
    pub fn bits(&self) -> (r: u32)
        ensures
            r as nat == bits(*self),
    {
        match self {
            ElementKind::I8 | ElementKind::U8 => 8,
            ElementKind::I16 | ElementKind::U16 => 16,
            ElementKind::F32 | ElementKind::I32 | ElementKind::U32 => 32,
            _ => 64,
        }
    }

    /// Size in bytes of one element.
    pub fn size_in_bytes(&self) -> (r: u32)
        ensures
            r as nat * 8 == bits(*self),
    {
        self.bits() / 8
    }

    pub fn is_float(&self) -> (r: bool)
        ensures
            r == is_float(*self),
    {
        matches!(self, ElementKind::F32 | ElementKind::F64)
    }

    pub fn is_signed(&self) -> (r: bool)
        ensures
            r == is_signed(*self),
    {
        matches!(
            self,
            ElementKind::I8 | ElementKind::I16 | ElementKind::I32 | ElementKind::I64
                | ElementKind::Isize
        )
    }
}

/// A primitive numeric type whose values may be copied byte for byte into
/// device memory.
pub trait Element: Sealed {
    /// The kind tag of this type.
    fn kind() -> ElementKind;
}

impl Sealed for i8 {}
impl Sealed for i16 {}
impl Sealed for i32 {}
impl Sealed for i64 {}
impl Sealed for isize {}
impl Sealed for u8 {}
impl Sealed for u16 {}
impl Sealed for u32 {}
impl Sealed for u64 {}
impl Sealed for usize {}

impl Element for i8 {
    fn kind() -> ElementKind { ElementKind::I8 }
}

impl Element for i16 {
    fn kind() -> ElementKind { ElementKind::I16 }
}

impl Element for i32 {
    fn kind() -> ElementKind { ElementKind::I32 }
}

impl Element for i64 {
    fn kind() -> ElementKind { ElementKind::I64 }
}

impl Element for isize {
    fn kind() -> ElementKind { ElementKind::Isize }
}

impl Element for u8 {
    fn kind() -> ElementKind { ElementKind::U8 }
}

impl Element for u16 {
    fn kind() -> ElementKind { ElementKind::U16 }
}

impl Element for u32 {
    fn kind() -> ElementKind { ElementKind::U32 }
}

impl Element for u64 {
    fn kind() -> ElementKind { ElementKind::U64 }
}

impl Element for usize {
    fn kind() -> ElementKind { ElementKind::Usize }
}

} // verus!
