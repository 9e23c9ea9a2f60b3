use vstd::prelude::*;

verus! {

/// The value an element holds.
///
/// Floating-point values are kept as their IEEE-754 bit patterns
/// (`f32::to_bits` / `f64::to_bits`), so the tree itself never does
/// floating-point arithmetic.
#[derive(Debug, PartialEq)]
pub enum ElemVal {
    /// Filler for a slot whose element has been removed; the slot keeps its
    /// index so that other handles stay valid.
    Vacant,
    /// No value (JSON `null`).
    Null,
    Str(String),
    Bool(bool),
    U8(u8),
    I8(i8),
    U16(u16),
    I16(i16),
    U32(u32),
    I32(i32),
    U64(u64),
    I64(i64),
    F32(u32),
    F64(u64),
    /// Containers hold no scalar themselves; their members are child elements.
    Array,
    Object,
}

} // verus!
