//! Pointer-related types and traits: a pointer width bounds how many nodes a
//! tree can hold.

use vstd::prelude::*;

verus! {

/// Marker trait restricting the pointer widths.
pub trait PointerSealed {}

/// A pointer type that is derived from the pointer [Width].
///
/// A pointer of width `w` can address the indexes `0..w::MAX`: the maximum
/// value of the width is reserved, as it is in a non-zero representation.
pub trait Pointer: Sized + Copy + PointerSealed {
    /// The node index this pointer refers to.
    spec fn spec_get(self) -> nat;

    /// Whether `value` can be represented by this pointer type.
    spec fn spec_fits(value: nat) -> bool;

    /// Whether this is the reserved value that marks an absent link.
    spec fn spec_is_none(self) -> bool;

    /// Representable values are closed downwards.
    proof fn lemma_fits_downward(value: nat, smaller: nat)
        requires
            Self::spec_fits(value),
            smaller <= value,
        ensures
            Self::spec_fits(smaller),
    ;

    /// Safe constructor for the pointer: `None` if the value provided is out
    /// of bounds for the pointer type.
    fn new(value: usize) -> (r: Option<Self>)
        ensures
            r is Some <==> Self::spec_fits(value as nat),
            r matches Some(p) ==> p.spec_get() == value && !p.spec_is_none(),
    ;

    /// Get the index of a pointer.
    fn get(self) -> (r: usize)
        ensures
            r == self.spec_get(),
    ;

    /// The reserved value that marks an absent link. It takes the place of
    /// `None` so that an optional link is no larger than a pointer.
    fn none() -> (r: Self)
        ensures
            r.spec_is_none(),
    ;

    /// Test if this is the reserved value that marks an absent link.
    fn is_none(&self) -> (r: bool)
        ensures
            r == self.spec_is_none(),
    ;
}

/// A pointer width that can be used to reference other nodes. This is
/// determined by a primitive unsigned type such as `u32` or `usize`.
pub trait Width: PointerSealed {
    /// The pointer type associated with a specific width.
    type Pointer: Pointer;
}

/// [`Pointer`] implementation for `usize`.
#[derive(Debug, Clone, Copy, PartialEq, Eq, Structural)]
pub struct PointerUsize(usize);

/// [`Pointer`] implementation for `u8`.
#[derive(Debug, Clone, Copy, PartialEq, Eq, Structural)]
pub struct PointerU8(u8);

/// [`Pointer`] implementation for `u16`.
#[derive(Debug, Clone, Copy, PartialEq, Eq, Structural)]
pub struct PointerU16(u16);

/// [`Pointer`] implementation for `u32`.
#[derive(Debug, Clone, Copy, PartialEq, Eq, Structural)]
pub struct PointerU32(u32);

/// [`Pointer`] implementation for `u64`.
#[derive(Debug, Clone, Copy, PartialEq, Eq, Structural)]
pub struct PointerU64(u64);

/// [`Pointer`] implementation for `u128`.
#[derive(Debug, Clone, Copy, PartialEq, Eq, Structural)]
pub struct PointerU128(u128);

impl PointerSealed for usize {}

impl PointerSealed for u8 {}

impl PointerSealed for u16 {}

impl PointerSealed for u32 {}

impl PointerSealed for u64 {}

impl PointerSealed for u128 {}

impl PointerSealed for PointerUsize {}

impl PointerSealed for PointerU8 {}

impl PointerSealed for PointerU16 {}

impl PointerSealed for PointerU32 {}

impl PointerSealed for PointerU64 {}

impl PointerSealed for PointerU128 {}

impl Width for usize {
    type Pointer = PointerUsize;
}

impl Width for u8 {
    type Pointer = PointerU8;
}

impl Width for u16 {
    type Pointer = PointerU16;
}

impl Width for u32 {
    type Pointer = PointerU32;
}

impl Width for u64 {
    type Pointer = PointerU64;
}

impl Width for u128 {
    type Pointer = PointerU128;
}

impl Pointer for PointerUsize {
    closed spec fn spec_get(self) -> nat {
        self.0 as nat
    }

    open spec fn spec_fits(value: nat) -> bool {
        value < usize::MAX
    }

    closed spec fn spec_is_none(self) -> bool {
        self.0 == usize::MAX
    }

    fn none() -> (r: Self) {
        PointerUsize(usize::MAX)
    }

    fn is_none(&self) -> (r: bool) {
        self.0 == usize::MAX
    }

    proof fn lemma_fits_downward(value: nat, smaller: nat) {
    }

    fn new(value: usize) -> (r: Option<Self>) {
        if value < usize::MAX {
            Some(PointerUsize(value))
        } else {
            None
        }
    }

    fn get(self) -> (r: usize) {
        self.0
    }
}

impl Pointer for PointerU8 {
    closed spec fn spec_get(self) -> nat {
        self.0 as nat
    }

    open spec fn spec_fits(value: nat) -> bool {
        value < u8::MAX
    }

    closed spec fn spec_is_none(self) -> bool {
        self.0 == u8::MAX
    }

    fn none() -> (r: Self) {
        PointerU8(u8::MAX)
    }

    fn is_none(&self) -> (r: bool) {
        self.0 == u8::MAX
    }

    proof fn lemma_fits_downward(value: nat, smaller: nat) {
    }

    fn new(value: usize) -> (r: Option<Self>) {
        if value < u8::MAX as usize {
            Some(PointerU8(value as u8))
        } else {
            None
        }
    }

    fn get(self) -> (r: usize) {
        self.0 as usize
    }
}

impl Pointer for PointerU16 {
    closed spec fn spec_get(self) -> nat {
        self.0 as nat
    }

    open spec fn spec_fits(value: nat) -> bool {
        value < u16::MAX
    }

    closed spec fn spec_is_none(self) -> bool {
        self.0 == u16::MAX
    }

    fn none() -> (r: Self) {
        PointerU16(u16::MAX)
    }

    fn is_none(&self) -> (r: bool) {
        self.0 == u16::MAX
    }

    proof fn lemma_fits_downward(value: nat, smaller: nat) {
    }

    fn new(value: usize) -> (r: Option<Self>) {
        if value < u16::MAX as usize {
            Some(PointerU16(value as u16))
        } else {
            None
        }
    }

    fn get(self) -> (r: usize) {
        self.0 as usize
    }
}

impl Pointer for PointerU32 {
    closed spec fn spec_get(self) -> nat {
        self.0 as nat
    }

    open spec fn spec_fits(value: nat) -> bool {
        value < u32::MAX
    }

    closed spec fn spec_is_none(self) -> bool {
        self.0 == u32::MAX
    }

    fn none() -> (r: Self) {
        PointerU32(u32::MAX)
    }

    fn is_none(&self) -> (r: bool) {
        self.0 == u32::MAX
    }

    proof fn lemma_fits_downward(value: nat, smaller: nat) {
    }

    fn new(value: usize) -> (r: Option<Self>) {
        if value < u32::MAX as usize {
            Some(PointerU32(value as u32))
        } else {
            None
        }
    }

    fn get(self) -> (r: usize) {
        self.0 as usize
    }
}

impl Pointer for PointerU64 {
    closed spec fn spec_get(self) -> nat {
        (self.0 as usize) as nat
    }

    open spec fn spec_fits(value: nat) -> bool {
        value < usize::MAX
    }

    closed spec fn spec_is_none(self) -> bool {
        self.0 == u64::MAX
    }

    fn none() -> (r: Self) {
        PointerU64(u64::MAX)
    }

    fn is_none(&self) -> (r: bool) {
        self.0 == u64::MAX
    }

    proof fn lemma_fits_downward(value: nat, smaller: nat) {
    }

    fn new(value: usize) -> (r: Option<Self>) {
        if value < usize::MAX {
            let v = value as u64;
            assert(v as usize == value) by (bit_vector)
                requires
                    v == value as u64,
            ;
            assert(v != u64::MAX) by (bit_vector)
                requires
                    v == value as u64,
                    (value as u128) < 0xffff_ffff_ffff_ffffu128,
            ;
            Some(PointerU64(v))
        } else {
            None
        }
    }

    fn get(self) -> (r: usize) {
        self.0 as usize
    }
}

impl Pointer for PointerU128 {
    closed spec fn spec_get(self) -> nat {
        (self.0 as usize) as nat
    }

    open spec fn spec_fits(value: nat) -> bool {
        value < usize::MAX
    }

    closed spec fn spec_is_none(self) -> bool {
        self.0 == u128::MAX
    }

    fn none() -> (r: Self) {
        PointerU128(u128::MAX)
    }

    fn is_none(&self) -> (r: bool) {
        self.0 == u128::MAX
    }

    proof fn lemma_fits_downward(value: nat, smaller: nat) {
    }

    fn new(value: usize) -> (r: Option<Self>) {
        if value < usize::MAX {
            let v = value as u128;
            assert(v as usize == value) by (bit_vector)
                requires
                    v == value as u128,
            ;
            assert(v != u128::MAX) by (bit_vector)
                requires
                    v == value as u128,
                    (value as u128) < 0xffff_ffff_ffff_ffffu128,
            ;
            Some(PointerU128(v))
        } else {
            None
        }
    }

    fn get(self) -> (r: usize) {
        self.0 as usize
    }
}

} // verus!
