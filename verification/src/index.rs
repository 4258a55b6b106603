use vstd::prelude::*;

verus! {

/// Marker trait restricting the types that can index a span.
pub trait Sealed {}

/// The length of a span, as produced by [`Index::len_to`] and consumed by
/// [`Index::checked_add_len`].
pub trait Length: Sized + Copy + Sealed {
    /// The numerical length this value stands for.
    spec fn spec_len(self) -> nat;

    /// The empty length.
    fn empty() -> (r: Self)
        ensures
            r.spec_len() == 0,
    ;

    /// Test if the length is zero.
    fn is_empty(&self) -> (r: bool)
        ensures
            r == (self.spec_len() == 0),
    ;
}

/// A type that can be used when referring to an index in a tree.
///
/// Valid indexes are `u32` and `usize`, and [`Empty`] in case spans are not
/// needed at all.
pub trait Index: Sized + Copy + Sealed {
    /// The length type that goes with this index.
    type Length: Length;

    /// The numerical position this index stands for.
    spec fn spec_pos(self) -> nat;

    /// Whether adding `len` to this index fits in the index type.
    spec fn spec_add_fits(self, len: Self::Length) -> bool;

    /// The index that `value` converts into, if it fits.
    spec fn spec_from_usize(value: usize) -> Option<Self>;

    /// Indexes with the same position are the same value.
    proof fn lemma_pos_injective(a: Self, b: Self)
        ensures
            a.spec_pos() == b.spec_pos() ==> a == b,
    ;

    /// The zero index.
    fn empty() -> (r: Self)
        ensures
            r.spec_pos() == 0,
    ;

    /// Test if the index is zero.
    fn is_empty(&self) -> (r: bool)
        ensures
            r == (self.spec_pos() == 0),
    ;

    /// The position as a `usize`.
    fn as_usize(self) -> (r: usize)
        ensures
            r == self.spec_pos(),
    ;

    /// Add a length to the index, or `None` if the result does not fit.
    fn checked_add_len(self, other: Self::Length) -> (r: Option<Self>)
        ensures
            r is Some <==> self.spec_add_fits(other),
            r matches Some(v) ==> v.spec_pos() == self.spec_pos() + other.spec_len(),
    ;

    /// The length from this index up to `other`, zero if `other` comes first.
    fn len_to(self, other: Self) -> (r: Self::Length)
        ensures
            r.spec_len() == if other.spec_pos() >= self.spec_pos() {
                (other.spec_pos() - self.spec_pos()) as nat
            } else {
                0
            },
    ;

    /// Convert a `usize` into an index.
    fn from_usize(value: usize) -> (r: Option<Self>)
        ensures
            r == Self::spec_from_usize(value),
            r matches Some(v) ==> v.spec_pos() <= value,
    ;

    /// Compare two indexes by position.
    fn le(&self, other: &Self) -> (r: bool)
        ensures
            r == (self.spec_pos() <= other.spec_pos()),
    ;
}

/// The empty index: a tree using it stores no information on spans.
#[derive(Debug, Clone, Copy, PartialEq, Eq, Structural)]
pub struct Empty;

impl Sealed for Empty {}

impl Sealed for u32 {}

impl Sealed for usize {}

impl Length for usize {
    open spec fn spec_len(self) -> nat {
        self as nat
    }

    fn empty() -> (r: Self) {
        0
    }

    fn is_empty(&self) -> (r: bool) {
        *self == 0
    }
}

impl Length for Empty {
    open spec fn spec_len(self) -> nat {
        0
    }

    fn empty() -> (r: Self) {
        Empty
    }

    fn is_empty(&self) -> (r: bool) {
        true
    }
}

impl Index for u32 {
    type Length = usize;

    open spec fn spec_pos(self) -> nat {
        self as nat
    }

    open spec fn spec_add_fits(self, len: usize) -> bool {
        self + len <= u32::MAX
    }

    open spec fn spec_from_usize(value: usize) -> Option<u32> {
        if value <= u32::MAX {
            Some(value as u32)
        } else {
            None
        }
    }

    proof fn lemma_pos_injective(a: u32, b: u32) {
    }

    fn empty() -> (r: u32) {
        0
    }

    fn is_empty(&self) -> (r: bool) {
        *self == 0
    }

    fn as_usize(self) -> (r: usize) {
        self as usize
    }

    fn checked_add_len(self, other: usize) -> (r: Option<u32>) {
        if other <= (u32::MAX - self) as usize {
            Some(self + other as u32)
        } else {
            None
        }
    }

    fn len_to(self, other: u32) -> (r: usize) {
        if other >= self {
            (other - self) as usize
        } else {
            0
        }
    }

    fn from_usize(value: usize) -> (r: Option<u32>) {
        if value <= u32::MAX as usize {
            Some(value as u32)
        } else {
            None
        }
    }

    fn le(&self, other: &u32) -> (r: bool) {
        *self <= *other
    }
}

impl Index for usize {
    type Length = usize;

    open spec fn spec_pos(self) -> nat {
        self as nat
    }

    open spec fn spec_add_fits(self, len: usize) -> bool {
        self + len <= usize::MAX
    }

    open spec fn spec_from_usize(value: usize) -> Option<usize> {
        Some(value)
    }

    proof fn lemma_pos_injective(a: usize, b: usize) {
    }

    fn empty() -> (r: usize) {
        0
    }

    fn is_empty(&self) -> (r: bool) {
        *self == 0
    }

    fn as_usize(self) -> (r: usize) {
        self
    }

    fn checked_add_len(self, other: usize) -> (r: Option<usize>) {
        self.checked_add(other)
    }

    fn len_to(self, other: usize) -> (r: usize) {
        if other >= self {
            other - self
        } else {
            0
        }
    }

    fn from_usize(value: usize) -> (r: Option<usize>) {
        Some(value)
    }

    fn le(&self, other: &usize) -> (r: bool) {
        *self <= *other
    }
}

impl Index for Empty {
    type Length = Empty;

    open spec fn spec_pos(self) -> nat {
        0
    }

    open spec fn spec_add_fits(self, len: Empty) -> bool {
        true
    }

    open spec fn spec_from_usize(value: usize) -> Option<Empty> {
        Some(Empty)
    }

    proof fn lemma_pos_injective(a: Empty, b: Empty) {
    }

    fn empty() -> (r: Empty) {
        Empty
    }

    fn is_empty(&self) -> (r: bool) {
        true
    }

    fn as_usize(self) -> (r: usize) {
        0
    }

    fn checked_add_len(self, other: Empty) -> (r: Option<Empty>) {
        Some(Empty)
    }

    fn len_to(self, other: Empty) -> (r: Empty) {
        Empty
    }

    fn from_usize(value: usize) -> (r: Option<Empty>) {
        Some(Empty)
    }

    fn le(&self, other: &Empty) -> (r: bool) {
        true
    }
}

} // verus!
