//! Values in their std430 GPU representation: a fixed layout and the exact
//! bytes to copy into a buffer.
use crate::layout::{scalar_spec, vector_spec, Convention, Layout};
use vstd::endian::{endianness, Endian};
use vstd::prelude::*;

verus! {

/// A value already in its std430 GPU representation.
pub trait Std430 {
    /// Alignment and size of the representation.
    spec fn layout_spec() -> Layout;

    /// The bytes of the representation.
    spec fn spec_bytes(&self) -> Seq<u8>;

    /// The representation has exactly `size` bytes.
    proof fn lemma_bytes_len(&self)
        ensures
            self.spec_bytes().len() == Self::layout_spec().size,
    ;

    /// Alignment and size of the representation.
    fn layout() -> (r: Layout)
        ensures
            r == Self::layout_spec(),
            r.wf(),
    ;

    /// The bytes of the representation.
    fn to_bytes(&self) -> (r: Vec<u8>)
        ensures
            r@ == self.spec_bytes(),
            r@.len() == Self::layout_spec().size,
    ;
}

/// The four bytes of `x`, least significant first.
pub open spec fn le_bytes(x: u32) -> Seq<u8> {
    seq![
        (x & 0xff) as u8,
        ((x >> 8) & 0xff) as u8,
        ((x >> 16) & 0xff) as u8,
        ((x >> 24) & 0xff) as u8,
    ]
}

/// The four bytes of `x` as the machine holds them in memory.
pub open spec fn native_bytes(x: u32) -> Seq<u8> {
    match endianness() {
        Endian::Little => le_bytes(x),
        Endian::Big => le_bytes(x).reverse(),
    }
}

/// Relies on `bytemuck::bytes_of`: it views a `u32` as the bytes it
/// occupies in memory, in the machine's byte order.
#[verifier::external_body]
fn lane_bytes(lane: &u32) -> (r: Vec<u8>)
    ensures
        r@ == native_bytes(*lane),
{
    bytemuck::bytes_of(lane).to_vec()
}

/// Appends the bytes of `lane` to `out`.
fn push_lane(out: &mut Vec<u8>, lane: u32)
    ensures
        final(out)@ == old(out)@ + native_bytes(lane),
{
    let mut b = lane_bytes(&lane);
    out.append(&mut b);
}

/// A 32-bit unsigned integer.
impl Std430 for u32 {
    open spec fn layout_spec() -> Layout {
        scalar_spec()
    }

    open spec fn spec_bytes(&self) -> Seq<u8> {
        native_bytes(*self)
    }

    proof fn lemma_bytes_len(&self) {
        assert(le_bytes(*self).reverse().len() == 4);
    }

    fn layout() -> (r: Layout) {
        Layout::scalar()
    }

    fn to_bytes(&self) -> (r: Vec<u8>) {
        proof {
            self.lemma_bytes_len();
        }
        lane_bytes(self)
    }
}

/// A 32-bit signed integer, held as its two's complement bits.
impl Std430 for i32 {
    open spec fn layout_spec() -> Layout {
        scalar_spec()
    }

    open spec fn spec_bytes(&self) -> Seq<u8> {
        native_bytes(*self as u32)
    }

    proof fn lemma_bytes_len(&self) {
        assert(le_bytes(*self as u32).reverse().len() == 4);
    }

    fn layout() -> (r: Layout) {
        Layout::scalar()
    }

    fn to_bytes(&self) -> (r: Vec<u8>) {
        proof {
            self.lemma_bytes_len();
        }
        let bits = *self as u32;
        lane_bytes(&bits)
    }
}

/// A vector of two 32-bit lanes (integers, or the bits of floats).
#[derive(Clone, Copy, Debug, PartialEq, Eq, Structural)]
pub struct UVec2 {
    pub x: u32,
    pub y: u32,
}

/// A vector of three 32-bit lanes (integers, or the bits of floats).
#[derive(Clone, Copy, Debug, PartialEq, Eq, Structural)]
pub struct UVec3 {
    pub x: u32,
    pub y: u32,
    pub z: u32,
}

/// A vector of four 32-bit lanes (integers, or the bits of floats).
#[derive(Clone, Copy, Debug, PartialEq, Eq, Structural)]
pub struct UVec4 {
    pub x: u32,
    pub y: u32,
    pub z: u32,
    pub w: u32,
}

impl Std430 for UVec2 {
    open spec fn layout_spec() -> Layout {
        vector_spec(2, Convention::Std430).unwrap()
    }

    open spec fn spec_bytes(&self) -> Seq<u8> {
        native_bytes(self.x) + native_bytes(self.y)
    }

    proof fn lemma_bytes_len(&self) {
        assert(le_bytes(self.x).reverse().len() == 4);
        assert(le_bytes(self.y).reverse().len() == 4);
    }

    fn layout() -> (r: Layout) {
        Layout::vector(2, Convention::Std430).unwrap()
    }

    fn to_bytes(&self) -> (r: Vec<u8>) {
        proof {
            self.lemma_bytes_len();
        }
        let mut out: Vec<u8> = Vec::new();
        push_lane(&mut out, self.x);
        push_lane(&mut out, self.y);
        assert(out@ =~= self.spec_bytes());
        out
    }
}

/// Under std430 a three-lane vector aligns to 16 bytes but occupies 12.
impl Std430 for UVec3 {
    open spec fn layout_spec() -> Layout {
        vector_spec(3, Convention::Std430).unwrap()
    }

    open spec fn spec_bytes(&self) -> Seq<u8> {
        native_bytes(self.x) + native_bytes(self.y) + native_bytes(self.z)
    }

    proof fn lemma_bytes_len(&self) {
        assert(le_bytes(self.x).reverse().len() == 4);
        assert(le_bytes(self.y).reverse().len() == 4);
        assert(le_bytes(self.z).reverse().len() == 4);
    }

    fn layout() -> (r: Layout) {
        Layout::vector(3, Convention::Std430).unwrap()
    }

    fn to_bytes(&self) -> (r: Vec<u8>) {
        proof {
            self.lemma_bytes_len();
        }
        let mut out: Vec<u8> = Vec::new();
        push_lane(&mut out, self.x);
        push_lane(&mut out, self.y);
        push_lane(&mut out, self.z);
        assert(out@ =~= self.spec_bytes());
        out
    }
}

impl Std430 for UVec4 {
    open spec fn layout_spec() -> Layout {
        vector_spec(4, Convention::Std430).unwrap()
    }

    open spec fn spec_bytes(&self) -> Seq<u8> {
        native_bytes(self.x) + native_bytes(self.y) + native_bytes(self.z) + native_bytes(self.w)
    }

    proof fn lemma_bytes_len(&self) {
        assert(le_bytes(self.x).reverse().len() == 4);
        assert(le_bytes(self.y).reverse().len() == 4);
        assert(le_bytes(self.z).reverse().len() == 4);
        assert(le_bytes(self.w).reverse().len() == 4);
    }

    fn layout() -> (r: Layout) {
        Layout::vector(4, Convention::Std430).unwrap()
    }

    fn to_bytes(&self) -> (r: Vec<u8>) {
        proof {
            self.lemma_bytes_len();
        }
        let mut out: Vec<u8> = Vec::new();
        push_lane(&mut out, self.x);
        push_lane(&mut out, self.y);
        push_lane(&mut out, self.z);
        push_lane(&mut out, self.w);
        assert(out@ =~= self.spec_bytes());
        out
    }
}

} // verus!
