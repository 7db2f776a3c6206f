//! Fixed-width integers as values of the raw codec.
use crate::raw::{
    be_value, lemma_le_bytes_len, lemma_le_value_bound, lemma_ordered_round_trip,
    lemma_pow256_facts, lemma_pow256_mono, le_bytes, le_value, ordered_bytes, ordered_value,
    pow256, push_be, push_le, read_be_at, read_le_at,
};
use vstd::prelude::*;

verus! {

/// A fixed-width integer that the raw codec can encode: it is `size()` bytes wide, and `bits()`
/// is its unsigned image (two's complement for signed types).
pub trait MemValue: Sized + Copy {
    spec fn size() -> nat;

    spec fn bits(self) -> nat;

    fn byte_size() -> (r: usize)
        ensures
            r as nat == Self::size(),
            1 <= r <= 16,
    ;

    fn to_bits(self) -> (r: u128)
        ensures
            r as nat == self.bits(),
    ;

    fn from_bits(b: u128) -> (r: Self)
        requires
            (b as nat) < pow256(Self::size()),
        ensures
            r.bits() == b as nat,
    ;

    proof fn lemma_bits_fit(v: Self)
        ensures
            v.bits() < pow256(Self::size()),
            1 <= Self::size() <= 16,
    ;

    proof fn lemma_bits_injective(a: Self, b: Self)
        requires
            a.bits() == b.bits(),
        ensures
            a == b,
    ;
}

impl MemValue for u8 {
    open spec fn size() -> nat {
        1
    }

    open spec fn bits(self) -> nat {
        self as nat
    }

    fn byte_size() -> (r: usize) {
        1
    }

    fn to_bits(self) -> (r: u128) {
        self as u128
    }

    fn from_bits(b: u128) -> (r: Self) {
        proof {
            lemma_pow256_facts(0);
        }
        b as u8
    }

    proof fn lemma_bits_fit(v: Self) {
        lemma_pow256_facts(0);
    }

    proof fn lemma_bits_injective(a: Self, b: Self) {
    }
}

impl MemValue for u16 {
    open spec fn size() -> nat {
        2
    }

    open spec fn bits(self) -> nat {
        self as nat
    }

    fn byte_size() -> (r: usize) {
        2
    }

    fn to_bits(self) -> (r: u128) {
        self as u128
    }

    fn from_bits(b: u128) -> (r: Self) {
        proof {
            lemma_pow256_facts(0);
        }
        b as u16
    }

    proof fn lemma_bits_fit(v: Self) {
        lemma_pow256_facts(0);
    }

    proof fn lemma_bits_injective(a: Self, b: Self) {
    }
}

impl MemValue for u32 {
    open spec fn size() -> nat {
        4
    }

    open spec fn bits(self) -> nat {
        self as nat
    }

    fn byte_size() -> (r: usize) {
        4
    }

    fn to_bits(self) -> (r: u128) {
        self as u128
    }

    fn from_bits(b: u128) -> (r: Self) {
        proof {
            lemma_pow256_facts(0);
        }
        b as u32
    }

    proof fn lemma_bits_fit(v: Self) {
        lemma_pow256_facts(0);
    }

    proof fn lemma_bits_injective(a: Self, b: Self) {
    }
}

impl MemValue for u64 {
    open spec fn size() -> nat {
        8
    }

    open spec fn bits(self) -> nat {
        self as nat
    }

    fn byte_size() -> (r: usize) {
        8
    }

    fn to_bits(self) -> (r: u128) {
        self as u128
    }

    fn from_bits(b: u128) -> (r: Self) {
        proof {
            lemma_pow256_facts(0);
        }
        b as u64
    }

    proof fn lemma_bits_fit(v: Self) {
        lemma_pow256_facts(0);
    }

    proof fn lemma_bits_injective(a: Self, b: Self) {
    }
}

impl MemValue for u128 {
    open spec fn size() -> nat {
        16
    }

    open spec fn bits(self) -> nat {
        self as nat
    }

    fn byte_size() -> (r: usize) {
        16
    }

    fn to_bits(self) -> (r: u128) {
        self
    }

    fn from_bits(b: u128) -> (r: Self) {
        b
    }

    proof fn lemma_bits_fit(v: Self) {
        lemma_pow256_facts(0);
    }

    proof fn lemma_bits_injective(a: Self, b: Self) {
    }
}

impl MemValue for i8 {
    open spec fn size() -> nat {
        1
    }

    open spec fn bits(self) -> nat {
        if self >= 0 {
            self as nat
        } else {
            (self + 0x100) as nat
        }
    }

    fn byte_size() -> (r: usize) {
        1
    }

    fn to_bits(self) -> (r: u128) {
        if self >= 0 {
            self as u128
        } else {
            (self as i16 + 0x100) as u128
        }
    }

    fn from_bits(b: u128) -> (r: Self) {
        proof {
            lemma_pow256_facts(0);
        }
        if b < 0x80 {
            b as i8
        } else {
            (b as i16 - 0x100) as i8
        }
    }

    proof fn lemma_bits_fit(v: Self) {
        lemma_pow256_facts(0);
    }

    proof fn lemma_bits_injective(a: Self, b: Self) {
    }
}

impl MemValue for i16 {
    open spec fn size() -> nat {
        2
    }

    open spec fn bits(self) -> nat {
        if self >= 0 {
            self as nat
        } else {
            (self + 0x1_0000) as nat
        }
    }

    fn byte_size() -> (r: usize) {
        2
    }

    fn to_bits(self) -> (r: u128) {
        if self >= 0 {
            self as u128
        } else {
            (self as i32 + 0x1_0000) as u128
        }
    }

    fn from_bits(b: u128) -> (r: Self) {
        proof {
            lemma_pow256_facts(0);
        }
        if b < 0x8000 {
            b as i16
        } else {
            (b as i32 - 0x1_0000) as i16
        }
    }

    proof fn lemma_bits_fit(v: Self) {
        lemma_pow256_facts(0);
    }

    proof fn lemma_bits_injective(a: Self, b: Self) {
    }
}

impl MemValue for i32 {
    open spec fn size() -> nat {
        4
    }

    open spec fn bits(self) -> nat {
        if self >= 0 {
            self as nat
        } else {
            (self + 0x1_0000_0000) as nat
        }
    }

    fn byte_size() -> (r: usize) {
        4
    }

    fn to_bits(self) -> (r: u128) {
        if self >= 0 {
            self as u128
        } else {
            (self as i64 + 0x1_0000_0000) as u128
        }
    }

    fn from_bits(b: u128) -> (r: Self) {
        proof {
            lemma_pow256_facts(0);
        }
        if b < 0x8000_0000 {
            b as i32
        } else {
            (b as i64 - 0x1_0000_0000) as i32
        }
    }

    proof fn lemma_bits_fit(v: Self) {
        lemma_pow256_facts(0);
    }

    proof fn lemma_bits_injective(a: Self, b: Self) {
    }
}

impl MemValue for i64 {
    open spec fn size() -> nat {
        8
    }

    open spec fn bits(self) -> nat {
        if self >= 0 {
            self as nat
        } else {
            (self + 0x1_0000_0000_0000_0000) as nat
        }
    }

    fn byte_size() -> (r: usize) {
        8
    }

    fn to_bits(self) -> (r: u128) {
        if self >= 0 {
            self as u128
        } else {
            (self as i128 + 0x1_0000_0000_0000_0000) as u128
        }
    }

    fn from_bits(b: u128) -> (r: Self) {
        proof {
            lemma_pow256_facts(0);
        }
        if b < 0x8000_0000_0000_0000 {
            b as i64
        } else {
            (b as i128 - 0x1_0000_0000_0000_0000) as i64
        }
    }

    proof fn lemma_bits_fit(v: Self) {
        lemma_pow256_facts(0);
    }

    proof fn lemma_bits_injective(a: Self, b: Self) {
    }
}

impl MemValue for i128 {
    open spec fn size() -> nat {
        16
    }

    open spec fn bits(self) -> nat {
        if self >= 0 {
            self as nat
        } else {
            (self + 0x1_0000_0000_0000_0000_0000_0000_0000_0000) as nat
        }
    }

    fn byte_size() -> (r: usize) {
        16
    }

    fn to_bits(self) -> (r: u128) {
        if self >= 0 {
            self as u128
        } else {
            ((self + i128::MAX) + 1) as u128 + 0x8000_0000_0000_0000_0000_0000_0000_0000
        }
    }

    fn from_bits(b: u128) -> (r: Self) {
        proof {
            lemma_pow256_facts(0);
        }
        if b < 0x8000_0000_0000_0000_0000_0000_0000_0000 {
            b as i128
        } else {
            ((b - 0x8000_0000_0000_0000_0000_0000_0000_0000) as i128 - i128::MAX) - 1
        }
    }

    proof fn lemma_bits_fit(v: Self) {
        lemma_pow256_facts(0);
    }

    proof fn lemma_bits_injective(a: Self, b: Self) {
    }
}

/// Appends the bytes of `v`, least significant first when `little`, else most significant first.
pub fn push_value<T: MemValue>(out: &mut Vec<u8>, v: T, little: bool)
    ensures
        final(out)@ == old(out)@ + ordered_bytes(v.bits(), T::size(), little),
{
    let n = T::byte_size();
    let b = v.to_bits();
    if little {
        push_le(out, b, n);
    } else {
        push_be(out, b, n);
    }
}

/// Reads a value from the bytes at `off`, least significant first when `little`.
pub fn read_value<T: MemValue>(s: &[u8], off: usize, little: bool) -> (r: T)
    requires
        off + T::size() <= s@.len(),
    ensures
        r.bits() == ordered_value(s@.subrange(off as int, off + T::size()), little),
{
    let n = T::byte_size();
    let b = if little {
        read_le_at(s, off, n)
    } else {
        read_be_at(s, off, n)
    };
    proof {
        let sub = s@.subrange(off as int, off + n);
        lemma_le_value_bound(sub);
        let rev = Seq::new(sub.len(), |i: int| sub[sub.len() - 1 - i]);
        lemma_le_value_bound(rev);
        assert(be_value(sub) == le_value(rev));
    }
    T::from_bits(b)
}

/// Appends every byte of `src`.
pub fn push_all(out: &mut Vec<u8>, src: &[u8])
    ensures
        final(out)@ == old(out)@ + src@,
{
    let mut i: usize = 0;
    let len = src.len();
    while i < len
        invariant
            i <= len,
            len == src@.len(),
            out@ == old(out)@ + src@.subrange(0, i as int),
        decreases len - i,
    {
        out.push(src[i]);
        i = i + 1;
        assert(out@ =~= old(out)@ + src@.subrange(0, i as int));
    }
    assert(src@.subrange(0, len as int) =~= src@);
}

/// Overwrites the four bytes at `off` with the little-endian bytes of `v`.
pub fn patch_u32_le(buf: &mut Vec<u8>, off: usize, v: u32)
    requires
        off + 4 <= old(buf)@.len(),
    ensures
        final(buf)@ == old(buf)@.subrange(0, off as int) + le_bytes(v as nat, 4) + old(buf)@.subrange(
            off + 4,
            old(buf)@.len() as int,
        ),
{
    let mut tmp: Vec<u8> = Vec::new();
    push_le(&mut tmp, v as u128, 4);
    proof {
        lemma_le_bytes_len(v as nat, 4);
    }
    let mut i: usize = 0;
    let len = buf.len();
    while i < 4
        invariant
            i <= 4,
            len == buf@.len(),
            off + 4 <= buf@.len(),
            tmp@ == le_bytes(v as nat, 4),
            tmp@.len() == 4,
            buf@.len() == old(buf)@.len(),
            forall|k: int| 0 <= k < buf@.len() ==> #[trigger] buf@[k] == if off <= k < off + i {
                tmp@[k - off]
            } else {
                old(buf)@[k]
            },
        decreases 4 - i,
    {
        buf.set(off + i, tmp[i]);
        i = i + 1;
    }
    assert(buf@ =~= old(buf)@.subrange(0, off as int) + le_bytes(v as nat, 4) + old(buf)@.subrange(
        off + 4,
        old(buf)@.len() as int,
    ));
}

/// Reading back what `push_value` appended gives the value back, in either byte order.
pub proof fn lemma_value_round_trip<T: MemValue>(v: T, little: bool)
    ensures
        ordered_bytes(v.bits(), T::size(), little).len() == T::size(),
        ordered_value(ordered_bytes(v.bits(), T::size(), little), little) == v.bits(),
{
    T::lemma_bits_fit(v);
    crate::raw::lemma_ordered_bytes_len(v.bits(), T::size(), little);
    lemma_ordered_round_trip(v.bits(), T::size(), little);
}

/// Relies on `u16::from_ne_bytes`: the two bytes read in the machine's own byte order, which is
/// one of the two orders.
#[verifier::external_body]
fn native_u16(b: [u8; 2]) -> (r: u16)
    ensures
        r == b@[0] + 256 * b@[1] || r == b@[1] + 256 * b@[0],
{
    u16::from_ne_bytes(b)
}

/// Whether the machine stores integers least significant byte first.
pub fn native_is_little() -> bool {
    native_u16([1, 0]) == 1
}

/// Reading bytes and fixed-width integers at a byte offset.
pub trait ByteSlice {
    spec fn bytes(&self) -> Seq<u8>;

    /// The byte at `off`.
    fn read(&self, off: usize) -> (r: u8)
        requires
            off < self.bytes().len(),
        ensures
            r == self.bytes()[off as int],
    ;

    /// The integer whose little-endian bytes are at `off`.
    fn read_le<T: MemValue>(&self, off: usize) -> (r: T)
        requires
            off + T::size() <= self.bytes().len(),
        ensures
            r.bits() == le_value(self.bytes().subrange(off as int, off + T::size())),
    ;

    /// The integer whose big-endian bytes are at `off`.
    fn read_be<T: MemValue>(&self, off: usize) -> (r: T)
        requires
            off + T::size() <= self.bytes().len(),
        ensures
            r.bits() == be_value(self.bytes().subrange(off as int, off + T::size())),
    ;

    /// The integer whose bytes in the machine's order are at `off`.
    fn read_ne<T: MemValue>(&self, off: usize) -> (r: T)
        requires
            off + T::size() <= self.bytes().len(),
        ensures
            r.bits() == le_value(self.bytes().subrange(off as int, off + T::size())) || r.bits()
                == be_value(self.bytes().subrange(off as int, off + T::size())),
    ;
}

impl ByteSlice for [u8] {
    open spec fn bytes(&self) -> Seq<u8> {
        self@
    }

    fn read(&self, off: usize) -> (r: u8) {
        self[off]
    }

    fn read_le<T: MemValue>(&self, off: usize) -> (r: T) {
        read_value(self, off, true)
    }

    fn read_be<T: MemValue>(&self, off: usize) -> (r: T) {
        read_value(self, off, false)
    }

    fn read_ne<T: MemValue>(&self, off: usize) -> (r: T) {
        read_value(self, off, native_is_little())
    }
}

/// `bytes` with the region at `off` replaced by `region`.
pub open spec fn overwritten(bytes: Seq<u8>, off: int, region: Seq<u8>) -> Seq<u8> {
    bytes.subrange(0, off) + region + bytes.subrange(off + region.len(), bytes.len() as int)
}

/// Writing bytes and fixed-width integers at a byte offset.
pub trait ByteMutSlice {
    spec fn bytes(&self) -> Seq<u8>;

    /// Puts `value` at `off`.
    fn write(&mut self, off: usize, value: u8)
        requires
            off < old(self).bytes().len(),
        ensures
            final(self).bytes() == old(self).bytes().update(off as int, value),
    ;

    /// Puts the little-endian bytes of `value` at `off`.
    fn write_le<T: MemValue>(&mut self, off: usize, value: T)
        requires
            off + T::size() <= old(self).bytes().len(),
        ensures
            final(self).bytes() == overwritten(
                old(self).bytes(),
                off as int,
                ordered_bytes(value.bits(), T::size(), true),
            ),
    ;

    /// Puts the big-endian bytes of `value` at `off`.
    fn write_be<T: MemValue>(&mut self, off: usize, value: T)
        requires
            off + T::size() <= old(self).bytes().len(),
        ensures
            final(self).bytes() == overwritten(
                old(self).bytes(),
                off as int,
                ordered_bytes(value.bits(), T::size(), false),
            ),
    ;

    /// Puts the bytes of `value` in the machine's order at `off`.
    fn write_ne<T: MemValue>(&mut self, off: usize, value: T)
        requires
            off + T::size() <= old(self).bytes().len(),
        ensures
            final(self).bytes() == overwritten(
                old(self).bytes(),
                off as int,
                ordered_bytes(value.bits(), T::size(), true),
            ) || final(self).bytes() == overwritten(
                old(self).bytes(),
                off as int,
                ordered_bytes(value.bits(), T::size(), false),
            ),
    ;
}

/// Overwrites the bytes at `off` with those of `value` in the given order.
fn write_value<T: MemValue>(buf: &mut [u8], off: usize, value: T, little: bool)
    requires
        off + T::size() <= old(buf)@.len(),
    ensures
        final(buf)@ == overwritten(old(buf)@, off as int, ordered_bytes(value.bits(), T::size(), little)),
{
    let mut tmp: Vec<u8> = Vec::new();
    push_value(&mut tmp, value, little);
    let n = T::byte_size();
    proof {
        crate::raw::lemma_ordered_bytes_len(value.bits(), T::size(), little);
        assert(tmp@ =~= ordered_bytes(value.bits(), T::size(), little));
    }
    let len = buf.len();
    let mut i: usize = 0;
    while i < n
        invariant
            i <= n,
            n == T::size(),
            off + n <= len,
            len == buf@.len(),
            buf@.len() == old(buf)@.len(),
            tmp@.len() == n,
            forall|k: int| 0 <= k < buf@.len() ==> #[trigger] buf@[k] == if off <= k < off + i {
                tmp@[k - off]
            } else {
                old(buf)@[k]
            },
        decreases n - i,
    {
        buf[off + i] = tmp[i];
        i = i + 1;
    }
    assert(buf@ =~= overwritten(old(buf)@, off as int, tmp@));
}

impl ByteMutSlice for [u8] {
    open spec fn bytes(&self) -> Seq<u8> {
        self@
    }

    fn write(&mut self, off: usize, value: u8) {
        self[off] = value;
    }

    fn write_le<T: MemValue>(&mut self, off: usize, value: T) {
        write_value(self, off, value, true);
    }

    fn write_be<T: MemValue>(&mut self, off: usize, value: T) {
        write_value(self, off, value, false);
    }

    fn write_ne<T: MemValue>(&mut self, off: usize, value: T) {
        let little = native_is_little();
        write_value(self, off, value, little);
    }
}

} // verus!
