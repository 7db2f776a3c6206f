//! Endian-aware encoding of fixed-width integers to and from bytes.
use vstd::prelude::*;

verus! {

/// `256` raised to the power `n`.
pub open spec fn pow256(n: nat) -> nat
    decreases n,
{
    if n == 0 {
        1
    } else {
        256 * pow256((n - 1) as nat)
    }
}

/// The `n` low bytes of `v`, least significant first.
pub open spec fn le_bytes(v: nat, n: nat) -> Seq<u8>
    decreases n,
{
    if n == 0 {
        Seq::empty()
    } else {
        seq![(v % 256) as u8] + le_bytes(v / 256, (n - 1) as nat)
    }
}

/// The `n` low bytes of `v`, most significant first.
pub open spec fn be_bytes(v: nat, n: nat) -> Seq<u8> {
    Seq::new(n, |i: int| le_bytes(v, n)[n - 1 - i])
}

/// The number whose little-endian bytes are `s`.
pub open spec fn le_value(s: Seq<u8>) -> nat
    decreases s.len(),
{
    if s.len() == 0 {
        0
    } else {
        s[0] as nat + 256 * le_value(s.drop_first())
    }
}

/// The number whose big-endian bytes are `s`.
pub open spec fn be_value(s: Seq<u8>) -> nat {
    le_value(Seq::new(s.len(), |i: int| s[s.len() - 1 - i]))
}

/// The bytes of `v` in the given order.
pub open spec fn ordered_bytes(v: nat, n: nat, little: bool) -> Seq<u8> {
    if little {
        le_bytes(v, n)
    } else {
        be_bytes(v, n)
    }
}

/// The number whose bytes in the given order are `s`.
pub open spec fn ordered_value(s: Seq<u8>, little: bool) -> nat {
    if little {
        le_value(s)
    } else {
        be_value(s)
    }
}

pub proof fn lemma_pow256_facts(n: nat)
    ensures
        pow256(n) >= 1,
        pow256(n + 1) == 256 * pow256(n),
        n <= 16 ==> pow256(n) <= pow256(16),
        pow256(16) == 0x1_0000_0000_0000_0000_0000_0000_0000_0000,
        pow256(15) == 0x100_0000_0000_0000_0000_0000_0000_0000,
        pow256(1) == 256,
        pow256(2) == 0x1_0000,
        pow256(4) == 0x1_0000_0000,
        pow256(8) == 0x1_0000_0000_0000_0000,
    decreases n,
{
    assert(pow256(1) == 256) by {
        reveal_with_fuel(pow256, 2);
    }
    assert(pow256(2) == 256 * pow256(1));
    assert(pow256(3) == 256 * pow256(2));
    assert(pow256(4) == 256 * pow256(3));
    assert(pow256(5) == 256 * pow256(4));
    assert(pow256(6) == 256 * pow256(5));
    assert(pow256(7) == 256 * pow256(6));
    assert(pow256(8) == 256 * pow256(7));
    assert(pow256(9) == 256 * pow256(8));
    assert(pow256(10) == 256 * pow256(9));
    assert(pow256(11) == 256 * pow256(10));
    assert(pow256(12) == 256 * pow256(11));
    assert(pow256(13) == 256 * pow256(12));
    assert(pow256(14) == 256 * pow256(13));
    assert(pow256(15) == 256 * pow256(14));
    assert(pow256(16) == 256 * pow256(15));
    if n > 0 {
        lemma_pow256_facts((n - 1) as nat);
    }
    if n <= 16 {
        lemma_pow256_mono(n, 16);
    }
}

pub proof fn lemma_pow256_mono(a: nat, b: nat)
    requires
        a <= b,
    ensures
        pow256(a) <= pow256(b),
    decreases b,
{
    if a < b {
        lemma_pow256_mono(a, (b - 1) as nat);
    }
}

pub proof fn lemma_le_bytes_len(v: nat, n: nat)
    ensures
        le_bytes(v, n).len() == n,
    decreases n,
{
    if n > 0 {
        lemma_le_bytes_len(v / 256, (n - 1) as nat);
    }
}

pub proof fn lemma_ordered_bytes_len(v: nat, n: nat, little: bool)
    ensures
        ordered_bytes(v, n, little).len() == n,
{
    lemma_le_bytes_len(v, n);
}

pub proof fn lemma_le_value_bound(s: Seq<u8>)
    ensures
        le_value(s) < pow256(s.len()),
    decreases s.len(),
{
    if s.len() > 0 {
        lemma_le_value_bound(s.drop_first());
        assert(pow256(s.len()) == 256 * pow256(s.drop_first().len()));
    }
}

/// Decoding the little-endian bytes of a value that fits gives the value back.
pub proof fn lemma_le_round_trip(v: nat, n: nat)
    requires
        v < pow256(n),
    ensures
        le_value(le_bytes(v, n)) == v,
    decreases n,
{
    if n > 0 {
        assert(v / 256 < pow256((n - 1) as nat)) by (nonlinear_arith)
            requires
                v < pow256(n),
                pow256(n) == 256 * pow256((n - 1) as nat),
        ;
        lemma_le_round_trip(v / 256, (n - 1) as nat);
        let s = le_bytes(v, n);
        assert(s.drop_first() =~= le_bytes(v / 256, (n - 1) as nat));
    }
}

/// Decoding the big-endian bytes of a value that fits gives the value back.
pub proof fn lemma_be_round_trip(v: nat, n: nat)
    requires
        v < pow256(n),
    ensures
        be_value(be_bytes(v, n)) == v,
{
    lemma_le_bytes_len(v, n);
    let b = be_bytes(v, n);
    assert(Seq::new(b.len(), |i: int| b[b.len() - 1 - i]) =~= le_bytes(v, n));
    lemma_le_round_trip(v, n);
}

pub proof fn lemma_ordered_round_trip(v: nat, n: nat, little: bool)
    requires
        v < pow256(n),
    ensures
        ordered_value(ordered_bytes(v, n, little), little) == v,
{
    if little {
        lemma_le_round_trip(v, n);
    } else {
        lemma_be_round_trip(v, n);
    }
}

/// Appends the `n` low bytes of `v`, least significant first.
pub fn push_le(out: &mut Vec<u8>, v: u128, n: usize)
    requires
        n <= 16,
    ensures
        final(out)@ == old(out)@ + le_bytes(v as nat, n as nat),
{
    let mut x: u128 = v;
    let mut i: usize = 0;
    while i < n
        invariant
            i <= n,
            old(out)@ + le_bytes(v as nat, n as nat) == out@ + le_bytes(x as nat, (n - i) as nat),
        decreases n - i,
    {
        let ghost before = out@;
        out.push((x % 256) as u8);
        proof {
            let k = (n - i) as nat;
            assert(le_bytes(x as nat, k) == seq![(x % 256) as u8] + le_bytes((x / 256) as nat, (k - 1) as nat));
            assert(out@ + le_bytes((x / 256) as nat, (k - 1) as nat) =~= before + le_bytes(x as nat, k));
        }
        x = x / 256;
        i = i + 1;
    }
    assert(out@ + le_bytes(x as nat, 0) =~= out@);
}

/// Appends the `n` low bytes of `v`, most significant first.
pub fn push_be(out: &mut Vec<u8>, v: u128, n: usize)
    requires
        n <= 16,
    ensures
        final(out)@ == old(out)@ + be_bytes(v as nat, n as nat),
{
    let mut tmp: Vec<u8> = Vec::new();
    push_le(&mut tmp, v, n);
    proof {
        lemma_le_bytes_len(v as nat, n as nat);
        assert(tmp@ =~= le_bytes(v as nat, n as nat));
    }
    let mut i: usize = 0;
    while i < n
        invariant
            i <= n,
            tmp@ == le_bytes(v as nat, n as nat),
            tmp@.len() == n,
            out@ == old(out)@ + Seq::new(i as nat, |k: int| tmp@[n - 1 - k]),
        decreases n - i,
    {
        out.push(tmp[n - 1 - i]);
        i = i + 1;
        assert(out@ =~= old(out)@ + Seq::new(i as nat, |k: int| tmp@[n - 1 - k]));
    }
    assert(Seq::new(n as nat, |k: int| tmp@[n - 1 - k]) =~= be_bytes(v as nat, n as nat));
}

/// Reads `n` bytes at `off` as a little-endian number.
pub fn read_le_at(s: &[u8], off: usize, n: usize) -> (r: u128)
    requires
        n <= 16,
        off + n <= s@.len(),
    ensures
        r as nat == le_value(s@.subrange(off as int, off + n)),
{
    let mut r: u128 = 0;
    let mut j: usize = n;
    let len = s.len();
    proof {
        assert(s@.subrange(off + n, off + n).len() == 0);
    }
    while j > 0
        invariant
            j <= n <= 16,
            off + n <= s@.len(),
            len == s@.len(),
            r as nat == le_value(s@.subrange(off + j, off + n)),
        decreases j,
    {
        let ghost tail = s@.subrange(off + j, off + n);
        let ghost whole = s@.subrange(off + j - 1, off + n);
        proof {
            assert(whole.drop_first() =~= tail);
            lemma_le_value_bound(tail);
            lemma_pow256_mono(tail.len(), 15);
            lemma_pow256_facts(15);
        }
        let b = s[off + j - 1];
        r = b as u128 + 256 * r;
        j = j - 1;
    }
    assert(s@.subrange(off as int, off + n) =~= s@.subrange(off + j, off + n));
    r
}

/// Reads `n` bytes at `off` as a big-endian number.
pub fn read_be_at(s: &[u8], off: usize, n: usize) -> (r: u128)
    requires
        n <= 16,
        off + n <= s@.len(),
    ensures
        r as nat == be_value(s@.subrange(off as int, off + n)),
{
    let mut tmp: Vec<u8> = Vec::new();
    let mut i: usize = 0;
    let ghost src = s@.subrange(off as int, off + n);
    let len = s.len();
    while i < n
        invariant
            i <= n,
            n <= 16,
            off + n <= s@.len(),
            len == s@.len(),
            src == s@.subrange(off as int, off + n),
            tmp@ == Seq::new(i as nat, |k: int| src[n - 1 - k]),
        decreases n - i,
    {
        tmp.push(s[off + (n - 1 - i)]);
        i = i + 1;
        assert(tmp@ =~= Seq::new(i as nat, |k: int| src[n - 1 - k]));
    }
    let r = read_le_at(tmp.as_slice(), 0, n);
    assert(tmp@.subrange(0, n as int) =~= Seq::new(src.len(), |k: int| src[src.len() - 1 - k]));
    r
}

/// A single byte is its own encoding in either order.
pub proof fn lemma_single_byte(b: u8, little: bool)
    ensures
        ordered_bytes(b as nat, 1, little) == seq![b],
        ordered_value(seq![b], little) == b as nat,
{
    assert(le_bytes(b as nat, 1) =~= seq![b]) by {
        assert(le_bytes(b as nat / 256, 0) =~= Seq::<u8>::empty());
    }
    assert(be_bytes(b as nat, 1) =~= seq![b]);
    assert(seq![b].drop_first() =~= Seq::<u8>::empty());
    assert(le_value(seq![b]) == b as nat) by {
        reveal_with_fuel(le_value, 2);
    }
    let s = seq![b];
    assert(Seq::new(s.len(), |i: int| s[s.len() - 1 - i]) =~= s);
}

} // verus!
