//! Little-endian integers, byte-string comparison and saturating products.
use vstd::prelude::*;

verus! {

// ---------------------------------------------------------------------------
// Model
// ---------------------------------------------------------------------------

/// The number that `s` spells with its least significant byte first.
#[verifier::opaque]
pub open spec fn le(s: Seq<u8>) -> nat
    decreases s.len(),
{
    if s.len() == 0 {
        0
    } else {
        s[0] as nat + 256 * le(s.drop_first())
    }
}

/// The low `n` bytes of `v`, least significant byte first.
pub open spec fn le_bytes(v: nat, n: nat) -> Seq<u8>
    decreases n,
{
    if n == 0 {
        Seq::empty()
    } else {
        seq![(v % 256) as u8] + le_bytes(v / 256, (n - 1) as nat)
    }
}

/// The value of a 16-bit word read as two's complement.
pub open spec fn signed16(v: nat) -> int {
    if v < 0x8000 {
        v as int
    } else {
        v - 0x1_0000
    }
}

/// The value of a 32-bit word read as two's complement.
pub open spec fn signed32(v: nat) -> int {
    if v < 0x8000_0000 {
        v as int
    } else {
        v - 0x1_0000_0000
    }
}

/// `v` held down to what a `usize` can carry.
pub open spec fn sat(v: int) -> int {
    if v > usize::MAX {
        usize::MAX as int
    } else {
        v
    }
}

/// An optional value has exactly the view that the model gives it.
pub open spec fn agrees<X: View>(r: Option<X>, m: Option<X::V>) -> bool {
    match r {
        Some(x) => m == Some(x@),
        None => m is None,
    }
}

// ---------------------------------------------------------------------------
// Laws
// ---------------------------------------------------------------------------

/// Encoding keeps the requested width.
pub proof fn law_le_bytes_len(v: nat, n: nat)
    ensures
        le_bytes(v, n).len() == n,
    decreases n,
{
    if n > 0 {
        law_le_bytes_len(v / 256, (n - 1) as nat);
    }
}

/// A byte string of length `n` spells a number below `256^n`.
pub proof fn law_le_bound(s: Seq<u8>)
    ensures
        le(s) < vstd::arithmetic::power::pow(256, s.len()),
    decreases s.len(),
{
    reveal(le);
    vstd::arithmetic::power::lemma_pow0(256);
    if s.len() > 0 {
        law_le_bound(s.drop_first());
        reveal(vstd::arithmetic::power::pow);
    }
}

/// Decoding undoes encoding for every number that fits the width.
pub proof fn law_decode_encode(v: nat, n: nat)
    requires
        v < vstd::arithmetic::power::pow(256, n),
    ensures
        le(le_bytes(v, n)) == v,
    decreases n,
{
    reveal(le);
    vstd::arithmetic::power::lemma_pow0(256);
    if n > 0 {
        reveal(vstd::arithmetic::power::pow);
        law_decode_encode(v / 256, (n - 1) as nat);
        law_le_bytes_len(v, n);
        assert(le_bytes(v, n).drop_first() =~= le_bytes(v / 256, (n - 1) as nat));
    }
}

/// Encoding undoes decoding.
pub proof fn law_encode_decode(s: Seq<u8>)
    ensures
        le_bytes(le(s), s.len()) == s,
    decreases s.len(),
{
    reveal(le);
    if s.len() > 0 {
        let rest = s.drop_first();
        law_encode_decode(rest);
        assert((s[0] as nat + 256 * le(rest)) % 256 == s[0] as nat);
        assert((s[0] as nat + 256 * le(rest)) / 256 == le(rest));
        assert(le_bytes(le(s), s.len()) =~= s);
    } else {
        assert(le_bytes(le(s), s.len()) =~= s);
    }
}

// ---------------------------------------------------------------------------
// Unfolded forms
// ---------------------------------------------------------------------------

pub proof fn lemma_le_1(s: Seq<u8>)
    requires
        s.len() == 1,
    ensures
        le(s) == s[0] as nat,
{
    reveal_with_fuel(le, 2);
}

pub proof fn lemma_le_2(s: Seq<u8>)
    requires
        s.len() == 2,
    ensures
        le(s) == s[0] as nat + 0x100 * s[1],
        le(s) < 0x1_0000,
{
    reveal(le);
    lemma_le_1(s.drop_first());
}

pub proof fn lemma_le_4(s: Seq<u8>)
    requires
        s.len() == 4,
    ensures
        le(s) == s[0] as nat + 0x100 * s[1] + 0x1_0000 * s[2] + 0x100_0000 * s[3],
        le(s) < 0x1_0000_0000,
{
    lemma_le_2(s.drop_first().drop_first());
    reveal_with_fuel(le, 3);
}

pub proof fn lemma_le_8(s: Seq<u8>)
    requires
        s.len() == 8,
    ensures
        le(s) == s[0] as nat + 0x100 * s[1] + 0x1_0000 * s[2] + 0x100_0000 * s[3] + 0x1_0000_0000
            * s[4] + 0x100_0000_0000 * s[5] + 0x1_0000_0000_0000 * s[6] + 0x100_0000_0000_0000
            * s[7],
        le(s) < 0x1_0000_0000_0000_0000,
{
    lemma_le_4(s.drop_first().drop_first().drop_first().drop_first());
    reveal_with_fuel(le, 5);
}

// ---------------------------------------------------------------------------
// Decoding and encoding
// ---------------------------------------------------------------------------

/// Decodes two little-endian bytes.
pub fn le_u16(b: [u8; 2]) -> (v: u16)
    ensures
        v as nat == le(b@),
{
    proof {
        lemma_le_2(b@);
    }
    b[0] as u16 + 0x100 * (b[1] as u16)
}

/// Decodes four little-endian bytes.
pub fn le_u32(b: [u8; 4]) -> (v: u32)
    ensures
        v as nat == le(b@),
{
    proof {
        lemma_le_4(b@);
    }
    b[0] as u32 + 0x100 * (b[1] as u32) + 0x1_0000 * (b[2] as u32) + 0x100_0000 * (b[3] as u32)
}

/// Decodes eight little-endian bytes.
pub fn le_u64(b: [u8; 8]) -> (v: u64)
    ensures
        v as nat == le(b@),
{
    proof {
        lemma_le_8(b@);
    }
    b[0] as u64 + 0x100 * (b[1] as u64) + 0x1_0000 * (b[2] as u64) + 0x100_0000 * (b[3] as u64)
        + 0x1_0000_0000 * (b[4] as u64) + 0x100_0000_0000 * (b[5] as u64) + 0x1_0000_0000_0000 * (
    b[6] as u64) + 0x100_0000_0000_0000 * (b[7] as u64)
}

/// Encodes `v` as four little-endian bytes.
pub fn u32_le_bytes(v: u32) -> (b: [u8; 4])
    ensures
        b@ == le_bytes(v as nat, 4),
{
    let b: [u8; 4] = [
        (v % 256) as u8,
        (v / 0x100 % 256) as u8,
        (v / 0x1_0000 % 256) as u8,
        (v / 0x100_0000 % 256) as u8,
    ];
    proof {
        reveal_with_fuel(le_bytes, 5);
        assert(b@ =~= le_bytes(v as nat, 4));
    }
    b
}

/// The four low bytes come first, and the rest of the number follows.
proof fn lemma_le_bytes_4(v: nat, n: nat)
    ensures
        le_bytes(v, n + 4) == seq![
            (v % 256) as u8,
            (v / 0x100 % 256) as u8,
            (v / 0x1_0000 % 256) as u8,
            (v / 0x100_0000 % 256) as u8,
        ] + le_bytes(v / 0x1_0000_0000, n),
{
    let rest = le_bytes(v / 0x1_0000_0000, n);
    assert(le_bytes(v / 0x100_0000, n + 1) == seq![(v / 0x100_0000 % 256) as u8] + rest);
    assert(le_bytes(v / 0x1_0000, n + 2) == seq![(v / 0x1_0000 % 256) as u8] + le_bytes(
        v / 0x100_0000,
        n + 1,
    ));
    assert(le_bytes(v / 0x100, n + 3) == seq![(v / 0x100 % 256) as u8] + le_bytes(
        v / 0x1_0000,
        n + 2,
    ));
    assert(le_bytes(v, n + 4) =~= seq![
        (v % 256) as u8,
        (v / 0x100 % 256) as u8,
        (v / 0x1_0000 % 256) as u8,
        (v / 0x100_0000 % 256) as u8,
    ] + rest);
}

/// Encodes `v` as eight little-endian bytes.
pub fn u64_le_bytes(v: u64) -> (b: [u8; 8])
    ensures
        b@ == le_bytes(v as nat, 8),
{
    let high: u64 = v / 0x1_0000_0000;
    let b: [u8; 8] = [
        (v % 256) as u8,
        (v / 0x100 % 256) as u8,
        (v / 0x1_0000 % 256) as u8,
        (v / 0x100_0000 % 256) as u8,
        (high % 256) as u8,
        (high / 0x100 % 256) as u8,
        (high / 0x1_0000 % 256) as u8,
        (high / 0x100_0000 % 256) as u8,
    ];
    proof {
        lemma_le_bytes_4(v as nat, 4);
        lemma_le_bytes_4(high as nat, 0);
        assert(b@ =~= le_bytes(v as nat, 8));
    }
    b
}

/// Reads a 16-bit word as two's complement.
pub fn word_to_i16(v: u16) -> (r: i16)
    ensures
        r == signed16(v as nat),
{
    if v < 0x8000 {
        v as i16
    } else {
        (v as i32 - 0x1_0000) as i16
    }
}

/// Reads a 32-bit word as two's complement.
pub fn word_to_i32(v: u32) -> (r: i32)
    ensures
        r == signed32(v as nat),
{
    if v < 0x8000_0000 {
        v as i32
    } else {
        (v as i64 - 0x1_0000_0000) as i32
    }
}

/// The length of a slice is a `usize`.
pub proof fn lemma_slice_len(s: &[u8])
    ensures
        s@.len() <= usize::MAX,
{
    assert(s.len() == s@.len());
}

// ---------------------------------------------------------------------------
// Byte strings and products
// ---------------------------------------------------------------------------

/// Whether two byte strings are equal.
pub fn same_bytes(a: &[u8], b: &[u8]) -> (r: bool)
    ensures
        r == (a@ == b@),
{
    if a.len() != b.len() {
        return false;
    }
    let mut i: usize = 0;
    while i < a.len()
        invariant
            i <= a@.len(),
            a@.len() == b@.len(),
            forall|j: int| 0 <= j < i ==> a@[j] == b@[j],
        decreases a@.len() - i,
    {
        if a[i] != b[i] {
            return false;
        }
        i = i + 1;
    }
    assert(a@ =~= b@);
    true
}

/// A byte string that may be absent, empty where it is.
pub fn slice_or_empty<'a>(b: Option<&'a [u8]>) -> (r: &'a [u8])
    ensures
        r@ == match b {
            Some(b) => b@,
            None => Seq::empty(),
        },
{
    match b {
        Some(b) => b,
        None => &[],
    }
}

/// The product, or `usize::MAX` where it does not fit.
pub fn sat_mul(a: usize, b: usize) -> (r: usize)
    ensures
        r == sat(a * b),
{
    match a.checked_mul(b) {
        Some(v) => v,
        None => usize::MAX,
    }
}

/// Saturating the running product changes nothing in the end.
pub proof fn lemma_sat_mul_chain(a: nat, b: nat)
    ensures
        sat(sat(a as int) * b) == sat((a * b) as int),
{
    if a > usize::MAX {
        if b == 0 {
            assert(a * b == 0) by (nonlinear_arith)
                requires
                    b == 0,
            ;
            assert(usize::MAX as int * b == 0) by (nonlinear_arith)
                requires
                    b == 0,
            ;
        } else {
            assert(a * b >= a) by (nonlinear_arith)
                requires
                    b >= 1,
                    a >= 0,
            ;
            assert(usize::MAX as int * b >= usize::MAX) by (nonlinear_arith)
                requires
                    b >= 1,
            ;
        }
    }
}

} // verus!
