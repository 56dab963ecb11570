//! What travels over the wire, byte by byte.
//!
//! The words of this module describe single transfers by the numbers they
//! carry. The laws here and in [`crate::download`], [`crate::startup`] and
//! [`crate::inference`] use them to say what a device sees, without recourse to
//! how a driver arrives at it.
use vstd::prelude::*;

use crate::bytes;
use crate::driver;
use crate::error::Error;
use crate::transport::Transfer;

verus! {

// ---------------------------------------------------------------------------
// Words
// ---------------------------------------------------------------------------

/// The number that two bytes spell, the low one first.
pub open spec fn word16(d: Seq<u8>, at: int) -> int {
    d[at] + 0x100 * d[at + 1]
}

/// The number that four bytes spell, the low one first.
pub open spec fn word32(d: Seq<u8>, at: int) -> int {
    d[at] + 0x100 * d[at + 1] + 0x1_0000 * d[at + 2] + 0x100_0000 * d[at + 3]
}

/// The number that eight bytes spell, the low one first.
pub open spec fn word64(d: Seq<u8>, at: int) -> int {
    word32(d, at) + 0x1_0000_0000 * word32(d, at + 4)
}

/// A word below `2^32` read as two's complement.
pub open spec fn two(v: int) -> int {
    if v < 0x8000_0000 {
        v
    } else {
        v - 0x1_0000_0000
    }
}

/// What two bytes of a buffer decode to.
pub(crate) proof fn lemma_word16(d: Seq<u8>, at: int)
    requires
        0 <= at,
        at + 2 <= d.len(),
    ensures
        bytes::le(d.subrange(at, at + 2)) == word16(d, at),
        0 <= word16(d, at) < 0x1_0000,
{
    bytes::lemma_le_2(d.subrange(at, at + 2));
}

/// What four bytes of a buffer decode to.
pub(crate) proof fn lemma_word32(d: Seq<u8>, at: int)
    requires
        0 <= at,
        at + 4 <= d.len(),
    ensures
        bytes::le(d.subrange(at, at + 4)) == word32(d, at),
        0 <= word32(d, at) < 0x1_0000_0000,
{
    bytes::lemma_le_4(d.subrange(at, at + 4));
}

/// What eight bytes of a buffer decode to.
pub(crate) proof fn lemma_word64(d: Seq<u8>, at: int)
    requires
        0 <= at,
        at + 8 <= d.len(),
    ensures
        bytes::le(d.subrange(at, at + 8)) == word64(d, at),
        0 <= word64(d, at) < 0x1_0000_0000_0000_0000,
{
    bytes::lemma_le_8(d.subrange(at, at + 8));
}

/// A word of four bytes that was encoded reads as the number.
pub(crate) proof fn lemma_spelled32(v: nat)
    requires
        v < 0x1_0000_0000,
    ensures
        bytes::le_bytes(v, 4).len() == 4,
        word32(bytes::le_bytes(v, 4), 0) == v,
{
    let d = bytes::le_bytes(v, 4);
    bytes::law_le_bytes_len(v, 4);
    assert(vstd::arithmetic::power::pow(256, 4) == 0x1_0000_0000) by {
        reveal_with_fuel(vstd::arithmetic::power::pow, 5);
    }
    bytes::law_decode_encode(v, 4);
    lemma_word32(d, 0);
    assert(d.subrange(0, 4) =~= d);
}

/// A word of eight bytes that was encoded reads as the number.
pub(crate) proof fn lemma_spelled64(v: nat)
    requires
        v < 0x1_0000_0000_0000_0000,
    ensures
        bytes::le_bytes(v, 8).len() == 8,
        word64(bytes::le_bytes(v, 8), 0) == v,
{
    let d = bytes::le_bytes(v, 8);
    bytes::law_le_bytes_len(v, 8);
    assert(vstd::arithmetic::power::pow(256, 8) == 0x1_0000_0000_0000_0000) by {
        reveal_with_fuel(vstd::arithmetic::power::pow, 9);
    }
    bytes::law_decode_encode(v, 8);
    lemma_word64(d, 0);
    assert(d.subrange(0, 8) =~= d);
}

// ---------------------------------------------------------------------------
// Register transfers
// ---------------------------------------------------------------------------

/// `x` is a vendor read of `width` bytes at address `reg`.
pub open spec fn asks<E>(x: Transfer<E>, reg: int, request: u8, width: int, us: u32) -> bool {
    x matches Transfer::ControlIn { req_type, request: q, value, index, data, timeout_us, .. }
        && req_type == 0xC0 && q == request && value + 0x1_0000 * index == reg && data.len()
        == width && timeout_us == us
}

/// `x` is a 32-bit register read at address `reg` that was answered with `v`.
pub open spec fn got32<E>(x: Transfer<E>, reg: int, v: int, us: u32) -> bool {
    asks(x, reg, 1, 4, us) && (x matches Transfer::ControlIn { data, result, .. } && result == Ok::<
        usize,
        E,
    >(4) && word32(data, 0) == v)
}

/// `x` is a 64-bit register read at address `reg` that was answered with `v`.
pub open spec fn got64<E>(x: Transfer<E>, reg: int, v: int, us: u32) -> bool {
    asks(x, reg, 0, 8, us) && (x matches Transfer::ControlIn { data, result, .. } && result == Ok::<
        usize,
        E,
    >(8) && word64(data, 0) == v)
}

/// `x` is a vendor write of `width` bytes at address `reg`.
pub open spec fn tells<E>(x: Transfer<E>, reg: int, request: u8, width: int, us: u32) -> bool {
    x matches Transfer::ControlOut { req_type, request: q, value, index, data, timeout_us, .. }
        && req_type == 0x40 && q == request && value + 0x1_0000 * index == reg && data.len()
        == width && timeout_us == us
}

/// `x` is a 32-bit register write of `v` at address `reg`.
pub open spec fn sent32<E>(x: Transfer<E>, reg: int, v: int, us: u32) -> bool {
    tells(x, reg, 1, 4, us) && (x matches Transfer::ControlOut { data, .. } && word32(data, 0) == v)
}

/// `x` is a 64-bit register write of `v` at address `reg`.
pub open spec fn sent64<E>(x: Transfer<E>, reg: int, v: int, us: u32) -> bool {
    tells(x, reg, 0, 8, us) && (x matches Transfer::ControlOut { data, .. } && word64(data, 0) == v)
}

/// The transport accepted an outbound transfer.
pub open spec fn accepted<E>(x: Transfer<E>) -> bool {
    match x {
        Transfer::ControlOut { result, .. } => result is Ok,
        Transfer::BulkOut { result, .. } => result is Ok,
        _ => false,
    }
}

/// `x` is a 32-bit register write of `v` at address `reg` that went through.
pub open spec fn put32<E>(x: Transfer<E>, reg: int, v: int, us: u32) -> bool {
    sent32(x, reg, v, us) && accepted(x)
}

/// `x` is a 64-bit register write of `v` at address `reg` that went through.
pub open spec fn put64<E>(x: Transfer<E>, reg: int, v: int, us: u32) -> bool {
    sent64(x, reg, v, us) && accepted(x)
}

/// `e` is what the transfer `x` failed with: the transport's own error, or a
/// count of bytes that is not the one asked for.
pub open spec fn broke<E>(x: Transfer<E>, e: Error<E>) -> bool {
    match x {
        Transfer::ControlIn { data, result, .. } => match result {
            Ok(n) => n != data.len() && e == (Error::<E>::ShortTransfer {
                expected: data.len() as usize,
                actual: n,
            }),
            Err(f) => e == Error::Transport(f),
        },
        Transfer::BulkIn { data, result, .. } => match result {
            Ok(n) => n != data.len() && e == (Error::<E>::ShortTransfer {
                expected: data.len() as usize,
                actual: n,
            }),
            Err(f) => e == Error::Transport(f),
        },
        Transfer::ControlOut { result, .. } => result matches Err(f) && e == Error::Transport(f),
        Transfer::BulkOut { result, .. } => result matches Err(f) && e == Error::Transport(f),
        _ => false,
    }
}

/// Law: a 32-bit register read asks once for the four bytes at the low 32 bits
/// of the address. It yields the word that came back, the low byte first, and
/// fails only where the transfer did.
pub proof fn law_read32_on_the_wire<E>(
    t0: Seq<Transfer<E>>,
    t1: Seq<Transfer<E>>,
    reg: u64,
    us: u32,
    res: Result<u32, Error<E>>,
)
    requires
        driver::did_read32(t0, t1, reg, us, res),
    ensures
        t1.len() == t0.len() + 1,
        forall|i: int| 0 <= i < t0.len() ==> #[trigger] t1[i] == t0[i],
        asks(t1[t0.len() as int], reg as int % 0x1_0000_0000, 1, 4, us),
        match res {
            Ok(v) => got32(t1[t0.len() as int], reg as int % 0x1_0000_0000, v as int, us),
            Err(e) => broke(t1[t0.len() as int], e),
        },
{
    crate::transport::lemma_one_more(t0, t1);
    let x = t1.last();
    let d = x->ControlIn_data;
    assert(d.subrange(0, 4) =~= d);
    lemma_word32(d, 0);
}

/// Law: the same of a 64-bit register read.
pub proof fn law_read64_on_the_wire<E>(
    t0: Seq<Transfer<E>>,
    t1: Seq<Transfer<E>>,
    reg: u64,
    us: u32,
    res: Result<u64, Error<E>>,
)
    requires
        driver::did_read64(t0, t1, reg, us, res),
    ensures
        t1.len() == t0.len() + 1,
        forall|i: int| 0 <= i < t0.len() ==> #[trigger] t1[i] == t0[i],
        asks(t1[t0.len() as int], reg as int % 0x1_0000_0000, 0, 8, us),
        match res {
            Ok(v) => got64(t1[t0.len() as int], reg as int % 0x1_0000_0000, v as int, us),
            Err(e) => broke(t1[t0.len() as int], e),
        },
{
    crate::transport::lemma_one_more(t0, t1);
    let x = t1.last();
    let d = x->ControlIn_data;
    assert(d.subrange(0, 8) =~= d);
    lemma_word64(d, 0);
}

/// Law: a 32-bit register write sends the value once, the low byte first, to
/// the low 32 bits of the address, and fails only where the transfer did.
pub proof fn law_write32_on_the_wire<E>(
    t0: Seq<Transfer<E>>,
    t1: Seq<Transfer<E>>,
    reg: u64,
    value: u32,
    us: u32,
    res: Result<(), Error<E>>,
)
    requires
        driver::did_write32(t0, t1, reg, value, us, res),
    ensures
        t1.len() == t0.len() + 1,
        forall|i: int| 0 <= i < t0.len() ==> #[trigger] t1[i] == t0[i],
        sent32(t1[t0.len() as int], reg as int % 0x1_0000_0000, value as int, us),
        match res {
            Ok(()) => accepted(t1[t0.len() as int]),
            Err(e) => broke(t1[t0.len() as int], e),
        },
{
    crate::transport::lemma_one_more(t0, t1);
    lemma_spelled32(value as nat);
}

/// Law: the same of a 64-bit register write.
pub proof fn law_write64_on_the_wire<E>(
    t0: Seq<Transfer<E>>,
    t1: Seq<Transfer<E>>,
    reg: u64,
    value: u64,
    us: u32,
    res: Result<(), Error<E>>,
)
    requires
        driver::did_write64(t0, t1, reg, value, us, res),
    ensures
        t1.len() == t0.len() + 1,
        forall|i: int| 0 <= i < t0.len() ==> #[trigger] t1[i] == t0[i],
        sent64(t1[t0.len() as int], reg as int % 0x1_0000_0000, value as int, us),
        match res {
            Ok(()) => accepted(t1[t0.len() as int]),
            Err(e) => broke(t1[t0.len() as int], e),
        },
{
    crate::transport::lemma_one_more(t0, t1);
    lemma_spelled64(value as nat);
}

} // verus!
