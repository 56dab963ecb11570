//! The crate's error type and its messages.
use vstd::prelude::*;
use vstd::string::StringExecFns;

use crate::csr;

verus! {

/// Errors returned by this crate.
#[derive(Debug, Clone, Copy, PartialEq, Eq)]
#[non_exhaustive]
pub enum Error<E> {
    /// The underlying USB transport failed.
    Transport(E),
    /// A transfer moved fewer bytes than were asked for.
    ShortTransfer {
        /// Bytes requested.
        expected: usize,
        /// Bytes actually moved.
        actual: usize,
    },
    /// `omc0_00.chip_id` was not [`crate::csr::CHIP_ID`].
    ///
    /// The device answered on the control pipe but is not a Beagle Edge TPU, or
    /// the firmware download did not take.
    ChipId {
        /// The chip ID actually read.
        found: u64,
    },
    /// The `omc0_00.test_reg0` write/read-back self-test failed: the control
    /// path works in one direction but not the other.
    SelfTest {
        /// The pattern actually read back.
        found: u64,
    },
    /// A bounded register poll never reached its target value. The payload
    /// names the register, so it points at the stage of bring-up that stalled.
    PollTimeout(&'static str),
    /// The device reported a DFU error in a `DFU_GETSTATUS` response.
    DfuStatus {
        /// `bStatus` from the response.
        status: u8,
        /// `bState` from the response.
        state: u8,
    },
    /// Firmware read back after download did not match what was sent.
    ReadbackMismatch {
        /// Offset of the first differing byte.
        offset: usize,
    },
    /// The executable FlatBuffer could not be walked. The payload names the
    /// field that was missing or out of bounds.
    Malformed(&'static str),
    /// A caller-provided buffer was too small for the transfer the executable
    /// asked for.
    BufferTooSmall {
        /// Bytes the executable requires.
        needed: usize,
        /// Bytes the caller provided.
        given: usize,
    },
    /// A DMA hint named a layer that is not in the executable's layer list.
    UnknownLayer,
}

// ---------------------------------------------------------------------------
// Model: messages
// ---------------------------------------------------------------------------

/// The digit for `d` in a base of at most sixteen.
pub open spec fn digit(d: nat) -> char {
    if d == 0 {
        '0'
    } else if d == 1 {
        '1'
    } else if d == 2 {
        '2'
    } else if d == 3 {
        '3'
    } else if d == 4 {
        '4'
    } else if d == 5 {
        '5'
    } else if d == 6 {
        '6'
    } else if d == 7 {
        '7'
    } else if d == 8 {
        '8'
    } else if d == 9 {
        '9'
    } else if d == 10 {
        'a'
    } else if d == 11 {
        'b'
    } else if d == 12 {
        'c'
    } else if d == 13 {
        'd'
    } else if d == 14 {
        'e'
    } else {
        'f'
    }
}

/// `n` written out in `base`, without leading zeros.
pub open spec fn numeral(n: nat, base: nat) -> Seq<char>
    decreases n,
{
    if n < base || base < 2 {
        seq![digit(n)]
    } else {
        proof {
            assert(n / base < n) by (nonlinear_arith)
                requires
                    n >= base,
                    base >= 2,
            ;
        }
        numeral(n / base, base).push(digit(n % base))
    }
}

/// `n` in decimal.
pub open spec fn dec(n: nat) -> Seq<char> {
    numeral(n, 10)
}

/// `n` in hexadecimal, with its prefix.
pub open spec fn hex(n: nat) -> Seq<char> {
    "0x"@ + numeral(n, 16)
}

/// A byte in hexadecimal, always two digits, with its prefix.
pub open spec fn hex_byte(b: u8) -> Seq<char> {
    "0x"@ + seq![digit((b / 16) as nat), digit((b % 16) as nat)]
}

/// The message of an error, given how the transport describes its own.
pub open spec fn message<E>(e: Error<E>, cause: Seq<char>) -> Seq<char> {
    match e {
        Error::Transport(_) => "USB transport error: "@ + cause,
        Error::ShortTransfer { expected, actual } => "short transfer: wanted "@ + dec(
            expected as nat,
        ) + " bytes, got "@ + dec(actual as nat),
        Error::ChipId { found } => "not an Edge TPU: chip ID is "@ + hex(found as nat)
            + ", expected "@ + hex(csr::CHIP_ID as nat),
        Error::SelfTest { found } => "CSR self-test read back "@ + hex(found as nat)
            + ", expected "@ + hex(csr::TEST_REG0_PATTERN as nat),
        Error::PollTimeout(what) => "timed out waiting for "@ + what@,
        Error::DfuStatus { status, state } => "DFU error: bStatus="@ + hex_byte(status)
            + ", bState="@ + hex_byte(state),
        Error::ReadbackMismatch { offset } => "firmware read-back differs at offset "@ + dec(
            offset as nat,
        ),
        Error::Malformed(what) => "malformed executable: "@ + what@,
        Error::BufferTooSmall { needed, given } => "buffer too small: need "@ + dec(needed as nat)
            + " bytes, have "@ + dec(given as nat),
        Error::UnknownLayer => "DMA hint names a layer the executable does not have"@,
    }
}

// ---------------------------------------------------------------------------
// Laws
// ---------------------------------------------------------------------------

/// What a digit is worth: `0` to `9`, then `a` to `f`.
pub open spec fn worth(c: char) -> int {
    if c as int <= 57 {
        c as int - 48
    } else {
        c as int - 87
    }
}

/// The number that digits spell in `base`, the first one counting most.
pub open spec fn spelled_out(s: Seq<char>, base: nat) -> int
    decreases s.len(),
{
    if s.len() == 0 {
        0
    } else {
        spelled_out(s.drop_last(), base) * base + worth(s.last())
    }
}

/// Law: a number that was written out reads back, in decimal as in
/// hexadecimal, and has no leading zeros.
pub proof fn law_numerals_read_back(n: nat, base: nat)
    requires
        base == 10 || base == 16,
    ensures
        spelled_out(numeral(n, base), base) == n,
        numeral(n, base).len() > 0,
        n > 0 ==> worth(numeral(n, base)[0]) > 0,
        n == 0 ==> numeral(n, base).len() == 1,
    decreases n,
{
    reveal_with_fuel(spelled_out, 2);
    if n < base {
        assert(numeral(n, base).drop_last() =~= Seq::<char>::empty());
    } else {
        assert(0 < n / base < n) by (nonlinear_arith)
            requires
                n >= base,
                base >= 2,
        ;
        law_numerals_read_back(n / base, base);
        let head = numeral(n / base, base);
        assert(numeral(n, base).drop_last() =~= head);
        vstd::arithmetic::div_mod::lemma_fundamental_div_mod(n as int, base as int);
        assert(base * (n / base) == (n / base) * base) by (nonlinear_arith);
    }
}

/// Law: a byte is shown as two digits, the high one first.
pub proof fn law_byte_reads_back(b: u8)
    ensures
        hex_byte(b).len() == 4,
        16 * worth(hex_byte(b)[2]) + worth(hex_byte(b)[3]) == b,
        hex_byte(b)[0] == '0',
        hex_byte(b)[1] == 'x',
{
    reveal_strlit("0x");
}

/// Law: what each message says, and where in it the numbers stand.
pub proof fn law_messages<E>(e: Error<E>, cause: Seq<char>)
    ensures
        match e {
            Error::Transport(_) => message(e, cause) == "USB transport error: "@ + cause,
            Error::ShortTransfer { expected, actual } => message(e, cause)
                == "short transfer: wanted "@ + numeral(expected as nat, 10) + " bytes, got "@
                + numeral(actual as nat, 10),
            Error::ChipId { found } => message(e, cause) == "not an Edge TPU: chip ID is "@ + "0x"@
                + numeral(found as nat, 16) + ", expected "@ + "0x"@ + numeral(0x89A, 16),
            Error::SelfTest { found } => message(e, cause) == "CSR self-test read back "@ + "0x"@
                + numeral(found as nat, 16) + ", expected "@ + "0x"@ + numeral(0xAA, 16),
            Error::PollTimeout(what) => message(e, cause) == "timed out waiting for "@ + what@,
            Error::DfuStatus { status, state } => message(e, cause) == "DFU error: bStatus="@
                + hex_byte(status) + ", bState="@ + hex_byte(state),
            Error::ReadbackMismatch { offset } => message(e, cause)
                == "firmware read-back differs at offset "@ + numeral(offset as nat, 10),
            Error::Malformed(what) => message(e, cause) == "malformed executable: "@ + what@,
            Error::BufferTooSmall { needed, given } => message(e, cause)
                == "buffer too small: need "@ + numeral(needed as nat, 10) + " bytes, have "@
                + numeral(given as nat, 10),
            Error::UnknownLayer => message(e, cause)
                == "DMA hint names a layer the executable does not have"@,
        },
{
    match e {
        Error::ChipId { found } => {
            assert(message(e, cause) =~= "not an Edge TPU: chip ID is "@ + "0x"@ + numeral(
                found as nat,
                16,
            ) + ", expected "@ + "0x"@ + numeral(0x89A, 16));
        },
        Error::SelfTest { found } => {
            assert(message(e, cause) =~= "CSR self-test read back "@ + "0x"@ + numeral(
                found as nat,
                16,
            ) + ", expected "@ + "0x"@ + numeral(0xAA, 16));
        },
        _ => {},
    }
}

// ---------------------------------------------------------------------------
// Messages
// ---------------------------------------------------------------------------

/// The text that `Debug` formatting makes of a value.
///
/// Calls `format!` with `{:?}`. What comes out is up to the value's own
/// `Debug`, so nothing is claimed of it.
#[verifier::external_body]
fn debug_text<E: core::fmt::Debug>(e: &E) -> (r: String) {
    format!("{:?}", e)
}

/// `s` is what the `Debug` formatting of `e` came to.
pub closed spec fn debug_shows<E: core::fmt::Debug>(e: E, s: String) -> bool {
    call_ensures(debug_text::<E>, (&e,), s)
}

fn digit_str(d: u64) -> (r: &'static str)
    requires
        d < 16,
    ensures
        r@ == seq![digit(d as nat)],
{
    proof {
        reveal_strlit("0");
        reveal_strlit("1");
        reveal_strlit("2");
        reveal_strlit("3");
        reveal_strlit("4");
        reveal_strlit("5");
        reveal_strlit("6");
        reveal_strlit("7");
        reveal_strlit("8");
        reveal_strlit("9");
        reveal_strlit("a");
        reveal_strlit("b");
        reveal_strlit("c");
        reveal_strlit("d");
        reveal_strlit("e");
        reveal_strlit("f");
    }
    let r = match d {
        0 => "0",
        1 => "1",
        2 => "2",
        3 => "3",
        4 => "4",
        5 => "5",
        6 => "6",
        7 => "7",
        8 => "8",
        9 => "9",
        10 => "a",
        11 => "b",
        12 => "c",
        13 => "d",
        14 => "e",
        _ => "f",
    };
    assert(r@ =~= seq![digit(d as nat)]);
    r
}

/// Appends `n` in `base`.
fn push_numeral(out: &mut String, n: u64, base: u64)
    requires
        2 <= base <= 16,
    ensures
        final(out)@ == old(out)@ + numeral(n as nat, base as nat),
    decreases n,
{
    let ghost before = out@;
    if n < base {
        out.append(digit_str(n));
    } else {
        assert(0 <= n / base < n) by (nonlinear_arith)
            requires
                n >= base,
                base >= 2,
        ;
        push_numeral(out, n / base, base);
        out.append(digit_str(n % base));
        assert(out@ =~= before + numeral(n as nat, base as nat));
    }
}

/// Appends `n` in hexadecimal, with its prefix.
fn push_hex(out: &mut String, n: u64)
    ensures
        final(out)@ == old(out)@ + hex(n as nat),
{
    let ghost before = out@;
    out.append("0x");
    push_numeral(out, n, 16);
    assert(out@ =~= before + hex(n as nat));
}

/// Appends a byte as two hexadecimal digits, with its prefix.
fn push_hex_byte(out: &mut String, b: u8)
    ensures
        final(out)@ == old(out)@ + hex_byte(b),
{
    let ghost before = out@;
    out.append("0x");
    out.append(digit_str((b / 16) as u64));
    out.append(digit_str((b % 16) as u64));
    assert(out@ =~= before + hex_byte(b));
}

impl<E> Error<E> {
    /// The error's message, given how the transport describes its own error.
    #[must_use]
    pub fn message_with(&self, cause: &str) -> (r: String)
        ensures
            r@ == message(*self, cause@),
    {
        let mut out: String = String::new();
        match self {
            Error::Transport(_) => {
                out.append("USB transport error: ");
                out.append(cause);
            },
            Error::ShortTransfer { expected, actual } => {
                out.append("short transfer: wanted ");
                push_numeral(&mut out, *expected as u64, 10);
                out.append(" bytes, got ");
                push_numeral(&mut out, *actual as u64, 10);
            },
            Error::ChipId { found } => {
                out.append("not an Edge TPU: chip ID is ");
                push_hex(&mut out, *found);
                out.append(", expected ");
                push_hex(&mut out, csr::CHIP_ID);
            },
            Error::SelfTest { found } => {
                out.append("CSR self-test read back ");
                push_hex(&mut out, *found);
                out.append(", expected ");
                push_hex(&mut out, csr::TEST_REG0_PATTERN);
            },
            Error::PollTimeout(what) => {
                out.append("timed out waiting for ");
                out.append(what);
            },
            Error::DfuStatus { status, state } => {
                out.append("DFU error: bStatus=");
                push_hex_byte(&mut out, *status);
                out.append(", bState=");
                push_hex_byte(&mut out, *state);
            },
            Error::ReadbackMismatch { offset } => {
                out.append("firmware read-back differs at offset ");
                push_numeral(&mut out, *offset as u64, 10);
            },
            Error::Malformed(what) => {
                out.append("malformed executable: ");
                out.append(what);
            },
            Error::BufferTooSmall { needed, given } => {
                out.append("buffer too small: need ");
                push_numeral(&mut out, *needed as u64, 10);
                out.append(" bytes, have ");
                push_numeral(&mut out, *given as u64, 10);
            },
            Error::UnknownLayer => {
                out.append("DMA hint names a layer the executable does not have");
            },
        }
        assert(out@ =~= message(*self, cause@));
        out
    }
}

impl<E: core::fmt::Debug> Error<E> {
    /// The error's message, with the transport's own error as its `Debug`
    /// shows it.
    #[must_use]
    pub fn message(&self) -> (r: String)
        ensures
            match *self {
                Error::Transport(e) => exists|s: String| #[trigger]
                    debug_shows(e, s) && r@ == message(*self, s@),
                _ => r@ == message(*self, Seq::empty()),
            },
    {
        match self {
            Error::Transport(e) => {
                let s = debug_text(e);
                assert(debug_shows(*e, s));
                self.message_with(s.as_str())
            },
            _ => self.message_with(""),
        }
    }
}

} // verus!
