//! The runtime driver: CSR access, bulk stream framing and completion events.
use vstd::prelude::*;

use crate::bytes;
use crate::csr;
use crate::error::Error;
use crate::transport;
use crate::transport::{Transfer, Transport};

verus! {

/// USB vendor ID of the Edge TPU after DFU.
pub const RUNTIME_VID: u16 = 0x18D1;

/// USB product ID of the Edge TPU after DFU.
pub const RUNTIME_PID: u16 = 0x9302;

/// Endpoint number carrying every host-to-device stream.
///
/// Instructions, parameters and input activations all go out here, each
/// preceded by an 8-byte header. This is the "single ep" the firmware blob is
/// named for.
pub const BULK_OUT_ENDPOINT: u8 = 1;

/// Endpoint number carrying output activations back.
///
/// The same number as [`BULK_OUT_ENDPOINT`]. Endpoint 1 is one bidirectional
/// channel: `0x01` OUT, `0x81` IN.
pub const BULK_IN_ENDPOINT: u8 = 1;

/// Endpoint number of the completion-event pipe.
///
/// A *bulk* IN endpoint, despite the name "event".
pub const EVENT_ENDPOINT: u8 = 2;

/// Endpoint number of the interrupt IN pipe.
///
/// Enumerated but never read: completion is signalled on [`EVENT_ENDPOINT`]
/// instead. Kept so [`Driver::poll_interrupt`] has a default, not because
/// anything is known to arrive here.
pub const INTERRUPT_ENDPOINT: u8 = 3;

/// Size of the framing header prefixed to every outbound stream.
pub const HEADER_SIZE: usize = 8;

/// Size of a completion event.
pub const EVENT_SIZE: usize = 16;

/// Largest bulk transfer handed to the transport at once.
///
/// The caller's slice is passed straight down; any bouncing is the transport's
/// business. Unrelated to `wMaxPacketSize` (512 out, 256 in), which the host
/// controller splits on.
pub const MAX_BULK_CHUNK: usize = 32 * 1024;

/// `bmRequestType` for a CSR read: vendor request, device recipient, inbound.
pub const CSR_READ_REQ_TYPE: u8 = 0xC0;

/// `bmRequestType` for a CSR write: vendor request, device recipient, outbound.
pub const CSR_WRITE_REQ_TYPE: u8 = 0x40;

/// `bRequest` selecting a 64-bit register.
pub const CSR_REQUEST_64: u8 = 0;

/// `bRequest` selecting a 32-bit register.
pub const CSR_REQUEST_32: u8 = 1;

/// Which stream a bulk-OUT payload belongs to; the low nibble of header byte 4.
#[derive(Debug, Clone, Copy, PartialEq, Eq)]
pub enum DescriptorTag {
    /// Instruction bitstream.
    Instructions,
    /// Input activations.
    InputActivations,
    /// Parameters.
    Parameters,
    /// Output activations. Never sent: outputs come back on the IN direction
    /// with no header at all.
    OutputActivations,
    /// Interrupt tag 0. Never sent.
    Interrupt0,
    /// Interrupt tag 1. Never sent.
    Interrupt1,
    /// Interrupt tag 2. Never sent.
    Interrupt2,
    /// Interrupt tag 3. Never sent.
    Interrupt3,
}

impl DescriptorTag {
    /// The tag's number on the wire.
    pub open spec fn number(self) -> u8 {
        match self {
            DescriptorTag::Instructions => 0,
            DescriptorTag::InputActivations => 1,
            DescriptorTag::Parameters => 2,
            DescriptorTag::OutputActivations => 3,
            DescriptorTag::Interrupt0 => 4,
            DescriptorTag::Interrupt1 => 5,
            DescriptorTag::Interrupt2 => 6,
            DescriptorTag::Interrupt3 => 7,
        }
    }

    /// The tag's number on the wire.
    pub(crate) fn wire_number(self) -> (r: u8)
        ensures
            r == self.number(),
    {
        match self {
            DescriptorTag::Instructions => 0,
            DescriptorTag::InputActivations => 1,
            DescriptorTag::Parameters => 2,
            DescriptorTag::OutputActivations => 3,
            DescriptorTag::Interrupt0 => 4,
            DescriptorTag::Interrupt1 => 5,
            DescriptorTag::Interrupt2 => 6,
            DescriptorTag::Interrupt3 => 7,
        }
    }
}

/// A completion event read off [`EVENT_ENDPOINT`].
///
/// The arrival of 16 bytes is the entire completion signal; the fields are
/// informational. Bytes 13-15 are unaccounted for.
#[derive(Debug, Clone, Copy, PartialEq, Eq)]
pub struct Event {
    /// Bytes 0-7: a device address.
    pub address: u64,
    /// Bytes 8-11: a length.
    pub length: u32,
    /// Byte 12, low nibble: a [`DescriptorTag`] value.
    pub tag: u8,
}

impl Default for Event {
    fn default() -> (r: Self)
        ensures
            r == (Event { address: 0, length: 0, tag: 0 }),
    {
        Event { address: 0, length: 0, tag: 0 }
    }
}

/// Timeouts and poll bounds. Every blocking operation in this crate derives its
/// limit from one of these fields.
#[derive(Debug, Clone, Copy, PartialEq, Eq)]
pub struct Timeouts {
    /// Timeout for one CSR control transfer, in microseconds.
    pub control_us: u32,
    /// Timeout for one bulk chunk, in microseconds.
    pub bulk_us: u32,
    /// Timeout for the completion-event read, in microseconds.
    pub event_us: u32,
    /// Maximum reads a bounded register poll may perform before failing with
    /// [`Error::PollTimeout`].
    ///
    /// The default of 1000 is generous against a control transfer costing on
    /// the order of a millisecond.
    pub poll_attempts: u32,
}

impl Default for Timeouts {
    /// 200 ms per transfer, and a 1000-read poll bound.
    fn default() -> (r: Self)
        ensures
            r == (Timeouts {
                control_us: 200_000,
                bulk_us: 200_000,
                event_us: 200_000,
                poll_attempts: 1000,
            }),
    {
        Timeouts { control_us: 200_000, bulk_us: 200_000, event_us: 200_000, poll_attempts: 1000 }
    }
}

// ---------------------------------------------------------------------------
// Model: answers
// ---------------------------------------------------------------------------

/// What an inbound transfer that must be filled completely yields: its bytes,
/// the transport's failure, or a short transfer.
pub open spec fn whole_answer<E>(data: Seq<u8>, result: Result<usize, E>) -> Result<
    Seq<u8>,
    Error<E>,
> {
    match result {
        Ok(n) => if n == data.len() {
            Ok(data)
        } else {
            Err(Error::ShortTransfer { expected: data.len() as usize, actual: n })
        },
        Err(e) => Err(Error::Transport(e)),
    }
}

/// What an inbound transfer yields.
pub open spec fn inbound<E>(x: Transfer<E>) -> Result<Seq<u8>, Error<E>>
    recommends
        x is ControlIn || x is BulkIn,
{
    match x {
        Transfer::ControlIn { data, result, .. } => whole_answer(data, result),
        Transfer::BulkIn { data, result, .. } => whole_answer(data, result),
        _ => Ok(Seq::empty()),
    }
}

/// What an outbound transfer yields.
pub open spec fn outbound<E>(x: Transfer<E>) -> Result<(), Error<E>>
    recommends
        x is ControlOut || x is BulkOut,
{
    match x {
        Transfer::ControlOut { result: Err(e), .. } => Err(Error::Transport(e)),
        Transfer::BulkOut { result: Err(e), .. } => Err(Error::Transport(e)),
        _ => Ok(()),
    }
}

// ---------------------------------------------------------------------------
// Model: CSR access
// ---------------------------------------------------------------------------

/// `x` is the read of `width` bytes of register `reg`. Only the low 32 bits of
/// the address are transmitted: 0-15 as `wValue`, 16-31 as `wIndex`.
pub open spec fn is_csr_read<E>(
    x: Transfer<E>,
    reg: u64,
    request: u8,
    width: int,
    us: u32,
) -> bool {
    x matches Transfer::ControlIn { req_type, request: q, value, index, data, timeout_us, .. }
        && req_type == CSR_READ_REQ_TYPE && q == request && value == reg % 0x1_0000 && index == reg
        / 0x1_0000 % 0x1_0000 && data.len() == width && timeout_us == us
}

/// `x` is the write of `payload` to register `reg`.
pub open spec fn is_csr_write<E>(
    x: Transfer<E>,
    reg: u64,
    request: u8,
    payload: Seq<u8>,
    us: u32,
) -> bool {
    x matches Transfer::ControlOut { req_type, request: q, value, index, data, timeout_us, .. }
        && req_type == CSR_WRITE_REQ_TYPE && q == request && value == reg % 0x1_0000 && index == reg
        / 0x1_0000 % 0x1_0000 && data == payload && timeout_us == us
}

/// The 32-bit register value a CSR read yields.
pub open spec fn read32_result<E>(x: Transfer<E>) -> Result<u32, Error<E>> {
    match inbound(x) {
        Ok(d) => Ok(bytes::le(d) as u32),
        Err(e) => Err(e),
    }
}

/// The 64-bit register value a CSR read yields.
pub open spec fn read64_result<E>(x: Transfer<E>) -> Result<u64, Error<E>> {
    match inbound(x) {
        Ok(d) => Ok(bytes::le(d) as u64),
        Err(e) => Err(e),
    }
}

/// The history went from `t0` to `t1` by one 32-bit register read.
pub open spec fn did_read32<E>(
    t0: Seq<Transfer<E>>,
    t1: Seq<Transfer<E>>,
    reg: u64,
    us: u32,
    res: Result<u32, Error<E>>,
) -> bool {
    &&& transport::one_more(t0, t1)
    &&& is_csr_read(t1.last(), reg, CSR_REQUEST_32, 4, us)
    &&& res == read32_result(t1.last())
}

/// The history went from `t0` to `t1` by one 64-bit register read.
pub open spec fn did_read64<E>(
    t0: Seq<Transfer<E>>,
    t1: Seq<Transfer<E>>,
    reg: u64,
    us: u32,
    res: Result<u64, Error<E>>,
) -> bool {
    &&& transport::one_more(t0, t1)
    &&& is_csr_read(t1.last(), reg, CSR_REQUEST_64, 8, us)
    &&& res == read64_result(t1.last())
}

/// The history went from `t0` to `t1` by one 32-bit register write.
pub open spec fn did_write32<E>(
    t0: Seq<Transfer<E>>,
    t1: Seq<Transfer<E>>,
    reg: u64,
    value: u32,
    us: u32,
    res: Result<(), Error<E>>,
) -> bool {
    &&& transport::one_more(t0, t1)
    &&& is_csr_write(t1.last(), reg, CSR_REQUEST_32, bytes::le_bytes(value as nat, 4), us)
    &&& res == outbound(t1.last())
}

/// The history went from `t0` to `t1` by one 64-bit register write.
pub open spec fn did_write64<E>(
    t0: Seq<Transfer<E>>,
    t1: Seq<Transfer<E>>,
    reg: u64,
    value: u64,
    us: u32,
    res: Result<(), Error<E>>,
) -> bool {
    &&& transport::one_more(t0, t1)
    &&& is_csr_write(t1.last(), reg, CSR_REQUEST_64, bytes::le_bytes(value as nat, 8), us)
    &&& res == outbound(t1.last())
}

/// `raw` with each field set in turn.
pub open spec fn set_fields(raw: u64, fields: Seq<((u32, u32), u64)>) -> u64
    decreases fields.len(),
{
    if fields.len() == 0 {
        raw
    } else {
        let f = fields.last();
        csr::with_field(set_fields(raw, fields.drop_last()), f.0.0, f.0.1, f.1)
    }
}

/// The history went from `t0` to `t1` by a read of `reg` and, where that
/// succeeded, a write of what was read with `fields` set.
pub open spec fn did_modify32<E>(
    t0: Seq<Transfer<E>>,
    t1: Seq<Transfer<E>>,
    reg: u64,
    fields: Seq<((u32, u32), u64)>,
    us: u32,
    res: Result<u32, Error<E>>,
) -> bool {
    let tm = t1.take(t0.len() + 1int);
    match read32_result(tm.last()) {
        Err(e) => res == Err::<u32, Error<E>>(e) && did_read32(t0, t1, reg, us, res),
        Ok(v) => {
            let w = set_fields(v as u64, fields) as u32;
            &&& did_read32(t0, tm, reg, us, Ok(v))
            &&& match res {
                Ok(r) => r == w && did_write32(tm, t1, reg, w, us, Ok(())),
                Err(e) => did_write32(tm, t1, reg, w, us, Err(e)),
            }
        },
    }
}

/// `x` read a register whose `field` did not hold `want`.
pub open spec fn missed32<E>(x: Transfer<E>, field: (u32, u32), want: u64) -> bool {
    read32_result(x) matches Ok(v) && csr::field(v as u64, field.0, field.1) != want
}

/// `x` read a 64-bit register that did not hold `want`.
pub open spec fn missed64<E>(x: Transfer<E>, want: u64) -> bool {
    read64_result(x) matches Ok(v) && v != want
}

/// The history went from `t0` to `t1` by reading `reg` until its `field` held
/// `want`, or a read failed, or the allowed number of reads was used up.
pub open spec fn did_poll32<E>(
    t0: Seq<Transfer<E>>,
    t1: Seq<Transfer<E>>,
    reg: u64,
    what: &'static str,
    field: (u32, u32),
    want: u64,
    lim: Timeouts,
    res: Result<u32, Error<E>>,
) -> bool {
    let n = t1.len() - t0.len();
    &&& transport::grown(t0, t1, n)
    &&& n <= lim.poll_attempts
    &&& forall|i: int|
        t0.len() <= i < t1.len() ==> is_csr_read(
            #[trigger] t1[i],
            reg,
            CSR_REQUEST_32,
            4,
            lim.control_us,
        )
    &&& forall|i: int| t0.len() <= i < t1.len() - 1 ==> missed32(#[trigger] t1[i], field, want)
    &&& match res {
        Ok(v) => n > 0 && read32_result(t1.last()) == Ok::<u32, Error<E>>(v) && csr::field(
            v as u64,
            field.0,
            field.1,
        ) == want,
        Err(e) => {
            ||| n > 0 && read32_result(t1.last()) == Err::<u32, Error<E>>(e)
            ||| {
                &&& n == lim.poll_attempts
                &&& n > 0 ==> missed32(t1.last(), field, want)
                &&& e == Error::<E>::PollTimeout(what)
            }
        },
    }
}

/// The history went from `t0` to `t1` by reading the 64-bit register `reg`
/// until it held `want`, or a read failed, or the allowed number of reads was
/// used up.
pub open spec fn did_poll64<E>(
    t0: Seq<Transfer<E>>,
    t1: Seq<Transfer<E>>,
    reg: u64,
    what: &'static str,
    want: u64,
    lim: Timeouts,
    res: Result<u64, Error<E>>,
) -> bool {
    let n = t1.len() - t0.len();
    &&& transport::grown(t0, t1, n)
    &&& n <= lim.poll_attempts
    &&& forall|i: int|
        t0.len() <= i < t1.len() ==> is_csr_read(
            #[trigger] t1[i],
            reg,
            CSR_REQUEST_64,
            8,
            lim.control_us,
        )
    &&& forall|i: int| t0.len() <= i < t1.len() - 1 ==> missed64(#[trigger] t1[i], want)
    &&& match res {
        Ok(v) => n > 0 && read64_result(t1.last()) == Ok::<u64, Error<E>>(v) && v == want,
        Err(e) => {
            ||| n > 0 && read64_result(t1.last()) == Err::<u64, Error<E>>(e)
            ||| {
                &&& n == lim.poll_attempts
                &&& n > 0 ==> missed64(t1.last(), want)
                &&& e == Error::<E>::PollTimeout(what)
            }
        },
    }
}

/// The temperature in millidegrees that a raw sensor reading stands for.
pub open spec fn millicelsius(data: int) -> int {
    (662 - data) * 250 + 550
}

// ---------------------------------------------------------------------------
// Laws
// ---------------------------------------------------------------------------

/// Law: registers that agree in their low 32 address bits are the same
/// register on the wire.
pub proof fn law_high_address_bits_are_dropped<E>(
    x: Transfer<E>,
    a: u64,
    b: u64,
    request: u8,
    width: int,
    payload: Seq<u8>,
    us: u32,
)
    requires
        a % 0x1_0000_0000 == b % 0x1_0000_0000,
    ensures
        is_csr_read(x, a, request, width, us) == is_csr_read(x, b, request, width, us),
        is_csr_write(x, a, request, payload, us) == is_csr_write(x, b, request, payload, us),
{
}

/// Law: a device that answers a 32-bit read with the bytes of an earlier write
/// gives the value back.
pub proof fn law_register32_round_trip<E>(
    t0: Seq<Transfer<E>>,
    t1: Seq<Transfer<E>>,
    t2: Seq<Transfer<E>>,
    reg: u64,
    value: u32,
    us: u32,
    w: Result<(), Error<E>>,
    r: Result<u32, Error<E>>,
)
    requires
        did_write32(t0, t1, reg, value, us, w),
        did_read32(t1, t2, reg, us, r),
        t2.last() matches Transfer::ControlIn { data, result, .. } && result == Ok::<usize, E>(4)
            && data == t1.last()->ControlOut_data,
    ensures
        r == Ok::<u32, Error<E>>(value),
{
    assert(vstd::arithmetic::power::pow(256, 4) == 0x1_0000_0000) by {
        reveal_with_fuel(vstd::arithmetic::power::pow, 5);
    }
    bytes::law_decode_encode(value as nat, 4);
}

/// Law: a device that answers a 64-bit read with the bytes of an earlier write
/// gives the value back.
pub proof fn law_register64_round_trip<E>(
    t0: Seq<Transfer<E>>,
    t1: Seq<Transfer<E>>,
    t2: Seq<Transfer<E>>,
    reg: u64,
    value: u64,
    us: u32,
    w: Result<(), Error<E>>,
    r: Result<u64, Error<E>>,
)
    requires
        did_write64(t0, t1, reg, value, us, w),
        did_read64(t1, t2, reg, us, r),
        t2.last() matches Transfer::ControlIn { data, result, .. } && result == Ok::<usize, E>(8)
            && data == t1.last()->ControlOut_data,
    ensures
        r == Ok::<u64, Error<E>>(value),
{
    assert(vstd::arithmetic::power::pow(256, 8) == 0x1_0000_0000_0000_0000) by {
        reveal_with_fuel(vstd::arithmetic::power::pow, 9);
    }
    bytes::law_decode_encode(value as nat, 8);
}

/// Law: a poll never reads more often than allowed; one that is given up has
/// used every read it had, and its error names what was waited for.
pub proof fn law_polls_are_bounded<E>(
    t0: Seq<Transfer<E>>,
    t1: Seq<Transfer<E>>,
    reg: u64,
    what: &'static str,
    field: (u32, u32),
    want: u64,
    lim: Timeouts,
    res: Result<u32, Error<E>>,
    wide: Result<u64, Error<E>>,
)
    ensures
        did_poll32(t0, t1, reg, what, field, want, lim, res) ==> {
            &&& t1.len() - t0.len() <= lim.poll_attempts
            &&& res matches Err(Error::PollTimeout(w)) ==> w == what && t1.len() - t0.len()
                == lim.poll_attempts
        },
        did_poll64(t0, t1, reg, what, want, lim, wide) ==> {
            &&& t1.len() - t0.len() <= lim.poll_attempts
            &&& wide matches Err(Error::PollTimeout(w)) ==> w == what && t1.len() - t0.len()
                == lim.poll_attempts
        },
{
}

// ---------------------------------------------------------------------------
// The driver
// ---------------------------------------------------------------------------

/// The Edge TPU runtime driver.
pub struct Driver<T: Transport> {
    transport: T,
    timeouts: Timeouts,
}

impl<T: Transport> Driver<T> {
    /// The transport the driver runs on.
    pub closed spec fn link(&self) -> T {
        self.transport
    }

    /// The timeouts and poll bounds in force.
    pub closed spec fn limits(&self) -> Timeouts {
        self.timeouts
    }

    /// Every transfer the transport has made so far.
    pub open spec fn trace(&self) -> Seq<Transfer<T::Error>> {
        self.link().trace()
    }

    /// Wraps a transport that is already talking to a post-DFU Edge TPU
    /// ([`RUNTIME_VID`]`:`[`RUNTIME_PID`]).
    pub fn new(transport: T, timeouts: Timeouts) -> (r: Self)
        ensures
            r.link() == transport,
            r.limits() == timeouts,
    {
        Driver { transport, timeouts }
    }

    /// Borrows the underlying transport.
    pub fn transport(&mut self) -> (r: &mut T)
        ensures
            *r == old(self).link(),
            final(self).link() == *final(r),
            final(self).limits() == old(self).limits(),
    {
        &mut self.transport
    }

    /// Returns the underlying transport.
    pub fn release(self) -> (r: T)
        ensures
            r == self.link(),
    {
        self.transport
    }

    /// The timeouts and poll bounds in force.
    pub(crate) fn timeouts(&self) -> (r: Timeouts)
        ensures
            r == self.limits(),
    {
        self.timeouts
    }

    // -----------------------------------------------------------------------
    // CSR access
    // -----------------------------------------------------------------------

    /// Reads a 32-bit CSR.
    pub fn csr_read32(&mut self, reg: u64) -> (r: Result<u32, Error<T::Error>>)
        ensures
            final(self).limits() == old(self).limits(),
            did_read32(
                old(self).trace(),
                final(self).trace(),
                reg,
                old(self).limits().control_us,
                r,
            ),
    {
        let mut buf: [u8; 4] = [0u8; 4];
        self.csr_in(reg, CSR_REQUEST_32, &mut buf)?;
        Ok(bytes::le_u32(buf))
    }

    /// Writes a 32-bit CSR.
    pub fn csr_write32(&mut self, reg: u64, value: u32) -> (r: Result<(), Error<T::Error>>)
        ensures
            final(self).limits() == old(self).limits(),
            did_write32(
                old(self).trace(),
                final(self).trace(),
                reg,
                value,
                old(self).limits().control_us,
                r,
            ),
    {
        self.csr_out(reg, CSR_REQUEST_32, &bytes::u32_le_bytes(value))
    }

    /// Reads a 64-bit CSR.
    pub fn csr_read64(&mut self, reg: u64) -> (r: Result<u64, Error<T::Error>>)
        ensures
            final(self).limits() == old(self).limits(),
            did_read64(
                old(self).trace(),
                final(self).trace(),
                reg,
                old(self).limits().control_us,
                r,
            ),
    {
        let mut buf: [u8; 8] = [0u8; 8];
        self.csr_in(reg, CSR_REQUEST_64, &mut buf)?;
        Ok(bytes::le_u64(buf))
    }

    /// Writes a 64-bit CSR.
    pub fn csr_write64(&mut self, reg: u64, value: u64) -> (r: Result<(), Error<T::Error>>)
        ensures
            final(self).limits() == old(self).limits(),
            did_write64(
                old(self).trace(),
                final(self).trace(),
                reg,
                value,
                old(self).limits().control_us,
                r,
            ),
    {
        self.csr_out(reg, CSR_REQUEST_64, &bytes::u64_le_bytes(value))
    }

    /// The address split shared by every CSR transfer.
    ///
    /// Only bits 0-31 are transmitted: bits 0-15 become `wValue`, bits 16-31
    /// become `wIndex`. No offset used here exceeds `0x4c160`.
    fn address_split(reg: u64) -> (r: (u16, u16))
        ensures
            r.0 == reg % 0x1_0000,
            r.1 == reg / 0x1_0000 % 0x1_0000,
    {
        ((reg % 0x1_0000) as u16, (reg / 0x1_0000 % 0x1_0000) as u16)
    }

    fn csr_in(&mut self, reg: u64, request: u8, buf: &mut [u8]) -> (r: Result<(), Error<T::Error>>)
        ensures
            final(self).limits() == old(self).limits(),
            final(buf)@.len() == old(buf)@.len(),
            transport::one_more(old(self).trace(), final(self).trace()),
            is_csr_read(
                final(self).trace().last(),
                reg,
                request,
                old(buf)@.len() as int,
                old(self).limits().control_us,
            ),
            match inbound(final(self).trace().last()) {
                Ok(d) => r is Ok && d == final(buf)@,
                Err(e) => r == Err::<(), Error<T::Error>>(e),
            },
    {
        let (value, index) = Self::address_split(reg);
        let want: usize = buf.len();
        match self.transport.control_in(
            CSR_READ_REQ_TYPE,
            request,
            value,
            index,
            buf,
            self.timeouts.control_us,
        ) {
            Ok(n) => if n != want {
                Err(Error::ShortTransfer { expected: want, actual: n })
            } else {
                Ok(())
            },
            Err(e) => Err(Error::Transport(e)),
        }
    }

    fn csr_out(&mut self, reg: u64, request: u8, data: &[u8]) -> (r: Result<(), Error<T::Error>>)
        ensures
            final(self).limits() == old(self).limits(),
            transport::one_more(old(self).trace(), final(self).trace()),
            is_csr_write(
                final(self).trace().last(),
                reg,
                request,
                data@,
                old(self).limits().control_us,
            ),
            r == outbound(final(self).trace().last()),
    {
        let (value, index) = Self::address_split(reg);
        match self.transport.control_out(
            CSR_WRITE_REQ_TYPE,
            request,
            value,
            index,
            data,
            self.timeouts.control_us,
        ) {
            Ok(()) => Ok(()),
            Err(e) => Err(Error::Transport(e)),
        }
    }

    /// Read-modify-write of bit fields of a 32-bit CSR.
    pub(crate) fn modify32(&mut self, reg: u64, fields: &[((u32, u32), u64)]) -> (r: Result<
        u32,
        Error<T::Error>,
    >)
        ensures
            final(self).limits() == old(self).limits(),
            did_modify32(
                old(self).trace(),
                final(self).trace(),
                reg,
                fields@,
                old(self).limits().control_us,
                r,
            ),
    {
        let ghost t0 = self.trace();
        let v: u32 = match self.csr_read32(reg) {
            Ok(v) => v,
            Err(e) => {
                assert(self.trace().take(t0.len() + 1int) =~= self.trace());
                return Err(e);
            },
        };
        let ghost tm = self.trace();
        let mut raw: u64 = v as u64;
        let mut i: usize = 0;
        assert(fields@.take(0) =~= Seq::empty());
        while i < fields.len()
            invariant
                i <= fields@.len(),
                raw == set_fields(v as u64, fields@.take(i as int)),
            decreases fields@.len() - i,
        {
            assert(fields@.take(i + 1).drop_last() =~= fields@.take(i as int));
            let f = fields[i];
            raw = csr::set_field(raw, f.0.0, f.0.1, f.1);
            i = i + 1;
        }
        assert(fields@.take(fields@.len() as int) =~= fields@);
        let w: u32 = raw as u32;
        let r = self.csr_write32(reg, w);
        assert(self.trace().take(t0.len() + 1int) =~= tm);
        match r {
            Ok(()) => Ok(w),
            Err(e) => Err(e),
        }
    }

    /// Reads `reg` until `field` holds `want`, at most
    /// [`Timeouts::poll_attempts`] times.
    pub(crate) fn poll32(
        &mut self,
        reg: u64,
        what: &'static str,
        field: (u32, u32),
        want: u64,
    ) -> (r: Result<u32, Error<T::Error>>)
        ensures
            final(self).limits() == old(self).limits(),
            did_poll32(
                old(self).trace(),
                final(self).trace(),
                reg,
                what,
                field,
                want,
                old(self).limits(),
                r,
            ),
    {
        let ghost t0 = self.trace();
        let mut i: u32 = 0;
        while i < self.timeouts.poll_attempts
            invariant
                self.limits() == old(self).limits(),
                i <= self.limits().poll_attempts,
                transport::grown(t0, self.trace(), i as int),
                forall|k: int|
                    t0.len() <= k < self.trace().len() ==> {
                        &&& is_csr_read(
                            #[trigger] self.trace()[k],
                            reg,
                            CSR_REQUEST_32,
                            4,
                            self.limits().control_us,
                        )
                        &&& missed32(self.trace()[k], field, want)
                    },
                t0 == old(self).trace(),
            decreases self.limits().poll_attempts - i,
        {
            let ghost tm = self.trace();
            let r = self.csr_read32(reg);
            proof {
                transport::lemma_one_more(tm, self.trace());
            }
            let v: u32 = match r {
                Ok(v) => v,
                Err(e) => {
                    return Err(e);
                },
            };
            if csr::get_field(v as u64, field.0, field.1) == want {
                return Ok(v);
            }
            i = i + 1;
        }
        Err(Error::PollTimeout(what))
    }

    /// Reads the 64-bit `reg` until it holds `want`, at most
    /// [`Timeouts::poll_attempts`] times.
    pub(crate) fn poll64(&mut self, reg: u64, what: &'static str, want: u64) -> (r: Result<
        u64,
        Error<T::Error>,
    >)
        ensures
            final(self).limits() == old(self).limits(),
            did_poll64(
                old(self).trace(),
                final(self).trace(),
                reg,
                what,
                want,
                old(self).limits(),
                r,
            ),
    {
        let ghost t0 = self.trace();
        let mut i: u32 = 0;
        while i < self.timeouts.poll_attempts
            invariant
                self.limits() == old(self).limits(),
                i <= self.limits().poll_attempts,
                transport::grown(t0, self.trace(), i as int),
                forall|k: int|
                    t0.len() <= k < self.trace().len() ==> {
                        &&& is_csr_read(
                            #[trigger] self.trace()[k],
                            reg,
                            CSR_REQUEST_64,
                            8,
                            self.limits().control_us,
                        )
                        &&& missed64(self.trace()[k], want)
                    },
                t0 == old(self).trace(),
            decreases self.limits().poll_attempts - i,
        {
            let ghost tm = self.trace();
            let r = self.csr_read64(reg);
            proof {
                transport::lemma_one_more(tm, self.trace());
            }
            let v: u64 = match r {
                Ok(v) => v,
                Err(e) => {
                    return Err(e);
                },
            };
            if v == want {
                return Ok(v);
            }
            i = i + 1;
        }
        Err(Error::PollTimeout(what))
    }

    /// Reads the on-die temperature in millidegrees Celsius.
    ///
    /// `(662 - omc0_dc.data) * 250 + 550`. Millidegrees so the crate needs no
    /// floating point; divide by 1000 for degrees.
    ///
    /// Only meaningful after bring-up has enabled the sensor.
    pub fn temperature_millicelsius(&mut self) -> (r: Result<i32, Error<T::Error>>)
        ensures
            final(self).limits() == old(self).limits(),
            transport::one_more(old(self).trace(), final(self).trace()),
            is_csr_read(
                final(self).trace().last(),
                csr::OMC0_DC,
                CSR_REQUEST_32,
                4,
                old(self).limits().control_us,
            ),
            match read32_result(final(self).trace().last()) {
                Ok(v) => r matches Ok(m) && m == millicelsius(
                    csr::field(v as u64, csr::OMC0_DC_DATA.0, csr::OMC0_DC_DATA.1) as int,
                ),
                Err(e) => r == Err::<i32, Error<T::Error>>(e),
            },
    {
        let raw: u32 = self.csr_read32(csr::OMC0_DC)?;
        let data: u64 = csr::get_field(raw as u64, csr::OMC0_DC_DATA.0, csr::OMC0_DC_DATA.1);
        proof {
            csr::law_field_bound(raw as u64, 16, 10);
            assert((1u64 << 10u32) == 1024) by (bit_vector);
        }
        Ok((662 - data as i32) * 250 + 550)
    }
}

} // verus!
