//! The USB seam: the [`Transport`] trait and the history it keeps.
use vstd::prelude::*;

verus! {

/// One USB transfer: what was asked of the transport, and what came back.
///
/// For an inbound transfer `data` is the whole buffer as the transport left
/// it, so its length is the number of bytes that were asked for; `result`
/// carries the number it reports to have moved.
#[allow(inconsistent_fields)]
pub enum Transfer<E> {
    /// A device-to-host control transfer.
    ControlIn {
        /// `bmRequestType`.
        req_type: u8,
        /// `bRequest`.
        request: u8,
        /// `wValue`.
        value: u16,
        /// `wIndex`.
        index: u16,
        /// The buffer after the transfer.
        data: Seq<u8>,
        /// The timeout handed to the transport.
        timeout_us: u32,
        /// What the transport answered.
        result: Result<usize, E>,
    },
    /// A host-to-device control transfer.
    ControlOut {
        /// `bmRequestType`.
        req_type: u8,
        /// `bRequest`.
        request: u8,
        /// `wValue`.
        value: u16,
        /// `wIndex`.
        index: u16,
        /// The payload.
        data: Seq<u8>,
        /// The timeout handed to the transport.
        timeout_us: u32,
        /// What the transport answered.
        result: Result<(), E>,
    },
    /// A write to a bulk OUT endpoint.
    BulkOut {
        /// Endpoint number.
        ep: u8,
        /// The payload.
        data: Seq<u8>,
        /// The timeout handed to the transport.
        timeout_us: u32,
        /// What the transport answered.
        result: Result<(), E>,
    },
    /// A read from a bulk IN endpoint.
    BulkIn {
        /// Endpoint number.
        ep: u8,
        /// The buffer after the transfer.
        data: Seq<u8>,
        /// The timeout handed to the transport.
        timeout_us: u32,
        /// What the transport answered.
        result: Result<usize, E>,
    },
    /// A poll of an interrupt IN endpoint.
    InterruptIn {
        /// Endpoint number.
        ep: u8,
        /// The buffer after the transfer.
        data: Seq<u8>,
        /// The timeout handed to the transport.
        timeout_us: u32,
        /// What the transport answered.
        result: Result<Option<usize>, E>,
    },
}

/// The history `t1` is `t0` with exactly one more transfer.
pub open spec fn one_more<E>(t0: Seq<Transfer<E>>, t1: Seq<Transfer<E>>) -> bool {
    t1.len() == t0.len() + 1 && t1.drop_last() =~= t0
}

/// The history `t1` is `t0` with `n` more transfers.
pub open spec fn grown<E>(t0: Seq<Transfer<E>>, t1: Seq<Transfer<E>>, n: int) -> bool {
    t1.len() == t0.len() + n && n >= 0 && t1.take(t0.len() as int) =~= t0
}

/// A longer history agrees with the shorter one it grew from.
pub proof fn lemma_one_more<E>(t0: Seq<Transfer<E>>, t1: Seq<Transfer<E>>)
    requires
        one_more(t0, t1),
    ensures
        forall|k: int| 0 <= k < t0.len() ==> #[trigger] t1[k] == t0[k],
        forall|n: int| 0 <= n <= t0.len() ==> #[trigger] t1.take(n) == t0.take(n),
        t1 == t0.push(t1.last()),
{
    assert forall|k: int| 0 <= k < t0.len() implies #[trigger] t1[k] == t0[k] by {
        assert(t1.drop_last()[k] == t1[k]);
    }
    assert forall|n: int| 0 <= n <= t0.len() implies #[trigger] t1.take(n) == t0.take(n) by {
        assert(t1.take(n) =~= t0.take(n));
    }
    assert(t1 =~= t0.push(t1.last()));
}

/// Growing twice is growing once, by as much as both together.
pub proof fn lemma_grown_twice<E>(
    t0: Seq<Transfer<E>>,
    t1: Seq<Transfer<E>>,
    t2: Seq<Transfer<E>>,
)
    requires
        grown(t0, t1, t1.len() - t0.len()),
        grown(t1, t2, t2.len() - t1.len()),
    ensures
        grown(t0, t2, t2.len() - t0.len()),
        forall|k: int| 0 <= k < t1.len() ==> #[trigger] t2[k] == t1[k],
        forall|k: int| 0 <= k < t0.len() ==> #[trigger] t2[k] == t0[k],
{
    assert forall|k: int| 0 <= k < t1.len() implies #[trigger] t2[k] == t1[k] by {
        assert(t2.take(t1.len() as int)[k] == t2[k]);
    }
    assert forall|k: int| 0 <= k < t0.len() implies #[trigger] t2[k] == t0[k] by {
        assert(t1.take(t0.len() as int)[k] == t1[k]);
    }
    assert(t2.take(t0.len() as int) =~= t0);
}

/// The USB transport this driver runs on.
///
/// Implemented by the host-controller side. The crate reaches the device
/// through these five calls and nothing else, which is what makes it testable
/// on a desktop against a mock.
///
/// All timeouts are in microseconds and are upper bounds on how long the
/// implementation may block. `interrupt_in` returns `Ok(None)` when the timeout
/// expires with no data, because an idle polled endpoint is not an error; every
/// other method treats a timeout as an error.
///
/// `trace` is the history of the calls made so far. It exists in
/// specifications only. Each method appends its own call, with the arguments
/// it was given and the answer it returns, and promises nothing about that
/// answer: in particular not that a transfer succeeds, nor that a reported
/// byte count fits the buffer.
pub trait Transport {
    /// Transport-specific error type.
    type Error: core::fmt::Debug;

    /// Every transfer made so far, oldest first.
    ///
    /// An implementation that is itself verified says here what its history
    /// is. One that is not may leave this out: nothing is concluded from the
    /// body below about a transport in general.
    open spec fn trace(&self) -> Seq<Transfer<Self::Error>> {
        Seq::empty()
    }

    /// Performs a device-to-host control transfer, returning the byte count.
    fn control_in(
        &mut self,
        req_type: u8,
        request: u8,
        value: u16,
        index: u16,
        buf: &mut [u8],
        timeout_us: u32,
    ) -> (r: Result<usize, Self::Error>)
        ensures
            final(buf)@.len() == old(buf)@.len(),
            final(self).trace() == old(self).trace().push(
                Transfer::ControlIn {
                    req_type,
                    request,
                    value,
                    index,
                    data: final(buf)@,
                    timeout_us,
                    result: r,
                },
            ),
    ;

    /// Performs a host-to-device control transfer.
    fn control_out(
        &mut self,
        req_type: u8,
        request: u8,
        value: u16,
        index: u16,
        data: &[u8],
        timeout_us: u32,
    ) -> (r: Result<(), Self::Error>)
        ensures
            final(self).trace() == old(self).trace().push(
                Transfer::ControlOut {
                    req_type,
                    request,
                    value,
                    index,
                    data: data@,
                    timeout_us,
                    result: r,
                },
            ),
    ;

    /// Writes to a bulk OUT endpoint.
    fn bulk_out(&mut self, ep: u8, data: &[u8], timeout_us: u32) -> (r: Result<(), Self::Error>)
        ensures
            final(self).trace() == old(self).trace().push(
                Transfer::BulkOut { ep, data: data@, timeout_us, result: r },
            ),
    ;

    /// Reads from a bulk IN endpoint, returning the byte count.
    fn bulk_in(&mut self, ep: u8, buf: &mut [u8], timeout_us: u32) -> (r: Result<
        usize,
        Self::Error,
    >)
        ensures
            final(buf)@.len() == old(buf)@.len(),
            final(self).trace() == old(self).trace().push(
                Transfer::BulkIn { ep, data: final(buf)@, timeout_us, result: r },
            ),
    ;

    /// Polls an interrupt IN endpoint. `Ok(None)` means the poll timed out.
    fn interrupt_in(&mut self, ep: u8, buf: &mut [u8], timeout_us: u32) -> (r: Result<
        Option<usize>,
        Self::Error,
    >)
        ensures
            final(buf)@.len() == old(buf)@.len(),
            final(self).trace() == old(self).trace().push(
                Transfer::InterruptIn { ep, data: final(buf)@, timeout_us, result: r },
            ),
    ;
}

} // verus!
