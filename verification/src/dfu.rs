//! DFU firmware download.
//!
//! A cold Edge TPU comes up in DFU mode with no functional endpoints and has to
//! be handed its Apex firmware image before it can do anything. DFU 1.1.
//!
//! The firmware blob is not in this crate: it is Google's binary, and the
//! application embeds it and passes the bytes to [`Dfu::download`].
use vstd::prelude::*;

use crate::bytes;
use crate::driver;
use crate::error::Error;
use crate::stream;
use crate::transport;
use crate::transport::{Transfer, Transport};

verus! {

/// USB vendor ID of the Edge TPU in DFU mode.
pub const DFU_VID: u16 = 0x1A6E;

/// USB product ID of the Edge TPU in DFU mode.
pub const DFU_PID: u16 = 0x089A;

/// DFU transfer block size, in bytes.
///
/// The DFU functional descriptor's `wTransferSize` is not read; this is the
/// known-good value. See [`Dfu::with_block_size`].
pub const DFU_BLOCK_SIZE: usize = 256;

/// Default timeout for a DFU control transfer, in microseconds.
///
/// The same 200 ms the runtime driver uses for every control transfer.
pub const DFU_TIMEOUT_US: u32 = 200_000;

/// The `wDetachTimeOut` sent with `DFU_DETACH`, in milliseconds.
pub const DETACH_TIMEOUT_MS: u16 = 1000;

/// `bRequest` of `DFU_DETACH`.
pub const DFU_DETACH: u8 = 0x00;

/// `bRequest` of `DFU_DNLOAD`.
pub const DFU_DNLOAD: u8 = 0x01;

/// `bRequest` of `DFU_UPLOAD`.
pub const DFU_UPLOAD: u8 = 0x02;

/// `bRequest` of `DFU_GETSTATUS`.
pub const DFU_GETSTATUS: u8 = 0x03;

/// `bmRequestType` of a standard request to an interface, outbound.
pub const RECIPIENT_INTERFACE: u8 = 0x01;

/// `bRequest` of the standard `SET_INTERFACE`.
pub const SET_INTERFACE: u8 = 0x0B;

/// `bmRequestType` for the host-to-device DFU class requests.
pub const CLASS_OUT: u8 = 0x21;

/// `bmRequestType` for the device-to-host DFU class requests.
pub const CLASS_IN: u8 = 0xA1;

/// Length of a `DFU_GETSTATUS` response.
pub const STATUS_LEN: usize = 6;

/// A parsed `DFU_GETSTATUS` response.
///
/// Parsed and checked; see [`Dfu::download`].
#[derive(Debug, Clone, Copy, PartialEq, Eq)]
pub struct DfuStatus {
    /// `bStatus`: `0` is `OK`; anything else is an error code.
    pub status: u8,
    /// `bwPollTimeout`: milliseconds the device asks the host to wait before
    /// the next `DFU_GETSTATUS`.
    ///
    /// Not honoured here; surfaced so a caller that wants to can.
    pub poll_timeout_ms: u32,
    /// `bState`: the state the device will be in after this response.
    pub state: u8,
    /// `iString`: index of a status description string.
    pub string_index: u8,
}

/// The status that the six bytes of a response stand for.
pub open spec fn status_of(d: Seq<u8>) -> DfuStatus {
    DfuStatus {
        status: d[0],
        poll_timeout_ms: bytes::le(d.subrange(1, 4)) as u32,
        state: d[4],
        string_index: d[5],
    }
}

impl DfuStatus {
    /// Parses a `DFU_GETSTATUS` response.
    fn parse(buf: &[u8; STATUS_LEN]) -> (r: Self)
        ensures
            r == status_of(buf@),
    {
        let ghost d = buf@.subrange(1, 4);
        proof {
            assert(d.drop_first() =~= buf@.subrange(2, 4));
            assert(d.drop_first().drop_first() =~= buf@.subrange(3, 4));
            bytes::lemma_le_1(buf@.subrange(3, 4));
            assert(bytes::le(d) == buf@[1] + 256 * (buf@[2] + 256 * buf@[3])) by {
                reveal_with_fuel(bytes::le, 4);
            }
        }
        DfuStatus {
            status: buf[0],
            poll_timeout_ms: buf[1] as u32 + 256 * (buf[2] as u32 + 256 * (buf[3] as u32)),
            state: buf[4],
            string_index: buf[5],
        }
    }

    /// Whether `bStatus` is `OK` (`0`).
    #[must_use]
    pub fn is_ok(&self) -> (r: bool)
        ensures
            r == (self.status == 0),
    {
        self.status == 0
    }
}

/// A summary of one completed firmware download, for logging and tests.
#[derive(Debug, Clone, Copy, PartialEq, Eq)]
pub struct DfuReport {
    /// Number of `DFU_DNLOAD` requests carrying data.
    pub download_blocks: u16,
    /// Number of `DFU_UPLOAD` requests issued during read-back verification.
    pub upload_blocks: u16,
    /// Number of `DFU_GETSTATUS` requests issued in total.
    pub status_requests: u32,
    /// Bytes downloaded, which equals the firmware length on success.
    pub bytes: usize,
}

impl Default for DfuReport {
    fn default() -> (r: Self)
        ensures
            r == (DfuReport {
                download_blocks: 0,
                upload_blocks: 0,
                status_requests: 0,
                bytes: 0,
            }),
    {
        DfuReport { download_blocks: 0, upload_blocks: 0, status_requests: 0, bytes: 0 }
    }
}

// ---------------------------------------------------------------------------
// Model: the sequence of requests
// ---------------------------------------------------------------------------

/// One request of a firmware download.
pub enum Request {
    /// `SET_INTERFACE`, alternate setting 0.
    SetInterface,
    /// `DFU_GETSTATUS`.
    GetStatus,
    /// `DFU_DNLOAD` of block `block`.
    Download {
        /// The block's number, counted without wrapping.
        block: int,
        /// Its bytes.
        data: Seq<u8>,
    },
    /// `DFU_UPLOAD` of block `block`.
    Upload {
        /// The block's number, counted without wrapping.
        block: int,
        /// How many bytes are asked for.
        len: int,
    },
    /// `DFU_DETACH`.
    Detach,
}

/// How many blocks an image of `len` bytes makes.
pub open spec fn block_count(len: nat, block_size: int) -> int {
    (len + block_size - 1) / block_size
}

/// Block `j` of an image, empty past its end.
pub open spec fn block_of(image: Seq<u8>, block_size: int, j: int) -> Seq<u8> {
    let from = j * block_size;
    if from >= image.len() {
        Seq::empty()
    } else if from + block_size <= image.len() {
        image.subrange(from, from + block_size)
    } else {
        image.subrange(from, image.len() as int)
    }
}

/// Request `i` of the download of an image.
///
/// Where the image makes `n` blocks: `SET_INTERFACE`; a status request before
/// each of the `n` blocks and before the empty one that ends the download; the
/// `n` blocks read back, each followed by a status request; `DFU_DETACH`.
pub open spec fn request_at(image: Seq<u8>, block_size: int, i: int) -> Request {
    let n = block_count(image.len(), block_size);
    if i == 0 {
        Request::SetInterface
    } else if i <= 2 * n + 2 {
        if i % 2 == 1 {
            Request::GetStatus
        } else {
            let j = i / 2 - 1;
            Request::Download { block: j, data: block_of(image, block_size, j) }
        }
    } else if i < 4 * n + 3 {
        if i % 2 == 1 {
            let j = (i - (2 * n + 3)) / 2;
            Request::Upload { block: j, len: block_of(image, block_size, j).len() as int }
        } else {
            Request::GetStatus
        }
    } else {
        Request::Detach
    }
}

/// `x` is an outbound control transfer with these parameters.
pub open spec fn is_out<E>(
    x: Transfer<E>,
    req_type: u8,
    request: u8,
    value: int,
    interface: u8,
    payload: Seq<u8>,
    us: u32,
) -> bool {
    x matches Transfer::ControlOut {
        req_type: a,
        request: b,
        value: c,
        index,
        data,
        timeout_us,
        ..
    } && a == req_type && b == request && c == value && index == interface && data =~= payload
        && timeout_us == us
}

/// `x` is an inbound class request with these parameters.
pub open spec fn is_in<E>(
    x: Transfer<E>,
    request: u8,
    value: int,
    interface: u8,
    len: int,
    us: u32,
) -> bool {
    x matches Transfer::ControlIn { req_type, request: b, value: c, index, data, timeout_us, .. }
        && req_type == CLASS_IN && b == request && c == value && index == interface && data.len()
        == len && timeout_us == us
}

/// `x` is the transfer that carries request `q`. Block numbers wrap at 16 bits.
pub open spec fn carries<E>(x: Transfer<E>, q: Request, interface: u8, us: u32) -> bool {
    match q {
        Request::SetInterface => is_out(
            x,
            RECIPIENT_INTERFACE,
            SET_INTERFACE,
            0,
            interface,
            Seq::empty(),
            us,
        ),
        Request::GetStatus => is_in(x, DFU_GETSTATUS, 0, interface, STATUS_LEN as int, us),
        Request::Download { block, data } => is_out(
            x,
            CLASS_OUT,
            DFU_DNLOAD,
            block % 0x1_0000,
            interface,
            data,
            us,
        ),
        Request::Upload { block, len } => is_in(
            x,
            DFU_UPLOAD,
            block % 0x1_0000,
            interface,
            len,
            us,
        ),
        Request::Detach => is_out(
            x,
            CLASS_OUT,
            DFU_DETACH,
            DETACH_TIMEOUT_MS as int,
            interface,
            Seq::empty(),
            us,
        ),
    }
}

/// What the answer to a status request comes to.
pub open spec fn status_result<E>(x: Transfer<E>) -> Result<DfuStatus, Error<E>> {
    match driver::inbound(x) {
        Err(e) => Err(e),
        Ok(d) => {
            let s = status_of(d);
            if s.status == 0 {
                Ok(s)
            } else {
                Err(Error::DfuStatus { status: s.status, state: s.state })
            }
        },
    }
}

/// What the answer to request `q` comes to.
pub open spec fn answer<E>(x: Transfer<E>, q: Request) -> Result<(), Error<E>> {
    match q {
        Request::GetStatus => match status_result(x) {
            Ok(_) => Ok(()),
            Err(e) => Err(e),
        },
        Request::Upload { .. } => match driver::inbound(x) {
            Ok(_) => Ok(()),
            Err(e) => Err(e),
        },
        _ => driver::outbound(x),
    }
}

/// How a device is talked to.
pub struct Settings {
    /// Bytes per block, at least one.
    pub block_size: int,
    /// The DFU interface.
    pub interface: u8,
    /// The timeout of every transfer.
    pub us: u32,
}

/// The download of an image.
pub struct Job {
    /// The image.
    pub image: Seq<u8>,
    /// How the device is talked to.
    pub on: Settings,
}

impl Job {
    /// The number of blocks.
    pub open spec fn blocks(self) -> int {
        block_count(self.image.len(), self.on.block_size)
    }

    /// Request `i`.
    pub open spec fn request(self, i: int) -> Request {
        request_at(self.image, self.on.block_size, i)
    }

    /// The history went from `t0` to `t` by the first requests of the
    /// download, in order.
    pub open spec fn asked<E>(self, t0: Seq<Transfer<E>>, t: Seq<Transfer<E>>) -> bool {
        &&& transport::grown(t0, t, t.len() - t0.len())
        &&& forall|i: int|
            t0.len() <= i < t.len() ==> carries(
                #[trigger] t[i],
                self.request(i - t0.len()),
                self.on.interface,
                self.on.us,
            )
    }

    /// The transfers from `t0` up to `to` were all answered well.
    pub open spec fn all_well<E>(self, t0: Seq<Transfer<E>>, t: Seq<Transfer<E>>, to: int) -> bool {
        forall|i: int|
            t0.len() <= i < to ==> answer(#[trigger] t[i], self.request(i - t0.len())) == Ok::<
                (),
                Error<E>,
            >(())
    }

    /// How many blocks have been asked back after `m` requests.
    pub open spec fn uploads(self, m: int) -> int {
        let n = self.blocks();
        if m <= 2 * n + 3 {
            0
        } else if m >= 4 * n + 3 {
            n
        } else {
            (m - (2 * n + 3) + 1) / 2
        }
    }

    /// The read-back buffer after the first `k` uploads, each of which left
    /// its answer in its block's place.
    pub open spec fn read_back<E>(
        self,
        before: Seq<u8>,
        t0: Seq<Transfer<E>>,
        t: Seq<Transfer<E>>,
        k: int,
    ) -> Seq<u8>
        decreases k,
    {
        if k <= 0 {
            before
        } else {
            stream::splice(
                self.read_back(before, t0, t, k - 1),
                (k - 1) * self.on.block_size,
                received(t[t0.len() + 2 * self.blocks() + 3 + 2 * (k - 1)]),
            )
        }
    }

    /// The report of a download that succeeded. Its counters wrap.
    pub open spec fn report(self) -> DfuReport {
        let n = self.blocks();
        DfuReport {
            download_blocks: (n % 0x1_0000) as u16,
            upload_blocks: (n % 0x1_0000) as u16,
            status_requests: ((2 * n + 1) % 0x1_0000_0000) as u32,
            bytes: self.image.len() as usize,
        }
    }

    /// The history went from `t0` to `t1`, and the read-back buffer from
    /// `before` to `after`, by a download: all its requests, up to the first
    /// that was answered badly. The device is detached only where the image
    /// read back is the image sent.
    pub open spec fn did_download<E>(
        self,
        t0: Seq<Transfer<E>>,
        t1: Seq<Transfer<E>>,
        before: Seq<u8>,
        after: Seq<u8>,
        res: Result<DfuReport, Error<E>>,
    ) -> bool {
        let n = self.blocks();
        let m = t1.len() - t0.len();
        if before.len() < self.image.len() {
            &&& t1 == t0
            &&& after == before
            &&& res == Err::<DfuReport, Error<E>>(
                Error::BufferTooSmall {
                    needed: self.image.len() as usize,
                    given: before.len() as usize,
                },
            )
        } else {
            &&& self.asked(t0, t1)
            &&& m <= 4 * n + 4
            &&& self.all_well(t0, t1, t1.len() - 1)
            &&& after =~= self.read_back(before, t0, t1, self.uploads(m))
            &&& m > 4 * n + 3 ==> after.take(self.image.len() as int) =~= self.image
            &&& match res {
                Ok(r) => {
                    &&& m == 4 * n + 4
                    &&& answer(t1.last(), Request::Detach) == Ok::<(), Error<E>>(())
                    &&& r == self.report()
                },
                Err(e) => {
                    ||| m > 0 && answer(t1.last(), self.request(m - 1)) == Err::<(), Error<E>>(e)
                    ||| {
                        &&& m == 4 * n + 3
                        &&& answer(t1.last(), self.request(m - 1)) == Ok::<(), Error<E>>(())
                        &&& e matches Error::ReadbackMismatch { offset }
                        &&& is_first_difference(self.image, after, offset as int)
                    }
                },
            }
        }
    }
}

/// The buffer an inbound control transfer left behind.
pub open spec fn received<E>(x: Transfer<E>) -> Seq<u8> {
    match x {
        Transfer::ControlIn { data, .. } => data,
        _ => Seq::empty(),
    }
}

/// `i` is the first index at which `a` and `b` differ.
pub open spec fn is_first_difference(a: Seq<u8>, b: Seq<u8>, i: int) -> bool {
    &&& 0 <= i < a.len()
    &&& i < b.len()
    &&& a[i] != b[i]
    &&& forall|j: int| 0 <= j < i ==> #[trigger] a[j] == b[j]
}

impl Job {
    /// So far every request was answered well.
    #[verifier::opaque]
    spec fn on_course<E>(self, t0: Seq<Transfer<E>>, t: Seq<Transfer<E>>) -> bool {
        self.asked(t0, t) && self.all_well(t0, t, t.len() as int)
    }

    /// The last request was answered badly, all before it well.
    #[verifier::opaque]
    spec fn off_course<E>(self, t0: Seq<Transfer<E>>, t: Seq<Transfer<E>>, e: Error<E>) -> bool {
        &&& self.asked(t0, t)
        &&& self.all_well(t0, t, t.len() - 1)
        &&& t.len() > t0.len()
        &&& answer(t.last(), self.request(t.len() - t0.len() - 1)) == Err::<(), Error<E>>(e)
    }

    /// One more request.
    proof fn lemma_step<E>(self, t0: Seq<Transfer<E>>, tm: Seq<Transfer<E>>, t: Seq<Transfer<E>>)
        requires
            self.on_course(t0, tm),
            transport::one_more(tm, t),
            carries(
                t.last(),
                self.request(tm.len() - t0.len()),
                self.on.interface,
                self.on.us,
            ),
        ensures
            match answer(t.last(), self.request(tm.len() - t0.len())) {
                Ok(()) => self.on_course(t0, t),
                Err(e) => self.off_course(t0, t, e),
            },
            t.len() == tm.len() + 1,
            forall|i: int| 0 <= i < tm.len() ==> #[trigger] t[i] == tm[i],
    {
        reveal(Job::on_course);
        reveal(Job::off_course);
        transport::lemma_one_more(tm, t);
        assert(t.take(t0.len() as int) =~= t0);
    }

    /// The read-back buffer depends on the uploads alone.
    proof fn lemma_read_back_agrees<E>(
        self,
        before: Seq<u8>,
        t0: Seq<Transfer<E>>,
        t: Seq<Transfer<E>>,
        u: Seq<Transfer<E>>,
        k: int,
    )
        requires
            forall|i: int|
                0 <= i < t0.len() + 2 * self.blocks() + 3 + 2 * k - 1 ==> #[trigger] t[i] == u[i],
            0 <= self.blocks(),
        ensures
            self.read_back(before, t0, t, k) == self.read_back(before, t0, u, k),
        decreases k,
    {
        if k > 0 {
            self.lemma_read_back_agrees(before, t0, t, u, k - 1);
            let i = t0.len() + 2 * self.blocks() + 3 + 2 * (k - 1);
            assert(t[i] == u[i]);
        }
    }
}

/// Where block `j` starts inside the image, it is counted; where it reaches
/// the end, it is the last.
pub(crate) proof fn lemma_block_count(len: nat, block_size: int, j: int)
    requires
        block_size > 0,
        0 <= j,
    ensures
        0 <= block_count(len, block_size),
        j * block_size < len ==> j + 1 <= block_count(len, block_size),
        j * block_size < len <= (j + 1) * block_size ==> j + 1 == block_count(len, block_size),
        len == 0 ==> block_count(len, block_size) == 0,
        (j + 1) * block_size == j * block_size + block_size,
        0 <= j * block_size,
{
    let n = block_count(len, block_size);
    let a = len + block_size - 1;
    vstd::arithmetic::div_mod::lemma_fundamental_div_mod(a, block_size);
    assert((j + 1) * block_size == j * block_size + block_size) by (nonlinear_arith);
    assert(0 <= j * block_size) by (nonlinear_arith)
        requires
            0 <= j,
            0 < block_size,
    ;
    assert(block_size * n <= a < block_size * n + block_size);
    assert(0 <= n) by (nonlinear_arith)
        requires
            block_size > 0,
            0 <= a < block_size * n + block_size,
    ;
    if j * block_size < len {
        assert(j < n) by (nonlinear_arith)
            requires
                block_size > 0,
                a < block_size * n + block_size,
                j * block_size <= a - block_size,
        ;
        if len <= (j + 1) * block_size {
            assert(n <= j + 1) by (nonlinear_arith)
                requires
                    block_size > 0,
                    block_size * n <= a,
                    a < (j + 1) * block_size + block_size,
            ;
        }
    }
    if len == 0 {
        assert(n <= 0) by (nonlinear_arith)
            requires
                block_size > 0,
                block_size * n <= block_size - 1,
        ;
    }
}

// ---------------------------------------------------------------------------
// Laws
// ---------------------------------------------------------------------------

/// The interface and the timeout of a control transfer.
pub open spec fn addressing<E>(x: Transfer<E>) -> Option<(u16, u32)> {
    match x {
        Transfer::ControlIn { index, timeout_us, .. } => Some((index, timeout_us)),
        Transfer::ControlOut { index, timeout_us, .. } => Some((index, timeout_us)),
        _ => None,
    }
}

/// Law: every transfer of a download is a control transfer that carries the
/// DFU interface as `wIndex` and the configured timeout.
pub proof fn law_every_request_is_addressed<E>(
    job: Job,
    t0: Seq<Transfer<E>>,
    t1: Seq<Transfer<E>>,
    before: Seq<u8>,
    after: Seq<u8>,
    res: Result<DfuReport, Error<E>>,
)
    requires
        job.did_download(t0, t1, before, after, res),
    ensures
        forall|i: int|
            t0.len() <= i < t1.len() ==> addressing(#[trigger] t1[i]) == Some(
                (job.on.interface as u16, job.on.us),
            ),
{
    assert forall|i: int| t0.len() <= i < t1.len() implies addressing(#[trigger] t1[i]) == Some(
        (job.on.interface as u16, job.on.us),
    ) by {
        if before.len() >= job.image.len() {
            assert(carries(t1[i], job.request(i - t0.len()), job.on.interface, job.on.us));
        }
    }
}

/// The payloads of the `DFU_DNLOAD` requests from `from` up to `to`, end to
/// end.
pub open spec fn downloaded<E>(t: Seq<Transfer<E>>, from: int, to: int) -> Seq<u8>
    decreases to - from,
{
    if to <= from {
        Seq::empty()
    } else {
        downloaded(t, from, to - 1) + match t[to - 1] {
            Transfer::ControlOut { req_type, request, data, .. } => if req_type == CLASS_OUT
                && request == DFU_DNLOAD {
                data
            } else {
                Seq::empty()
            },
            _ => Seq::empty(),
        }
    }
}

/// The number of `DFU_GETSTATUS` requests from `from` up to `to`.
pub open spec fn status_count<E>(t: Seq<Transfer<E>>, from: int, to: int) -> int
    decreases to - from,
{
    if to <= from {
        0
    } else {
        status_count(t, from, to - 1) + match t[to - 1] {
            Transfer::ControlIn { request, .. } => if request == DFU_GETSTATUS {
                1int
            } else {
                0int
            },
            _ => 0int,
        }
    }
}

/// The first `k` blocks of an image, end to end.
spec fn front(image: Seq<u8>, block_size: int, k: int) -> Seq<u8> {
    if k * block_size <= image.len() {
        image.take(k * block_size)
    } else {
        image
    }
}

proof fn lemma_front_grows(image: Seq<u8>, block_size: int, k: int)
    requires
        block_size > 0,
        0 <= k,
    ensures
        front(image, block_size, k + 1) == front(image, block_size, k) + block_of(
            image,
            block_size,
            k,
        ),
{
    lemma_block_count(image.len(), block_size, k);
    assert(front(image, block_size, k + 1) =~= front(image, block_size, k) + block_of(
        image,
        block_size,
        k,
    ));
}

/// What the first `i` requests come to: how many blocks they have sent and how
/// often they have asked for the status.
proof fn lemma_tally<E>(job: Job, t0: Seq<Transfer<E>>, t: Seq<Transfer<E>>, i: int)
    requires
        job.on.block_size > 0,
        job.asked(t0, t),
        0 <= i <= t.len() - t0.len(),
        t.len() - t0.len() <= 4 * job.blocks() + 4,
    ensures
        downloaded(t, t0.len() as int, t0.len() + i) == front(
            job.image,
            job.on.block_size,
            if i == 0 {
                0
            } else if i <= 2 * job.blocks() + 3 {
                (i - 1) / 2
            } else {
                job.blocks() + 1
            },
        ),
        status_count(t, t0.len() as int, t0.len() + i) == if i <= 2 * job.blocks() + 3 {
            i / 2
        } else if i <= 4 * job.blocks() + 3 {
            job.blocks() + 1 + (i - (2 * job.blocks() + 3)) / 2
        } else {
            2 * job.blocks() + 1
        },
    decreases i,
{
    let from = t0.len() as int;
    let n = job.blocks();
    let bs = job.on.block_size;
    lemma_block_count(job.image.len(), bs, 0);
    if i > 0 {
        lemma_tally(job, t0, t, i - 1);
        let x = t[from + i - 1];
        assert(carries(x, job.request(i - 1), job.on.interface, job.on.us));
        let sent = downloaded(t, from, from + i - 1);
        assert(sent + Seq::<u8>::empty() =~= sent);
        if 0 < i - 1 <= 2 * n + 2 && (i - 1) % 2 == 0 {
            let j = (i - 1) / 2 - 1;
            lemma_front_grows(job.image, bs, j);
            assert(downloaded(t, from, from + i) =~= sent + block_of(job.image, bs, j));
        } else {
            assert(downloaded(t, from, from + i) =~= sent);
        }
    } else {
        assert(0 * bs == 0);
        assert(downloaded(t, from, from) =~= front(job.image, bs, 0));
    }
}

/// Law: the blocks of a successful download, end to end, are the image; the
/// device's answers to the read-back are too; and an image of `n` blocks takes
/// `2n + 1` status requests.
pub proof fn law_download_delivers_the_image<E>(
    job: Job,
    t0: Seq<Transfer<E>>,
    t1: Seq<Transfer<E>>,
    before: Seq<u8>,
    after: Seq<u8>,
    report: DfuReport,
)
    requires
        job.on.block_size > 0,
        job.did_download(t0, t1, before, after, Ok(report)),
    ensures
        downloaded(t1, t0.len() as int, t1.len() as int) == job.image,
        after.take(job.image.len() as int) == job.image,
        status_count(t1, t0.len() as int, t1.len() as int) == 2 * job.blocks() + 1,
        report.bytes == job.image.len() as usize,
{
    let n = job.blocks();
    let bs = job.on.block_size;
    lemma_block_count(job.image.len(), bs, 0);
    lemma_tally(job, t0, t1, 4 * n + 4);
    lemma_block_count(job.image.len(), bs, n);
    assert((n + 1) * bs > job.image.len());
}

/// Law: the device is detached only where the image read back is the image
/// sent.
pub proof fn law_detach_means_verified<E>(
    job: Job,
    t0: Seq<Transfer<E>>,
    t1: Seq<Transfer<E>>,
    before: Seq<u8>,
    after: Seq<u8>,
    res: Result<DfuReport, Error<E>>,
    i: int,
)
    requires
        job.on.block_size > 0,
        job.did_download(t0, t1, before, after, res),
        t0.len() <= i < t1.len(),
        t1[i] matches Transfer::ControlOut { req_type, request, .. } && req_type == CLASS_OUT
            && request == DFU_DETACH,
    ensures
        after.take(job.image.len() as int) == job.image,
{
    let m = i - t0.len();
    lemma_block_count(job.image.len(), job.on.block_size, 0);
    assert(carries(t1[i], job.request(m), job.on.interface, job.on.us));
    assert(m >= 4 * job.blocks() + 3);
}

// ---------------------------------------------------------------------------
// The DFU driver
// ---------------------------------------------------------------------------

/// Drives an Edge TPU in DFU mode through a firmware download.
///
/// Borrows the transport rather than consuming it: the same USB stack usually
/// has to keep talking to the device after it re-enumerates, and the driver
/// object that does that is built separately.
pub struct Dfu<'t, T: Transport> {
    transport: &'t mut T,
    interface: u8,
    block_size: usize,
    timeout_us: u32,
}

impl<'t, T: Transport> Dfu<'t, T> {
    /// The borrowed transport.
    pub closed spec fn link(&self) -> &'t mut T {
        self.transport
    }

    /// Every transfer the transport has made so far.
    pub open spec fn trace(&self) -> Seq<Transfer<T::Error>> {
        (*self.link()).trace()
    }

    /// How the device is talked to.
    pub closed spec fn settings(&self) -> Settings {
        Settings {
            block_size: if self.block_size == 0 {
                1
            } else {
                self.block_size as int
            },
            interface: self.interface,
            us: self.timeout_us,
        }
    }

    /// Law: whatever block size was asked for, a block holds at least one byte.
    pub proof fn law_block_size_is_positive(&self)
        ensures
            self.settings().block_size >= 1,
    {
    }

    /// Wraps a transport that is already talking to the DFU interface.
    ///
    /// `interface` is the `bInterfaceNumber` of the DFU interface; it becomes
    /// `wIndex` on every class request. Finding it means walking the
    /// configuration for class `0xFE` subclass `0x01`, which is the USB
    /// host stack's job, so it is passed in.
    pub fn new(transport: &'t mut T, interface: u8) -> (r: Self)
        ensures
            *r.link() == *old(transport),
            *final(r.link()) == *final(transport),
            r.settings() == (Settings {
                block_size: DFU_BLOCK_SIZE as int,
                interface,
                us: DFU_TIMEOUT_US,
            }),
            r.settings().block_size == 256,
            r.settings().us == 200_000,
    {
        Dfu { transport, interface, block_size: DFU_BLOCK_SIZE, timeout_us: DFU_TIMEOUT_US }
    }

    /// Overrides the transfer block size.
    ///
    /// For a caller that does read `wTransferSize` out of the DFU functional
    /// descriptor. The default [`DFU_BLOCK_SIZE`] is the only value known to
    /// work on this part. A size of zero counts as one.
    #[must_use]
    pub fn with_block_size(self, block_size: usize) -> (r: Self)
        ensures
            *r.link() == *self.link(),
            *final(r.link()) == *final(self.link()),
            r.settings() == (Settings {
                block_size: if block_size == 0 {
                    1
                } else {
                    block_size as int
                },
                ..self.settings()
            }),
    {
        Dfu {
            transport: self.transport,
            interface: self.interface,
            block_size,
            timeout_us: self.timeout_us,
        }
    }

    /// Overrides the per-transfer timeout, in microseconds.
    #[must_use]
    pub fn with_timeout_us(self, timeout_us: u32) -> (r: Self)
        ensures
            *r.link() == *self.link(),
            *final(r.link()) == *final(self.link()),
            r.settings() == (Settings { us: timeout_us, ..self.settings() }),
    {
        Dfu {
            transport: self.transport,
            interface: self.interface,
            block_size: self.block_size,
            timeout_us,
        }
    }

    /// Downloads `firmware`, verifies it by read-back, and detaches.
    ///
    /// In order:
    ///
    /// 1. `SET_INTERFACE` alternate setting 0.
    /// 2. `DFU_GETSTATUS`, then a `DFU_DNLOAD` of up to [`DFU_BLOCK_SIZE`]
    ///    bytes, repeated until the whole image has been sent. The status
    ///    request comes *before* each block, so an `n`-block image
    ///    produces `n + 1` of them.
    /// 3. A zero-length `DFU_DNLOAD` to terminate the download.
    /// 4. The whole image read back with `DFU_UPLOAD` and compared byte
    ///    for byte, not by checksum. Here the status request comes
    ///    *after* each block, so `n` blocks produce `n`.
    /// 5. `DFU_DETACH`.
    ///
    /// The caller then resets the bus and re-enumerates the device, which
    /// reappears as [`crate::RUNTIME_VID`]`:`[`crate::RUNTIME_PID`].
    ///
    /// `readback` is scratch space for step 4 and must be at least
    /// `firmware.len()` bytes.
    ///
    /// A `DFU_GETSTATUS` reporting a non-zero `bStatus` fails with
    /// [`Error::DfuStatus`].
    pub fn download(&mut self, firmware: &[u8], readback: &mut [u8]) -> (r: Result<
        DfuReport,
        Error<T::Error>,
    >)
        ensures
            *final(final(self).link()) == *final(old(self).link()),
            final(self).settings() == old(self).settings(),
            final(readback)@.len() == old(readback)@.len(),
            (Job { image: firmware@, on: old(self).settings() }).did_download(
                old(self).trace(),
                final(self).trace(),
                old(readback)@,
                final(readback)@,
                r,
            ),
    {
        if readback.len() < firmware.len() {
            return Err(
                Error::BufferTooSmall { needed: firmware.len(), given: readback.len() },
            );
        }
        let ghost job = Job { image: firmware@, on: self.settings() };
        let ghost t0 = self.trace();
        let ghost before = readback@;
        let mut report = DfuReport::default();
        proof {
            reveal(Job::on_course);
            reveal(Job::off_course);
            lemma_block_count(firmware@.len(), job.on.block_size, 0);
            assert(t0.take(t0.len() as int) =~= t0);
            assert(job.on_course(t0, t0));
        }

        let r = self.set_interface(0);
        proof {
            job.lemma_step(t0, t0, self.trace());
        }
        match r {
            Ok(()) => {},
            Err(e) => {
                return Err(e);
            },
        }
        match self.send_image(firmware, &mut report, Ghost(t0)) {
            Ok(()) => {},
            Err(e) => {
                return Err(e);
            },
        }
        report.bytes = firmware.len();
        match self.read_image(firmware, readback, &mut report, Ghost(t0)) {
            Ok(()) => {},
            Err(e) => {
                return Err(e);
            },
        }
        proof {
            assert(firmware.len() == firmware@.len());
        }
        if let Some(offset) = first_difference(firmware, readback) {
            return Err(Error::ReadbackMismatch { offset });
        }
        let ghost tm = self.trace();
        let r = self.detach(DETACH_TIMEOUT_MS);
        proof {
            job.lemma_step(t0, tm, self.trace());
            job.lemma_read_back_agrees(before, t0, self.trace(), tm, job.blocks());
            assert(readback@.take(firmware@.len() as int) =~= firmware@);
        }
        match r {
            Ok(()) => Ok(report),
            Err(e) => Err(e),
        }
    }

    /// Sends the image, block by block, and the empty block that ends it.
    fn send_image(
        &mut self,
        firmware: &[u8],
        report: &mut DfuReport,
        Ghost(t0): Ghost<Seq<Transfer<T::Error>>>,
    ) -> (r: Result<(), Error<T::Error>>)
        requires
            (Job { image: firmware@, on: old(self).settings() }).on_course(t0, old(self).trace()),
            old(self).trace().len() == t0.len() + 1,
            *old(report) == (DfuReport {
                download_blocks: 0,
                upload_blocks: 0,
                status_requests: 0,
                bytes: 0,
            }),
        ensures
            *final(final(self).link()) == *final(old(self).link()),
            final(self).settings() == old(self).settings(),
            ({
                let job = Job { image: firmware@, on: old(self).settings() };
                let n = job.blocks();
                match r {
                    Ok(()) => {
                        &&& job.on_course(t0, final(self).trace())
                        &&& final(self).trace().len() == t0.len() + 2 * n + 3
                        &&& *final(report) == (DfuReport {
                            download_blocks: (n % 0x1_0000) as u16,
                            upload_blocks: 0,
                            status_requests: ((n + 1) % 0x1_0000_0000) as u32,
                            bytes: 0,
                        })
                    },
                    Err(e) => {
                        &&& job.off_course(t0, final(self).trace(), e)
                        &&& final(self).trace().len() <= t0.len() + 2 * n + 3
                    },
                }
            }),
    {
        let ghost job = Job { image: firmware@, on: self.settings() };
        let ghost n = job.blocks();
        let size: usize = self.block_size();
        let total: usize = firmware.len();
        let mut block: u16 = 0;
        let mut sent: usize = 0;
        let ghost mut j: int = 0;
        proof {
            lemma_block_count(total as nat, size as int, 0);
        }
        while sent < total
            invariant
                total == firmware@.len(),
                job == (Job { image: firmware@, on: old(self).settings() }),
                n == job.blocks(),
                size == job.on.block_size,
                size > 0,
                self.settings() == old(self).settings(),
                *final(self.link()) == *final(old(self).link()),
                0 <= j <= n,
                sent <= total,
                sent < total ==> sent == j * size,
                sent == total ==> j == n,
                block == j % 0x1_0000,
                job.on_course(t0, self.trace()),
                self.trace().len() == t0.len() + 1 + 2 * j,
                *report == (DfuReport {
                    download_blocks: (j % 0x1_0000) as u16,
                    upload_blocks: 0,
                    status_requests: (j % 0x1_0000_0000) as u32,
                    bytes: 0,
                }),
            decreases total - sent,
        {
            proof {
                lemma_block_count(total as nat, size as int, j);
            }
            assert((1 + 2 * j) % 2 == 1);
            self.ask_status(report, Ghost(job), Ghost(t0))?;
            let len: usize = if size <= total - sent {
                size
            } else {
                total - sent
            };
            let piece = vstd::slice::slice_subrange(firmware, sent, sent + len);
            proof {
                assert((2 + 2 * j) % 2 == 0 && (2 + 2 * j) / 2 - 1 == j);
                assert(piece@ =~= block_of(firmware@, size as int, j));
            }
            self.send_block(block, piece, Ghost(job), Ghost(t0), Ghost(j))?;
            block = block.wrapping_add(1);
            sent = sent + len;
            report.download_blocks = report.download_blocks.wrapping_add(1);
            proof {
                j = j + 1;
            }
        }
        assert((1 + 2 * n) % 2 == 1);
        self.ask_status(report, Ghost(job), Ghost(t0))?;
        let end: &[u8] = &[];
        proof {
            assert((2 + 2 * n) % 2 == 0 && (2 + 2 * n) / 2 - 1 == n);
            if n * size < total {
                lemma_block_count(total as nat, size as int, n);
            }
            assert(end@ =~= block_of(firmware@, size as int, n));
        }
        self.send_block(block, end, Ghost(job), Ghost(t0), Ghost(n))
    }

    /// Asks for the status, the next request of the download.
    fn ask_status(
        &mut self,
        report: &mut DfuReport,
        Ghost(job): Ghost<Job>,
        Ghost(t0): Ghost<Seq<Transfer<T::Error>>>,
    ) -> (r: Result<(), Error<T::Error>>)
        requires
            job.on == old(self).settings(),
            job.on_course(t0, old(self).trace()),
            job.request(old(self).trace().len() - t0.len()) is GetStatus,
        ensures
            *final(final(self).link()) == *final(old(self).link()),
            final(self).settings() == old(self).settings(),
            transport::one_more(old(self).trace(), final(self).trace()),
            match r {
                Ok(()) => {
                    &&& job.on_course(t0, final(self).trace())
                    &&& *final(report) == (DfuReport {
                        status_requests: ((old(report).status_requests + 1)
                            % 0x1_0000_0000) as u32,
                        ..*old(report)
                    })
                },
                Err(e) => job.off_course(t0, final(self).trace(), e),
            },
    {
        let ghost ta = self.trace();
        let r = self.get_status(report);
        proof {
            job.lemma_step(t0, ta, self.trace());
        }
        match r {
            Ok(_) => Ok(()),
            Err(e) => Err(e),
        }
    }

    /// Sends block `j`, the next request of the download.
    fn send_block(
        &mut self,
        block: u16,
        data: &[u8],
        Ghost(job): Ghost<Job>,
        Ghost(t0): Ghost<Seq<Transfer<T::Error>>>,
        Ghost(j): Ghost<int>,
    ) -> (r: Result<(), Error<T::Error>>)
        requires
            job.on == old(self).settings(),
            job.on_course(t0, old(self).trace()),
            job.request(old(self).trace().len() - t0.len()) == (Request::Download {
                block: j,
                data: data@,
            }),
            block == j % 0x1_0000,
        ensures
            *final(final(self).link()) == *final(old(self).link()),
            final(self).settings() == old(self).settings(),
            transport::one_more(old(self).trace(), final(self).trace()),
            match r {
                Ok(()) => job.on_course(t0, final(self).trace()),
                Err(e) => job.off_course(t0, final(self).trace(), e),
            },
    {
        let ghost ta = self.trace();
        let r = self.dnload(block, data);
        proof {
            job.lemma_step(t0, ta, self.trace());
        }
        r
    }

    /// Reads the image back, block by block.
    fn read_image(
        &mut self,
        firmware: &[u8],
        readback: &mut [u8],
        report: &mut DfuReport,
        Ghost(t0): Ghost<Seq<Transfer<T::Error>>>,
    ) -> (r: Result<(), Error<T::Error>>)
        requires
            ({
                let job = Job { image: firmware@, on: old(self).settings() };
                let n = job.blocks();
                &&& job.on_course(t0, old(self).trace())
                &&& old(self).trace().len() == t0.len() + 2 * n + 3
                &&& *old(report) == (DfuReport {
                    download_blocks: (n % 0x1_0000) as u16,
                    upload_blocks: 0,
                    status_requests: ((n + 1) % 0x1_0000_0000) as u32,
                    bytes: firmware@.len() as usize,
                })
            }),
            firmware@.len() <= old(readback)@.len(),
        ensures
            *final(final(self).link()) == *final(old(self).link()),
            final(self).settings() == old(self).settings(),
            final(readback)@.len() == old(readback)@.len(),
            ({
                let job = Job { image: firmware@, on: old(self).settings() };
                let n = job.blocks();
                let m = final(self).trace().len() - t0.len();
                &&& 2 * n + 3 <= m
                &&& final(readback)@ == job.read_back(
                    old(readback)@,
                    t0,
                    final(self).trace(),
                    job.uploads(m),
                )
                &&& match r {
                    Ok(()) => {
                        &&& job.on_course(t0, final(self).trace())
                        &&& m == 4 * n + 3
                        &&& *final(report) == job.report()
                    },
                    Err(e) => job.off_course(t0, final(self).trace(), e) && m <= 4 * n + 3,
                }
            }),
    {
        let ghost job = Job { image: firmware@, on: self.settings() };
        let ghost n = job.blocks();
        let ghost before = readback@;
        let size: usize = self.block_size();
        let total: usize = firmware.len();
        let mut block: u16 = 0;
        let mut received: usize = 0;
        let ghost mut j: int = 0;
        proof {
            lemma_block_count(total as nat, size as int, 0);
            assert(readback.len() == readback@.len());
        }
        while received < total
            invariant
                total == firmware@.len(),
                total <= before.len(),
                before.len() <= usize::MAX,
                before == old(readback)@,
                readback@.len() == before.len(),
                job == (Job { image: firmware@, on: old(self).settings() }),
                n == job.blocks(),
                size == job.on.block_size,
                size > 0,
                self.settings() == old(self).settings(),
                *final(self.link()) == *final(old(self).link()),
                0 <= j <= n,
                received <= total,
                received < total ==> received == j * size,
                received == total ==> j == n,
                block == j % 0x1_0000,
                job.on_course(t0, self.trace()),
                self.trace().len() == t0.len() + 2 * n + 3 + 2 * j,
                readback@ == job.read_back(before, t0, self.trace(), j),
                *report == (DfuReport {
                    download_blocks: (n % 0x1_0000) as u16,
                    upload_blocks: (j % 0x1_0000) as u16,
                    status_requests: ((n + 1 + j) % 0x1_0000_0000) as u32,
                    bytes: firmware@.len() as usize,
                }),
            decreases total - received,
        {
            let len: usize = if size <= total - received {
                size
            } else {
                total - received
            };
            let ghost i = 2 * n + 3 + 2 * j;
            proof {
                lemma_block_count(total as nat, size as int, j);
                assert(job.uploads(i + 1) == j + 1);
            }
            let r = self.read_block(
                readback,
                received,
                len,
                block,
                Ghost(job),
                Ghost(t0),
                Ghost(before),
                Ghost(j),
            );
            let ghost tb = self.trace();
            match r {
                Ok(()) => {},
                Err(e) => {
                    return Err(e);
                },
            }
            block = block.wrapping_add(1);
            received = received + len;
            report.upload_blocks = report.upload_blocks.wrapping_add(1);
            assert((i + 1) % 2 == 0);
            let r = self.ask_status(report, Ghost(job), Ghost(t0));
            proof {
                assert(readback@ == job.read_back(before, t0, self.trace(), j + 1)) by {
                    transport::lemma_one_more(tb, self.trace());
                    job.lemma_read_back_agrees(before, t0, self.trace(), tb, j + 1);
                }
                assert(job.uploads(i + 2) == j + 1);
            }
            match r {
                Ok(()) => {},
                Err(e) => {
                    return Err(e);
                },
            }
            proof {
                j = j + 1;
            }
        }
        Ok(())
    }

    /// Reads one block back.
    fn read_block(
        &mut self,
        readback: &mut [u8],
        at: usize,
        len: usize,
        block: u16,
        Ghost(job): Ghost<Job>,
        Ghost(t0): Ghost<Seq<Transfer<T::Error>>>,
        Ghost(before): Ghost<Seq<u8>>,
        Ghost(j): Ghost<int>,
    ) -> (r: Result<(), Error<T::Error>>)
        requires
            job.on == old(self).settings(),
            job.on_course(t0, old(self).trace()),
            0 <= j < job.blocks(),
            old(self).trace().len() == t0.len() + 2 * job.blocks() + 3 + 2 * j,
            at == j * job.on.block_size,
            len == block_of(job.image, job.on.block_size, j).len(),
            at + len <= old(readback)@.len(),
            block == j % 0x1_0000,
            old(readback)@ == job.read_back(before, t0, old(self).trace(), j),
        ensures
            *final(final(self).link()) == *final(old(self).link()),
            final(self).settings() == old(self).settings(),
            final(readback)@.len() == old(readback)@.len(),
            final(self).trace().len() == old(self).trace().len() + 1,
            final(readback)@ == job.read_back(before, t0, final(self).trace(), j + 1),
            match r {
                Ok(()) => job.on_course(t0, final(self).trace()),
                Err(e) => job.off_course(t0, final(self).trace(), e),
            },
    {
        let ghost ta = self.trace();
        let ghost so_far = readback@;
        let ghost n = job.blocks();
        let ghost i = 2 * n + 3 + 2 * j;
        proof {
            assert(i % 2 == 1 && (i - (2 * n + 3)) / 2 == j);
            assert(readback.len() == readback@.len());
        }
        let r = {
            let (_, rest) = readback.split_at_mut(at);
            let (piece, _) = rest.split_at_mut(len);
            self.upload(block, piece)
        };
        proof {
            let tb = self.trace();
            job.lemma_step(t0, ta, tb);
            job.lemma_read_back_agrees(before, t0, tb, ta, j);
            assert(tb[t0.len() + 2 * n + 3 + 2 * j] == tb.last());
            assert(readback@ =~= stream::splice(so_far, at as int, received(tb.last())));
        }
        r
    }

    /// The block size in force: at least one byte.
    fn block_size(&self) -> (r: usize)
        ensures
            r == self.settings().block_size,
            r > 0,
    {
        if self.block_size == 0 {
            1
        } else {
            self.block_size
        }
    }

    /// `SET_INTERFACE`, alternate setting `alt`.
    ///
    /// A standard request, not a DFU class request: `bmRequestType` is bare
    /// `RECIPIENT_INTERFACE` with no type bits.
    fn set_interface(&mut self, alt: u16) -> (r: Result<(), Error<T::Error>>)
        ensures
            *final(final(self).link()) == *final(old(self).link()),
            final(self).settings() == old(self).settings(),
            transport::one_more(old(self).trace(), final(self).trace()),
            is_out(
                final(self).trace().last(),
                RECIPIENT_INTERFACE,
                SET_INTERFACE,
                alt as int,
                old(self).settings().interface,
                Seq::empty(),
                old(self).settings().us,
            ),
            r == driver::outbound(final(self).trace().last()),
    {
        match self.transport.control_out(
            RECIPIENT_INTERFACE,
            SET_INTERFACE,
            alt,
            self.interface as u16,
            &[],
            self.timeout_us,
        ) {
            Ok(()) => Ok(()),
            Err(e) => Err(Error::Transport(e)),
        }
    }

    /// `DFU_GETSTATUS`.
    fn get_status(&mut self, report: &mut DfuReport) -> (r: Result<DfuStatus, Error<T::Error>>)
        ensures
            *final(final(self).link()) == *final(old(self).link()),
            final(self).settings() == old(self).settings(),
            transport::one_more(old(self).trace(), final(self).trace()),
            is_in(
                final(self).trace().last(),
                DFU_GETSTATUS,
                0,
                old(self).settings().interface,
                STATUS_LEN as int,
                old(self).settings().us,
            ),
            r == status_result(final(self).trace().last()),
            *final(report) == if r matches Err(e) && e is Transport {
                *old(report)
            } else {
                DfuReport {
                    status_requests: ((old(report).status_requests + 1) % 0x1_0000_0000) as u32,
                    ..*old(report)
                }
            },
    {
        let mut buf: [u8; STATUS_LEN] = [0u8; STATUS_LEN];
        let n: usize = match self.transport.control_in(
            CLASS_IN,
            DFU_GETSTATUS,
            0,
            self.interface as u16,
            &mut buf,
            self.timeout_us,
        ) {
            Ok(n) => n,
            Err(e) => {
                return Err(Error::Transport(e));
            },
        };
        report.status_requests = report.status_requests.wrapping_add(1);
        if n != STATUS_LEN {
            return Err(Error::ShortTransfer { expected: STATUS_LEN, actual: n });
        }
        let status = DfuStatus::parse(&buf);
        if !status.is_ok() {
            return Err(Error::DfuStatus { status: status.status, state: status.state });
        }
        Ok(status)
    }

    /// `DFU_DNLOAD` of one block.
    ///
    /// `block` is a full 16-bit `wValue`, per the DFU 1.1 standard.
    fn dnload(&mut self, block: u16, data: &[u8]) -> (r: Result<(), Error<T::Error>>)
        ensures
            *final(final(self).link()) == *final(old(self).link()),
            final(self).settings() == old(self).settings(),
            transport::one_more(old(self).trace(), final(self).trace()),
            is_out(
                final(self).trace().last(),
                CLASS_OUT,
                DFU_DNLOAD,
                block as int,
                old(self).settings().interface,
                data@,
                old(self).settings().us,
            ),
            r == driver::outbound(final(self).trace().last()),
    {
        match self.transport.control_out(
            CLASS_OUT,
            DFU_DNLOAD,
            block,
            self.interface as u16,
            data,
            self.timeout_us,
        ) {
            Ok(()) => Ok(()),
            Err(e) => Err(Error::Transport(e)),
        }
    }

    /// `DFU_UPLOAD` of one block.
    fn upload(&mut self, block: u16, buf: &mut [u8]) -> (r: Result<(), Error<T::Error>>)
        ensures
            *final(final(self).link()) == *final(old(self).link()),
            final(self).settings() == old(self).settings(),
            transport::one_more(old(self).trace(), final(self).trace()),
            final(buf)@.len() == old(buf)@.len(),
            is_in(
                final(self).trace().last(),
                DFU_UPLOAD,
                block as int,
                old(self).settings().interface,
                old(buf)@.len() as int,
                old(self).settings().us,
            ),
            received(final(self).trace().last()) == final(buf)@,
            match driver::inbound(final(self).trace().last()) {
                Ok(_) => r is Ok,
                Err(e) => r == Err::<(), Error<T::Error>>(e),
            },
    {
        let want: usize = buf.len();
        let n: usize = match self.transport.control_in(
            CLASS_IN,
            DFU_UPLOAD,
            block,
            self.interface as u16,
            buf,
            self.timeout_us,
        ) {
            Ok(n) => n,
            Err(e) => {
                return Err(Error::Transport(e));
            },
        };
        if n != want {
            return Err(Error::ShortTransfer { expected: want, actual: n });
        }
        Ok(())
    }

    /// `DFU_DETACH`.
    fn detach(&mut self, timeout_ms: u16) -> (r: Result<(), Error<T::Error>>)
        ensures
            *final(final(self).link()) == *final(old(self).link()),
            final(self).settings() == old(self).settings(),
            transport::one_more(old(self).trace(), final(self).trace()),
            is_out(
                final(self).trace().last(),
                CLASS_OUT,
                DFU_DETACH,
                timeout_ms as int,
                old(self).settings().interface,
                Seq::empty(),
                old(self).settings().us,
            ),
            r == driver::outbound(final(self).trace().last()),
    {
        match self.transport.control_out(
            CLASS_OUT,
            DFU_DETACH,
            timeout_ms,
            self.interface as u16,
            &[],
            self.timeout_us,
        ) {
            Ok(()) => Ok(()),
            Err(e) => Err(Error::Transport(e)),
        }
    }
}

/// Index of the first byte at which `a` and `b` differ, over the shorter of
/// the two.
fn first_difference(a: &[u8], b: &[u8]) -> (r: Option<usize>)
    ensures
        match r {
            Some(i) => is_first_difference(a@, b@, i as int),
            None => forall|j: int| 0 <= j < a@.len() && j < b@.len() ==> #[trigger] a@[j] == b@[j],
        },
{
    let mut i: usize = 0;
    while i < a.len() && i < b.len()
        invariant
            i <= a@.len(),
            i <= b@.len(),
            forall|j: int| 0 <= j < i ==> #[trigger] a@[j] == b@[j],
        decreases a@.len() - i,
    {
        if a[i] != b[i] {
            return Some(i);
        }
        i = i + 1;
    }
    None
}

} // verus!
