//! What a firmware download looks like to the device.
use vstd::prelude::*;

use crate::dfu;
use crate::dfu::{DfuReport, Job};
use crate::error::Error;
use crate::transport::Transfer;
use crate::wire;

verus! {

// ---------------------------------------------------------------------------
// The requests, one by one
// ---------------------------------------------------------------------------

/// `x` is an outbound request to an interface that carries `data`.
pub open spec fn tells_interface<E>(
    x: Transfer<E>,
    req_type: u8,
    request: u8,
    value: int,
    interface: u8,
    len: int,
    us: u32,
) -> bool {
    x matches Transfer::ControlOut {
        req_type: a,
        request: b,
        value: c,
        index,
        data,
        timeout_us,
        ..
    } && a == req_type && b == request && c == value && index == interface && data.len() == len
        && timeout_us == us
}

/// `x` is an inbound request to an interface for `len` bytes.
pub open spec fn asks_interface<E>(
    x: Transfer<E>,
    req_type: u8,
    request: u8,
    value: int,
    interface: u8,
    len: int,
    us: u32,
) -> bool {
    x matches Transfer::ControlIn {
        req_type: a,
        request: b,
        value: c,
        index,
        data,
        timeout_us,
        ..
    } && a == req_type && b == request && c == value && index == interface && data.len() == len
        && timeout_us == us
}

/// The bytes a control transfer carries, in either direction.
pub open spec fn carried<E>(x: Transfer<E>) -> Seq<u8> {
    match x {
        Transfer::ControlIn { data, .. } => data,
        Transfer::ControlOut { data, .. } => data,
        _ => Seq::empty(),
    }
}

/// The device took a request well: what was sent was accepted, what was asked
/// for came whole, and a status is one of success.
pub open spec fn taken_well<E>(x: Transfer<E>) -> bool {
    match x {
        Transfer::ControlOut { result, .. } => result is Ok,
        Transfer::ControlIn { request, data, result, .. } => result matches Ok(n) && n == data.len()
            && (request == 3 ==> data[0] == 0),
        _ => false,
    }
}

proof fn lemma_blocks(job: Job, n: int)
    requires
        job.on.block_size > 0,
        0 <= n,
        (n - 1) * job.on.block_size < job.image.len() <= n * job.on.block_size,
    ensures
        job.blocks() == n,
{
    let bs = job.on.block_size;
    let len = job.image.len();
    dfu::lemma_block_count(len, bs, 0);
    if n > 0 {
        if n == 1 {
            assert((n - 1) * bs == 0) by (nonlinear_arith)
                requires
                    n == 1,
            ;
        }
        dfu::lemma_block_count(len, bs, n - 1);
    } else {
        assert(n * bs == 0) by (nonlinear_arith)
            requires
                n == 0,
        ;
    }
}

/// Law: an image of `n` blocks is downloaded by these transfers and no others,
/// in this order: `SET_INTERFACE`; a status request and then block `j`, for
/// each `j`; a status request and the empty block; block `j` asked back and
/// then a status request, for each `j`; the detach. Whatever the outcome, each
/// transfer that was made is the one that belongs in its place, and block `j`
/// goes under the number `j`, modulo `2^16`, both ways.
pub proof fn law_download_on_the_wire<E>(
    job: Job,
    t0: Seq<Transfer<E>>,
    t1: Seq<Transfer<E>>,
    before: Seq<u8>,
    after: Seq<u8>,
    res: Result<DfuReport, Error<E>>,
    n: int,
    j: int,
)
    requires
        job.did_download(t0, t1, before, after, res),
        job.image.len() <= before.len(),
        job.on.block_size > 0,
        0 <= n,
        (n - 1) * job.on.block_size < job.image.len() <= n * job.on.block_size,
        0 <= j < n,
    ensures
        ({
            let a = t0.len() as int;
            let (size, interface, us) = (job.on.block_size, job.on.interface, job.on.us);
            let left = job.image.len() - j * size;
            let len = if left < size {
                left
            } else {
                size
            };
            // The status request in front of block `j`, and the block.
            &&& a + 1 + 2 * j < t1.len() ==> asks_interface(
                t1[a + 1 + 2 * j],
                0xA1,
                3,
                0,
                interface,
                6,
                us,
            )
            &&& a + 2 + 2 * j < t1.len() ==> {
                &&& tells_interface(
                    t1[a + 2 + 2 * j],
                    0x21,
                    1,
                    j % 0x1_0000,
                    interface,
                    len,
                    us,
                )
                &&& forall|k: int|
                    0 <= k < len ==> #[trigger] carried(t1[a + 2 + 2 * j])[k] == job.image[j * size
                        + k]
            }
            // The block asked back, and the status request behind it.
            &&& a + 2 * n + 3 + 2 * j < t1.len() ==> asks_interface(
                t1[a + 2 * n + 3 + 2 * j],
                0xA1,
                2,
                j % 0x1_0000,
                interface,
                len,
                us,
            )
            &&& a + 2 * n + 4 + 2 * j < t1.len() ==> asks_interface(
                t1[a + 2 * n + 4 + 2 * j],
                0xA1,
                3,
                0,
                interface,
                6,
                us,
            )
        }),
{
    let a = t0.len() as int;
    let (size, interface, us) = (job.on.block_size, job.on.interface, job.on.us);
    lemma_blocks(job, n);
    dfu::lemma_block_count(job.image.len(), size, 0);
    let i = 1 + 2 * j;
    let block = dfu::block_of(job.image, size, j);
    assert(j * size <= (n - 1) * size && 0 <= j * size) by (nonlinear_arith)
        requires
            0 <= j <= n - 1,
            size > 0,
    ;
    assert(i % 2 == 1 && (i + 1) % 2 == 0 && (i + 1) / 2 - 1 == j);
    let u = 2 * n + 3 + 2 * j;
    assert(u % 2 == 1 && (u + 1) % 2 == 0 && (u - (2 * n + 3)) / 2 == j);
    if a + i < t1.len() {
        assert(dfu::carries(t1[a + i], job.request(i), interface, us));
    }
    if a + i + 1 < t1.len() {
        assert(dfu::carries(t1[a + i + 1], job.request(i + 1), interface, us));
        assert(carried(t1[a + 2 + 2 * j]) == block);
    }
    if a + u < t1.len() {
        assert(dfu::carries(t1[a + u], job.request(u), interface, us));
    }
    if a + u + 1 < t1.len() {
        assert(dfu::carries(t1[a + u + 1], job.request(u + 1), interface, us));
    }
}

/// Law: the transfers of a download that belong to no block are the
/// `SET_INTERFACE` it begins with, the status request and the empty block that
/// end the sending, and the detach, which is the last of all. The history
/// before the download stays what it was.
pub proof fn law_download_frame_on_the_wire<E>(
    job: Job,
    t0: Seq<Transfer<E>>,
    t1: Seq<Transfer<E>>,
    before: Seq<u8>,
    after: Seq<u8>,
    res: Result<DfuReport, Error<E>>,
    n: int,
)
    requires
        job.did_download(t0, t1, before, after, res),
        job.image.len() <= before.len(),
        job.on.block_size > 0,
        0 <= n,
        (n - 1) * job.on.block_size < job.image.len() <= n * job.on.block_size,
    ensures
        ({
            let a = t0.len() as int;
            let (interface, us) = (job.on.interface, job.on.us);
            &&& a <= t1.len() <= a + 4 * n + 4
            &&& forall|i: int| 0 <= i < a ==> #[trigger] t1[i] == t0[i]
            &&& a < t1.len() ==> tells_interface(t1[a], 0x01, 0x0B, 0, interface, 0, us)
            &&& a + 1 + 2 * n < t1.len() ==> asks_interface(
                t1[a + 1 + 2 * n],
                0xA1,
                3,
                0,
                interface,
                6,
                us,
            )
            &&& a + 2 + 2 * n < t1.len() ==> tells_interface(
                t1[a + 2 + 2 * n],
                0x21,
                1,
                n % 0x1_0000,
                interface,
                0,
                us,
            )
            &&& a + 4 * n + 3 < t1.len() ==> tells_interface(
                t1[a + 4 * n + 3],
                0x21,
                0,
                1000,
                interface,
                0,
                us,
            )
        }),
{
    let a = t0.len() as int;
    let (size, interface, us) = (job.on.block_size, job.on.interface, job.on.us);
    lemma_blocks(job, n);
    assert(t1.len() - a >= 0);
    assert forall|i: int| 0 <= i < a implies #[trigger] t1[i] == t0[i] by {
        assert(t1.take(a)[i] == t1[i]);
    }
    if a < t1.len() {
        assert(dfu::carries(t1[a], job.request(0), interface, us));
    }
    let i = 1 + 2 * n;
    assert(i % 2 == 1 && (i + 1) % 2 == 0 && (i + 1) / 2 - 1 == n);
    if a + i < t1.len() {
        assert(dfu::carries(t1[a + i], job.request(i), interface, us));
    }
    if a + i + 1 < t1.len() {
        assert(dfu::carries(t1[a + i + 1], job.request(i + 1), interface, us));
        assert(dfu::block_of(job.image, size, n).len() == 0);
    }
    if a + 4 * n + 3 < t1.len() {
        assert(dfu::carries(t1[a + 4 * n + 3], job.request(4 * n + 3), interface, us));
    }
}

// ---------------------------------------------------------------------------
// The outcome
// ---------------------------------------------------------------------------

/// What a device that stores each block at its number times the block size
/// holds at address `p`, after the transfers from `from` up to `to`.
pub open spec fn stored_at<E>(
    t: Seq<Transfer<E>>,
    from: int,
    to: int,
    size: int,
    p: int,
) -> Option<u8>
    decreases to - from,
{
    if to <= from {
        None
    } else {
        match t[to - 1] {
            Transfer::ControlOut { req_type, request, value, data, .. } => if req_type == 0x21
                && request == 1 && value * size <= p < value * size + data.len() {
                Some(data[p - value * size])
            } else {
                stored_at(t, from, to - 1, size, p)
            },
            _ => stored_at(t, from, to - 1, size, p),
        }
    }
}

/// The block that `x` stores covers address `p`.
spec fn covers<E>(x: Transfer<E>, size: int, p: int) -> bool {
    x matches Transfer::ControlOut { req_type, request, value, data, .. } && req_type == 0x21
        && request == 1 && value * size <= p < value * size + data.len()
}

/// `x` stores block `j` of an image, or nothing where there is no such block.
spec fn stores<E>(x: Transfer<E>, image: Seq<u8>, size: int, j: int) -> bool {
    &&& x matches Transfer::ControlOut { req_type, request, value, data, .. } && req_type == 0x21
        && request == 1 && value == j && data.len() <= size && j * size + data.len()
        <= image.len() && (j * size + size <= image.len() ==> data.len() == size) && (j * size
        + size > image.len() ==> j * size + data.len() == image.len())
    &&& forall|k: int| 0 <= k < carried(x).len() ==> #[trigger] carried(x)[k] == image[j * size + k]
}

/// `x` stores nothing.
spec fn stores_nothing<E>(x: Transfer<E>) -> bool {
    x matches Transfer::ControlOut { req_type, request, data, .. } ==> req_type != 0x21 || request
        != 1 || data.len() == 0
}

proof fn lemma_stores<E>(
    job: Job,
    t0: Seq<Transfer<E>>,
    t1: Seq<Transfer<E>>,
    before: Seq<u8>,
    after: Seq<u8>,
    res: Result<DfuReport, Error<E>>,
    n: int,
    i: int,
)
    requires
        job.did_download(t0, t1, before, after, res),
        job.image.len() <= before.len(),
        job.on.block_size > 0,
        0 <= n <= 0x1_0000,
        (n - 1) * job.on.block_size < job.image.len() <= n * job.on.block_size,
        0 <= i < t1.len() - t0.len(),
    ensures
        if i % 2 == 0 && 2 <= i <= 2 * n {
            stores(t1[t0.len() + i], job.image, job.on.block_size, i / 2 - 1)
        } else {
            stores_nothing(t1[t0.len() + i])
        },
{
    if 1 <= i <= 2 * n {
        let j = (i - 1) / 2;
        assert(i == 1 + 2 * j || i == 2 + 2 * j);
        lemma_sending_stores(job, t0, t1, before, after, res, n, j);
    } else if 2 * n + 3 <= i <= 4 * n + 2 {
        let j = (i - (2 * n + 3)) / 2;
        assert(i == 2 * n + 3 + 2 * j || i == 2 * n + 4 + 2 * j);
        lemma_reading_stores_nothing(job, t0, t1, before, after, res, n, j);
    } else {
        law_download_frame_on_the_wire(job, t0, t1, before, after, res, n);
        assert(i == 0 || i == 2 * n + 1 || i == 2 * n + 2 || i == 4 * n + 3);
    }
}

proof fn lemma_sending_stores<E>(
    job: Job,
    t0: Seq<Transfer<E>>,
    t1: Seq<Transfer<E>>,
    before: Seq<u8>,
    after: Seq<u8>,
    res: Result<DfuReport, Error<E>>,
    n: int,
    j: int,
)
    requires
        job.did_download(t0, t1, before, after, res),
        job.image.len() <= before.len(),
        job.on.block_size > 0,
        0 <= j < n <= 0x1_0000,
        (n - 1) * job.on.block_size < job.image.len() <= n * job.on.block_size,
    ensures
        t0.len() + (1 + 2 * j) < t1.len() ==> stores_nothing(t1[t0.len() + (1 + 2 * j)]),
        t0.len() + (2 + 2 * j) < t1.len() ==> stores(
            t1[t0.len() + (2 + 2 * j)],
            job.image,
            job.on.block_size,
            j,
        ),
{
    law_download_on_the_wire(job, t0, t1, before, after, res, n, j);
}

proof fn lemma_reading_stores_nothing<E>(
    job: Job,
    t0: Seq<Transfer<E>>,
    t1: Seq<Transfer<E>>,
    before: Seq<u8>,
    after: Seq<u8>,
    res: Result<DfuReport, Error<E>>,
    n: int,
    j: int,
)
    requires
        job.did_download(t0, t1, before, after, res),
        job.image.len() <= before.len(),
        job.on.block_size > 0,
        0 <= j < n,
        (n - 1) * job.on.block_size < job.image.len() <= n * job.on.block_size,
    ensures
        t0.len() + (2 * n + 3 + 2 * j) < t1.len() ==> stores_nothing(
            t1[t0.len() + (2 * n + 3 + 2 * j)],
        ),
        t0.len() + (2 * n + 4 + 2 * j) < t1.len() ==> stores_nothing(
            t1[t0.len() + (2 * n + 4 + 2 * j)],
        ),
{
    law_download_on_the_wire(job, t0, t1, before, after, res, n, j);
}

proof fn lemma_covers<E>(x: Transfer<E>, image: Seq<u8>, size: int, j: int, b: int, p: int)
    requires
        size > 0,
        0 <= j,
        stores(x, image, size, j),
        b * size <= p < b * size + size,
        p < image.len(),
    ensures
        covers(x, size, p) == (j == b),
        j == b ==> x->ControlOut_data[p - x->ControlOut_value * size] == image[p],
{
    if j != b {
        assert(!(j * size <= p < j * size + size)) by (nonlinear_arith)
            requires
                j != b,
                b * size <= p < b * size + size,
                size > 0,
        ;
    } else {
        assert(carried(x)[p - j * size] == image[j * size + (p - j * size)]);
    }
}

proof fn lemma_stored<E>(
    job: Job,
    t0: Seq<Transfer<E>>,
    t1: Seq<Transfer<E>>,
    before: Seq<u8>,
    after: Seq<u8>,
    res: Result<DfuReport, Error<E>>,
    n: int,
    b: int,
    p: int,
    i: int,
)
    requires
        job.did_download(t0, t1, before, after, res),
        job.image.len() <= before.len(),
        job.on.block_size > 0,
        0 <= b < n <= 0x1_0000,
        (n - 1) * job.on.block_size < job.image.len() <= n * job.on.block_size,
        b * job.on.block_size <= p < b * job.on.block_size + job.on.block_size,
        p < job.image.len(),
        0 <= i <= t1.len() - t0.len(),
    ensures
        stored_at(t1, t0.len() as int, t0.len() + i, job.on.block_size, p) == if 2 + 2 * b < i {
            Some(job.image[p])
        } else {
            None
        },
    decreases i,
{
    if i > 0 {
        lemma_stored(job, t0, t1, before, after, res, n, b, p, i - 1);
        lemma_stores(job, t0, t1, before, after, res, n, i - 1);
        let x = t1[t0.len() + (i - 1)];
        assert(x == t1[t0.len() + i - 1]);
        if (i - 1) % 2 == 0 && 2 <= i - 1 <= 2 * n {
            lemma_covers(x, job.image, job.on.block_size, (i - 1) / 2 - 1, b, p);
        }
    }
}

/// Law: a device that stores each block at its number times the block size
/// holds the image after a successful download of no more than `2^16` blocks.
pub proof fn law_device_holds_the_image<E>(
    job: Job,
    t0: Seq<Transfer<E>>,
    t1: Seq<Transfer<E>>,
    before: Seq<u8>,
    after: Seq<u8>,
    report: DfuReport,
    p: int,
)
    requires
        job.did_download(t0, t1, before, after, Ok(report)),
        job.on.block_size > 0,
        job.image.len() <= 0x1_0000 * job.on.block_size,
        0 <= p < job.image.len(),
    ensures
        stored_at(t1, t0.len() as int, t1.len() as int, job.on.block_size, p) == Some(job.image[p]),
{
    let size = job.on.block_size;
    let len = job.image.len() as int;
    let n = (len + size - 1) / size;
    lemma_ceiling(len, size);
    assert(n <= 0x1_0000) by (nonlinear_arith)
        requires
            (n - 1) * size < len,
            len <= 0x1_0000 * size,
            size > 0,
    ;
    lemma_blocks(job, n);
    let b = p / size;
    vstd::arithmetic::div_mod::lemma_fundamental_div_mod(p, size);
    assert(size * b == b * size) by (nonlinear_arith);
    assert(b < n) by (nonlinear_arith)
        requires
            b * size <= p < len,
            len <= n * size,
            size > 0,
    ;
    vstd::arithmetic::div_mod::lemma_mod_bound(p, size);
    vstd::arithmetic::div_mod::lemma_div_pos_is_pos(p, size);
    lemma_stored(job, t0, t1, before, after, Ok(report), n, b, p, t1.len() - t0.len());
    assert(t0.len() + (t1.len() - t0.len()) == t1.len());
}

proof fn lemma_ceiling(len: int, size: int)
    requires
        size > 0,
        len >= 0,
    ensures
        0 <= (len + size - 1) / size,
        ((len + size - 1) / size - 1) * size < len <= ((len + size - 1) / size) * size,
{
    let a = len + size - 1;
    let n = a / size;
    vstd::arithmetic::div_mod::lemma_fundamental_div_mod(a, size);
    vstd::arithmetic::div_mod::lemma_mod_bound(a, size);
    vstd::arithmetic::div_mod::lemma_div_pos_is_pos(a, size);
    assert(size * n == n * size && (n - 1) * size == n * size - size) by (nonlinear_arith);
}

/// Law: what a successful download read back is the image, block by block, and
/// is what the read-back buffer now holds; behind the image that buffer is as
/// it was. Every request was taken well, and the report counts them.
pub proof fn law_success_means_read_back<E>(
    job: Job,
    t0: Seq<Transfer<E>>,
    t1: Seq<Transfer<E>>,
    before: Seq<u8>,
    after: Seq<u8>,
    report: DfuReport,
    n: int,
    j: int,
    k: int,
)
    requires
        job.did_download(t0, t1, before, after, Ok(report)),
        job.on.block_size > 0,
        0 <= n,
        (n - 1) * job.on.block_size < job.image.len() <= n * job.on.block_size,
    ensures
        t1.len() == t0.len() + 4 * n + 4,
        forall|i: int| t0.len() <= i < t1.len() ==> taken_well(#[trigger] t1[i]),
        report.download_blocks == n % 0x1_0000,
        report.upload_blocks == n % 0x1_0000,
        report.status_requests == (2 * n + 1) % 0x1_0000_0000,
        before.len() <= usize::MAX ==> report.bytes == job.image.len(),
        0 <= k < job.image.len() ==> after[k] == job.image[k],
        0 <= j < n && 0 <= k < job.on.block_size && j * job.on.block_size + k < job.image.len()
            ==> carried(t1[t0.len() + 2 * n + 3 + 2 * j])[k] == job.image[j * job.on.block_size
            + k],
        after.len() == before.len(),
        job.image.len() <= k < before.len() ==> after[k] == before[k],
{
    let a = t0.len() as int;
    let size = job.on.block_size;
    lemma_blocks(job, n);
    dfu::lemma_block_count(job.image.len(), size, 0);
    assert forall|i: int| a <= i < t1.len() implies taken_well(#[trigger] t1[i]) by {
        let m = i - a;
        assert(dfu::carries(t1[i], job.request(m), job.on.interface, job.on.us));
        if i < t1.len() - 1 {
            assert(dfu::answer(t1[i], job.request(m)) == Ok::<(), Error<E>>(()));
        } else {
            assert(t1[i] == t1.last());
        }
    }
    assert(job.uploads(4 * n + 4) == n);
    lemma_read_back(job, t0, t1, before, n, j, k);
    if 0 <= k < job.image.len() {
        assert(after.take(job.image.len() as int)[k] == after[k]);
    }
    if 0 <= j < n && 0 <= k < size && j * size + k < job.image.len() {
        let q = j * size + k;
        assert(0 <= j * size) by (nonlinear_arith)
            requires
                0 <= j,
                size > 0,
        ;
        assert(after.take(job.image.len() as int)[q] == after[q]);
    }
}

/// Law: whatever the outcome, the answer to each block asked back lies in its
/// place in the read-back buffer, and the rest of that buffer is as it was.
pub proof fn law_answers_lie_in_place<E>(
    job: Job,
    t0: Seq<Transfer<E>>,
    t1: Seq<Transfer<E>>,
    before: Seq<u8>,
    after: Seq<u8>,
    res: Result<DfuReport, Error<E>>,
    n: int,
    j: int,
    k: int,
)
    requires
        job.did_download(t0, t1, before, after, res),
        job.image.len() <= before.len(),
        job.on.block_size > 0,
        0 <= n,
        (n - 1) * job.on.block_size < job.image.len() <= n * job.on.block_size,
        0 <= j < n,
        0 <= k < job.on.block_size,
        j * job.on.block_size + k < job.image.len(),
    ensures
        ({
            let at = t0.len() + 2 * n + 3 + 2 * j;
            let p = j * job.on.block_size + k;
            &&& after.len() == before.len()
            &&& after[p] == if at < t1.len() {
                carried(t1[at])[k]
            } else {
                before[p]
            }
        }),
{
    let m = t1.len() - t0.len();
    lemma_blocks(job, n);
    dfu::lemma_block_count(job.image.len(), job.on.block_size, 0);
    let u = job.uploads(m);
    assert(u <= 0 || 2 * n + 3 + 2 * u - 1 <= m);
    if u > 0 {
        lemma_read_back(job, t0, t1, before, u, j, k);
    }
    let at = 2 * n + 3 + 2 * j;
    assert(at < m <==> j < u);
    if at >= m && u > 0 {
        lemma_not_yet_read(job, t0, t1, before, u, j, k);
    }
}

/// Blocks that were not asked back yet are as they were.
proof fn lemma_not_yet_read<E>(
    job: Job,
    t0: Seq<Transfer<E>>,
    t1: Seq<Transfer<E>>,
    before: Seq<u8>,
    m: int,
    j: int,
    k: int,
)
    requires
        job.on.block_size > 0,
        job.asked(t0, t1),
        job.image.len() <= before.len(),
        0 <= m <= j < job.blocks(),
        0 <= k < job.on.block_size,
        j * job.on.block_size + k < job.image.len(),
        t0.len() + 2 * job.blocks() + 3 + 2 * m - 1 <= t1.len(),
    ensures
        job.read_back(before, t0, t1, m).len() == before.len(),
        job.read_back(before, t0, t1, m)[j * job.on.block_size + k] == before[j * job.on.block_size
            + k],
    decreases m,
{
    let size = job.on.block_size;
    let n = job.blocks();
    dfu::lemma_block_count(job.image.len(), size, 0);
    if m > 0 {
        lemma_not_yet_read(job, t0, t1, before, m - 1, j, k);
        let r = 2 * n + 3 + 2 * (m - 1);
        let x = t1[t0.len() + r];
        assert(r % 2 == 1 && (r - (2 * n + 3)) / 2 == m - 1);
        assert(dfu::carries(x, job.request(r), job.on.interface, job.on.us));
        lemma_inside(job.image.len() as int, size, n, m - 1);
        let d = dfu::received(x);
        let b0 = job.read_back(before, t0, t1, m - 1);
        let at = (m - 1) * size;
        assert(job.read_back(before, t0, t1, m) == crate::stream::splice(b0, at, d));
        assert(0 <= at && at + size <= j * size) by (nonlinear_arith)
            requires
                0 <= m - 1 < j,
                size > 0,
                at == (m - 1) * size,
        ;
    }
}

/// What the read-back buffer holds after the first `m` uploads.
proof fn lemma_read_back<E>(
    job: Job,
    t0: Seq<Transfer<E>>,
    t1: Seq<Transfer<E>>,
    before: Seq<u8>,
    m: int,
    j: int,
    k: int,
)
    requires
        job.on.block_size > 0,
        job.asked(t0, t1),
        job.image.len() <= before.len(),
        0 <= m <= job.blocks(),
        t0.len() + 2 * job.blocks() + 3 + 2 * m - 1 <= t1.len(),
    ensures
        ({
            let size = job.on.block_size;
            let b = job.read_back(before, t0, t1, m);
            let at = t0.len() + 2 * job.blocks() + 3 + 2 * j;
            &&& b.len() == before.len()
            &&& (job.image.len() <= k < before.len() ==> b[k] == before[k])
            &&& (0 <= j < m && 0 <= k < size && j * size + k < job.image.len() ==> b[j * size + k]
                == carried(t1[at])[k])
        }),
    decreases m,
{
    let size = job.on.block_size;
    let n = job.blocks();
    dfu::lemma_block_count(job.image.len(), size, 0);
    if m > 0 {
        lemma_read_back(job, t0, t1, before, m - 1, j, k);
        let r = 2 * n + 3 + 2 * (m - 1);
        let x = t1[t0.len() + r];
        assert(r % 2 == 1 && (r - (2 * n + 3)) / 2 == m - 1);
        assert(dfu::carries(x, job.request(r), job.on.interface, job.on.us));
        dfu::lemma_block_count(job.image.len(), size, m - 1);
        lemma_inside(job.image.len() as int, size, n, m - 1);
        let d = dfu::received(x);
        let b0 = job.read_back(before, t0, t1, m - 1);
        let at = (m - 1) * size;
        assert(job.read_back(before, t0, t1, m) == crate::stream::splice(b0, at, d));
        assert(0 <= at) by (nonlinear_arith)
            requires
                0 <= m - 1,
                size > 0,
                at == (m - 1) * size,
        ;
        if 0 <= j < m - 1 && 0 <= k < size {
            assert(0 <= j * size && j * size + size <= at) by (nonlinear_arith)
                requires
                    0 <= j < m - 1,
                    size > 0,
                    at == (m - 1) * size,
            ;
        }
    }
}

/// A block that is counted starts inside the image.
proof fn lemma_inside(len: int, size: int, n: int, j: int)
    requires
        size > 0,
        n == (len + size - 1) / size,
        0 <= j < n,
        len >= 0,
    ensures
        j * size < len,
{
    lemma_ceiling(len, size);
    assert(j * size <= (n - 1) * size) by (nonlinear_arith)
        requires
            j <= n - 1,
            size > 0,
    ;
}

/// Law: a download fails for a reason. A read-back buffer that is too small is
/// refused before anything is sent. Any other failure is that of the last
/// transfer, all before it having been taken well: the transfer itself, or a
/// status that reports an error, which is passed on with the device's state.
/// Or all was taken well, and the failure names the first byte that came back
/// different. Nothing is sent after a failure.
pub proof fn law_download_fails_for_a_reason<E>(
    job: Job,
    t0: Seq<Transfer<E>>,
    t1: Seq<Transfer<E>>,
    before: Seq<u8>,
    after: Seq<u8>,
    e: Error<E>,
    n: int,
)
    requires
        job.did_download(t0, t1, before, after, Err(e)),
        job.on.block_size > 0,
        0 <= n,
        (n - 1) * job.on.block_size < job.image.len() <= n * job.on.block_size,
    ensures
        before.len() < job.image.len() ==> t1 == t0 && after == before && e == (
        Error::<E>::BufferTooSmall {
            needed: job.image.len() as usize,
            given: before.len() as usize,
        }),
        before.len() >= job.image.len() ==> {
            &&& t0.len() < t1.len()
            &&& forall|i: int| t0.len() <= i < t1.len() - 1 ==> taken_well(#[trigger] t1[i])
            &&& {
                ||| wire::broke(t1.last(), e)
                ||| {
                    &&& t1.last() matches Transfer::ControlIn { request, data, result, .. }
                        && request == 3 && result == Ok::<usize, E>(6) && data.len() == 6 && data[0]
                        != 0 && e == (Error::<E>::DfuStatus { status: data[0], state: data[4] })
                }
                ||| {
                    &&& taken_well(t1.last())
                    &&& t1.len() == t0.len() + 4 * n + 3
                    &&& e matches Error::ReadbackMismatch { offset } && offset < job.image.len()
                        && after[offset as int] != job.image[offset as int] && forall|i: int|
                        0 <= i < offset ==> #[trigger] after[i] == job.image[i]
                }
            }
        },
{
    let a = t0.len() as int;
    lemma_blocks(job, n);
    dfu::lemma_block_count(job.image.len(), job.on.block_size, 0);
    if before.len() >= job.image.len() {
        assert forall|i: int| a <= i < t1.len() - 1 implies taken_well(#[trigger] t1[i]) by {
            let m = i - a;
            assert(dfu::carries(t1[i], job.request(m), job.on.interface, job.on.us));
            assert(dfu::answer(t1[i], job.request(m)) == Ok::<(), Error<E>>(()));
        }
        let m = t1.len() - a - 1;
        assert(dfu::carries(t1[t1.len() - 1], job.request(m), job.on.interface, job.on.us));
        if let Error::ReadbackMismatch { offset } = e {
            assert forall|i: int| 0 <= i < offset implies #[trigger] after[i] == job.image[i] by {
                assert(job.image[i] == after[i]);
            }
        }
    }
}

} // verus!
