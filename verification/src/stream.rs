//! Bulk streams: outbound framing, inbound reads and completion events.
use vstd::prelude::*;

use crate::bytes;
use crate::driver;
use crate::driver::{
    DescriptorTag, Driver, Event, BULK_IN_ENDPOINT, BULK_OUT_ENDPOINT, EVENT_ENDPOINT, EVENT_SIZE,
    HEADER_SIZE, INTERRUPT_ENDPOINT, MAX_BULK_CHUNK,
};
use crate::error::Error;
use crate::transport;
use crate::transport::{Transfer, Transport};

verus! {

// ---------------------------------------------------------------------------
// Model: outbound
// ---------------------------------------------------------------------------

/// How many pieces a payload of `len` bytes goes out in.
pub open spec fn chunk_count(len: nat) -> int {
    (len + MAX_BULK_CHUNK - 1) / MAX_BULK_CHUNK as int
}

/// Piece `i` of a payload.
pub open spec fn chunk(data: Seq<u8>, i: int) -> Seq<u8> {
    let from = i * MAX_BULK_CHUNK;
    let to = from + MAX_BULK_CHUNK;
    data.subrange(from, if to <= data.len() { to } else { data.len() as int })
}

/// `x` is the write of `payload` to the outbound stream.
pub open spec fn is_bulk_out<E>(x: Transfer<E>, payload: Seq<u8>, us: u32) -> bool {
    x matches Transfer::BulkOut { ep, data, timeout_us, .. } && ep == BULK_OUT_ENDPOINT && data
        =~= payload && timeout_us == us
}

/// The history went from `t0` to `t1` by writing `data` piece by piece, up to
/// and including the first piece that failed.
pub open spec fn did_bulk_out<E>(
    t0: Seq<Transfer<E>>,
    t1: Seq<Transfer<E>>,
    data: Seq<u8>,
    us: u32,
    res: Result<(), Error<E>>,
) -> bool {
    let n = t1.len() - t0.len();
    &&& transport::grown(t0, t1, n)
    &&& n <= chunk_count(data.len())
    &&& forall|i: int|
        t0.len() <= i < t1.len() ==> is_bulk_out(#[trigger] t1[i], chunk(data, i - t0.len()), us)
    &&& forall|i: int|
        t0.len() <= i < t1.len() - 1 ==> driver::outbound(#[trigger] t1[i]) == Ok::<
            (),
            Error<E>,
        >(())
    &&& match res {
        Ok(()) => n == chunk_count(data.len()) && (n > 0 ==> driver::outbound(t1.last()) == res),
        Err(_) => n > 0 && driver::outbound(t1.last()) == res,
    }
}

/// The framing header: the length as a little-endian word, the tag, and three
/// zero bytes.
pub open spec fn header(tag: DescriptorTag, length: u32) -> Seq<u8> {
    bytes::le_bytes(length as nat, 4) + seq![tag.number(), 0u8, 0u8, 0u8]
}

/// The history went from `t0` to `t1` by writing the header for `data` and,
/// where that succeeded, `data` itself. The header carries the low 32 bits of
/// the length.
pub open spec fn did_send<E>(
    t0: Seq<Transfer<E>>,
    t1: Seq<Transfer<E>>,
    tag: DescriptorTag,
    data: Seq<u8>,
    us: u32,
    res: Result<(), Error<E>>,
) -> bool {
    exists|tm: Seq<Transfer<E>>, r: Result<(), Error<E>>|
        #[trigger] did_bulk_out(
            t0,
            tm,
            header(tag, (data.len() % 0x1_0000_0000) as u32),
            us,
            r,
        ) && match r {
            Ok(()) => did_bulk_out(tm, t1, data, us, res),
            Err(_) => t1 == tm && res == r,
        }
}

// ---------------------------------------------------------------------------
// Model: inbound
// ---------------------------------------------------------------------------

/// The byte count a read reports.
pub open spec fn count<E>(x: Transfer<E>) -> int {
    match x {
        Transfer::BulkIn { result: Ok(n), .. } => n as int,
        _ => 0,
    }
}

/// The buffer a read left behind.
pub open spec fn delivered<E>(x: Transfer<E>) -> Seq<u8> {
    match x {
        Transfer::BulkIn { data, .. } => data,
        _ => Seq::empty(),
    }
}

/// The byte counts of the reads from `from` up to `to`, added up.
pub open spec fn moved<E>(t: Seq<Transfer<E>>, from: int, to: int) -> int
    decreases to - from,
{
    if to <= from {
        0
    } else {
        moved(t, from, to - 1) + count(t[to - 1])
    }
}

/// `b` with `d` in place of what stood at `at`.
pub open spec fn splice(b: Seq<u8>, at: int, d: Seq<u8>) -> Seq<u8> {
    b.take(at) + d + b.skip(at + d.len())
}

/// `b` after the reads from `from` up to `to`, each of which left its buffer
/// where the bytes counted so far end.
pub open spec fn poured<E>(b: Seq<u8>, t: Seq<Transfer<E>>, from: int, to: int) -> Seq<u8>
    decreases to - from,
{
    if to <= from {
        b
    } else {
        splice(poured(b, t, from, to - 1), moved(t, from, to - 1), delivered(t[to - 1]))
    }
}

/// What a read comes to where `left` bytes were still wanted: a count of zero,
/// or of more than that, is a short transfer.
pub open spec fn read_outcome<E>(x: Transfer<E>, left: int) -> Result<(), Error<E>> {
    match x {
        Transfer::BulkIn { result: Ok(n), data, .. } => if n == 0 || n > left {
            Err(Error::ShortTransfer { expected: data.len() as usize, actual: n })
        } else {
            Ok(())
        },
        Transfer::BulkIn { result: Err(e), .. } => Err(Error::Transport(e)),
        _ => Ok(()),
    }
}

/// How much the next read asks for where `left` bytes are still wanted.
pub open spec fn next_read(left: int) -> int {
    if left <= MAX_BULK_CHUNK {
        left
    } else {
        MAX_BULK_CHUNK as int
    }
}

/// `x` is the read that is made where `left` bytes of the inbound stream are
/// still wanted. None is made where nothing is.
pub open spec fn is_bulk_in<E>(x: Transfer<E>, left: int, us: u32) -> bool {
    left > 0 && (x matches Transfer::BulkIn { ep, data, timeout_us, .. } && ep == BULK_IN_ENDPOINT
        && data.len() == next_read(left) && timeout_us == us)
}

/// The history went from `t0` to `t1`, and the buffer from `before` to
/// `after`, by reading until the buffer was full or a read failed.
pub open spec fn did_bulk_in<E>(
    t0: Seq<Transfer<E>>,
    t1: Seq<Transfer<E>>,
    before: Seq<u8>,
    after: Seq<u8>,
    us: u32,
    res: Result<(), Error<E>>,
) -> bool {
    let from = t0.len() as int;
    let total = before.len();
    &&& transport::grown(t0, t1, t1.len() - from)
    &&& forall|i: int|
        from <= i < t1.len() ==> is_bulk_in(#[trigger] t1[i], total - moved(t1, from, i), us)
    &&& forall|i: int|
        from <= i < t1.len() - 1 ==> read_outcome(#[trigger] t1[i], total - moved(t1, from, i))
            == Ok::<(), Error<E>>(())
    &&& after =~= poured(before, t1, from, t1.len() as int)
    &&& match res {
        Ok(()) => moved(t1, from, t1.len() as int) == total && (t1.len() > from
            ==> read_outcome(t1.last(), total - moved(t1, from, t1.len() - 1)) == res),
        Err(_) => t1.len() > from && read_outcome(
            t1.last(),
            total - moved(t1, from, t1.len() - 1),
        ) == res,
    }
}

/// The event that sixteen bytes stand for.
pub open spec fn event(d: Seq<u8>) -> Event {
    Event {
        address: bytes::le(d.subrange(0, 8)) as u64,
        length: bytes::le(d.subrange(8, 12)) as u32,
        tag: (d[12] % 16) as u8,
    }
}

/// The history went from `t0` to `t1` by the read of a completion event.
pub open spec fn did_read_event<E>(
    t0: Seq<Transfer<E>>,
    t1: Seq<Transfer<E>>,
    us: u32,
    res: Result<Event, Error<E>>,
) -> bool {
    &&& transport::one_more(t0, t1)
    &&& t1.last() matches Transfer::BulkIn { ep, data, timeout_us, .. } && ep == EVENT_ENDPOINT
        && data.len() == EVENT_SIZE && timeout_us == us
    &&& res == match driver::inbound(t1.last()) {
        Ok(d) => Ok(event(d)),
        Err(e) => Err(e),
    }
}

pub(crate) proof fn lemma_chunk_bounds(len: nat)
    ensures
        chunk_count(len) * 32768 - 32768 < len <= chunk_count(len) * 32768,
{
    assert(MAX_BULK_CHUNK == 32768);
    let c = chunk_count(len);
    assert(c * 32768 <= len + 32767 < c * 32768 + 32768);
}

proof fn lemma_chunk_count(len: nat, k: int)
    requires
        0 <= k,
        k * MAX_BULK_CHUNK < len,
    ensures
        k + 1 <= chunk_count(len),
        len <= (k + 1) * MAX_BULK_CHUNK ==> k + 1 == chunk_count(len),
{
    assert(MAX_BULK_CHUNK == 32768);
    let c = chunk_count(len);
    assert(c * 32768 <= len + 32767 < c * 32768 + 32768);
}

/// Histories that agree up to `to` agree on what was read up to there.
proof fn lemma_reads_agree<E>(
    b: Seq<u8>,
    t: Seq<Transfer<E>>,
    u: Seq<Transfer<E>>,
    from: int,
    to: int,
)
    requires
        forall|i: int| from <= i < to ==> #[trigger] t[i] == u[i],
    ensures
        moved(t, from, to) == moved(u, from, to),
        poured(b, t, from, to) == poured(b, u, from, to),
    decreases to - from,
{
    if to > from {
        lemma_reads_agree(b, t, u, from, to - 1);
        assert(t[to - 1] == u[to - 1]);
    }
}

/// The history went from `t0` to `t`, and the buffer from `before` to `now`, by
/// reads that all succeeded and brought `done` bytes so far.
#[verifier::opaque]
spec fn reading<E>(
    t0: Seq<Transfer<E>>,
    t: Seq<Transfer<E>>,
    before: Seq<u8>,
    now: Seq<u8>,
    us: u32,
    done: int,
) -> bool {
    let from = t0.len() as int;
    &&& transport::grown(t0, t, t.len() - from)
    &&& done == moved(t, from, t.len() as int)
    &&& now == poured(before, t, from, t.len() as int)
    &&& forall|i: int|
        from <= i < t.len() ==> {
            &&& is_bulk_in(#[trigger] t[i], before.len() - moved(t, from, i), us)
            &&& read_outcome(t[i], before.len() - moved(t, from, i)) == Ok::<(), Error<E>>(())
        }
}

proof fn lemma_reading_starts<E>(t0: Seq<Transfer<E>>, before: Seq<u8>, us: u32)
    ensures
        reading(t0, t0, before, before, us, 0),
{
    reveal(reading);
}

/// One more read.
proof fn lemma_one_more_read<E>(
    t0: Seq<Transfer<E>>,
    tm: Seq<Transfer<E>>,
    t: Seq<Transfer<E>>,
    before: Seq<u8>,
    mid: Seq<u8>,
    us: u32,
    done: int,
)
    requires
        reading(t0, tm, before, mid, us, done),
        transport::one_more(tm, t),
        is_bulk_in(t.last(), before.len() - done, us),
    ensures
        ({
            let now = splice(mid, done, delivered(t.last()));
            match read_outcome(t.last(), before.len() - done) {
                Ok(()) => reading(t0, t, before, now, us, done + count(t.last())),
                Err(e) => did_bulk_in(t0, t, before, now, us, Err(e)),
            }
        }),
{
    reveal(reading);
    let from = t0.len() as int;
    transport::lemma_one_more(tm, t);
    assert forall|i: int| from <= i <= tm.len() implies #[trigger] moved(t, from, i) == moved(
        tm,
        from,
        i,
    ) by {
        lemma_reads_agree(before, t, tm, from, i);
    }
    lemma_reads_agree(before, t, tm, from, tm.len() as int);
    assert forall|i: int| from <= i < tm.len() implies is_bulk_in(
        #[trigger] t[i],
        before.len() - moved(t, from, i),
        us,
    ) && read_outcome(t[i], before.len() - moved(t, from, i)) == Ok::<(), Error<E>>(()) by {
        assert(t[i] == tm[i]);
    }
}

proof fn lemma_reading_ends<E>(
    t0: Seq<Transfer<E>>,
    t: Seq<Transfer<E>>,
    before: Seq<u8>,
    now: Seq<u8>,
    us: u32,
)
    requires
        reading(t0, t, before, now, us, before.len() as int),
    ensures
        did_bulk_in(t0, t, before, now, us, Ok(())),
{
    reveal(reading);
    if t.len() > t0.len() {
        assert(t[t.len() - 1] == t.last());
    }
}

// ---------------------------------------------------------------------------
// Laws
// ---------------------------------------------------------------------------

/// The payloads of the writes from `from` up to `to`, end to end.
pub open spec fn payload<E>(t: Seq<Transfer<E>>, from: int, to: int) -> Seq<u8>
    decreases to - from,
{
    if to <= from {
        Seq::empty()
    } else {
        payload(t, from, to - 1) + match t[to - 1] {
            Transfer::BulkOut { data, .. } => data,
            _ => Seq::empty(),
        }
    }
}

/// Law: the header is eight bytes; its first four give the length back, the
/// fifth is the tag and fits a nibble, and the rest is zero.
pub proof fn law_header_layout(tag: DescriptorTag, length: u32)
    ensures
        header(tag, length).len() == HEADER_SIZE,
        bytes::le(header(tag, length).take(4)) == length,
        header(tag, length)[4] == tag.number(),
        tag.number() < 16,
        forall|i: int| 5 <= i < 8 ==> #[trigger] header(tag, length)[i] == 0,
{
    let l = bytes::le_bytes(length as nat, 4);
    bytes::law_le_bytes_len(length as nat, 4);
    assert(vstd::arithmetic::power::pow(256, 4) == 0x1_0000_0000) by {
        reveal_with_fuel(vstd::arithmetic::power::pow, 5);
    }
    bytes::law_decode_encode(length as nat, 4);
    assert(header(tag, length).take(4) =~= l);
}

/// Law: no piece of a payload is empty or larger than the chunk limit.
pub proof fn law_chunk_size(data: Seq<u8>, i: int)
    requires
        0 <= i < chunk_count(data.len()),
    ensures
        0 < chunk(data, i).len() <= MAX_BULK_CHUNK,
{
    assert(MAX_BULK_CHUNK == 32768);
    lemma_chunk_bounds(data.len());
}

proof fn lemma_payload<E>(
    t0: Seq<Transfer<E>>,
    t1: Seq<Transfer<E>>,
    data: Seq<u8>,
    us: u32,
    res: Result<(), Error<E>>,
    k: int,
)
    requires
        did_bulk_out(t0, t1, data, us, res),
        0 <= k <= t1.len() - t0.len(),
    ensures
        payload(t1, t0.len() as int, t0.len() + k) == data.take(
            if k * MAX_BULK_CHUNK <= data.len() {
                k * MAX_BULK_CHUNK
            } else {
                data.len() as int
            },
        ),
    decreases k,
{
    assert(MAX_BULK_CHUNK == 32768);
    let from = t0.len() as int;
    if k > 0 {
        lemma_payload(t0, t1, data, us, res, k - 1);
        let x = t1[from + k - 1];
        assert(is_bulk_out(x, chunk(data, k - 1), us));
        lemma_chunk_bounds(data.len());
        assert(payload(t1, from, from + k) == payload(t1, from, from + k - 1) + chunk(
            data,
            k - 1,
        ));
        assert(payload(t1, from, from + k) =~= data.take(
            if k * 32768 <= data.len() {
                k * 32768
            } else {
                data.len() as int
            },
        ));
    } else {
        assert(payload(t1, from, from) =~= data.take(0));
    }
}

/// Law: the pieces of a stream are the stream. What was written, end to end,
/// is `data` on success and the beginning of it on failure.
pub proof fn law_stream_is_the_data<E>(
    t0: Seq<Transfer<E>>,
    t1: Seq<Transfer<E>>,
    data: Seq<u8>,
    us: u32,
    res: Result<(), Error<E>>,
)
    requires
        did_bulk_out(t0, t1, data, us, res),
    ensures
        res is Ok ==> payload(t1, t0.len() as int, t1.len() as int) == data,
        payload(t1, t0.len() as int, t1.len() as int).is_prefix_of(data),
{
    assert(MAX_BULK_CHUNK == 32768);
    lemma_payload(t0, t1, data, us, res, t1.len() - t0.len());
    assert(t0.len() + (t1.len() - t0.len()) == t1.len());
    if res is Ok {
        lemma_chunk_bounds(data.len());
        assert(data.take(data.len() as int) =~= data);
    }
}

/// Law: a stream that was sent is its header in one transfer, then its data in
/// transfers of its own.
pub proof fn law_header_travels_alone<E>(
    t0: Seq<Transfer<E>>,
    t1: Seq<Transfer<E>>,
    tag: DescriptorTag,
    data: Seq<u8>,
    us: u32,
)
    requires
        did_send(t0, t1, tag, data, us, Ok(())),
    ensures
        t1.len() == t0.len() + 1 + chunk_count(data.len()),
        is_bulk_out(
            t1[t0.len() as int],
            header(tag, (data.len() % 0x1_0000_0000) as u32),
            us,
        ),
        payload(t1, t0.len() + 1int, t1.len() as int) == data,
{
    let h = header(tag, (data.len() % 0x1_0000_0000) as u32);
    let (tm, r) = choose|tm: Seq<Transfer<E>>, r: Result<(), Error<E>>|
        #[trigger] did_bulk_out(t0, tm, h, us, r) && match r {
            Ok(()) => did_bulk_out(tm, t1, data, us, Ok(())),
            Err(_) => t1 == tm && Ok::<(), Error<E>>(()) == r,
        };
    law_header_layout(tag, (data.len() % 0x1_0000_0000) as u32);
    lemma_chunk_count(8, 0);
    law_stream_is_the_data(tm, t1, data, us, Ok(()));
    assert(is_bulk_out(tm[t0.len() as int], chunk(h, 0), us));
    assert(chunk(h, 0) =~= h);
    assert(t1.take(tm.len() as int)[t0.len() as int] == t1[t0.len() as int]);
}

proof fn lemma_moved_grows<E>(
    t0: Seq<Transfer<E>>,
    t1: Seq<Transfer<E>>,
    before: Seq<u8>,
    after: Seq<u8>,
    us: u32,
    res: Result<(), Error<E>>,
    i: int,
    j: int,
)
    requires
        did_bulk_in(t0, t1, before, after, us, res),
        t0.len() <= i <= j < t1.len() || (res is Ok && t0.len() <= i <= j <= t1.len()),
    ensures
        moved(t1, t0.len() as int, i) + (j - i) <= moved(t1, t0.len() as int, j),
    decreases j - i,
{
    if i < j {
        lemma_moved_grows(t0, t1, before, after, us, res, i, j - 1);
        let from = t0.len() as int;
        let x = t1[j - 1];
        assert(is_bulk_in(x, before.len() - moved(t1, from, j - 1), us));
        if j == t1.len() {
            assert(x == t1.last());
        } else {
            assert(read_outcome(x, before.len() - moved(t1, from, j - 1)) == Ok::<
                (),
                Error<E>,
            >(()));
        }
    }
}

/// Law: whatever the device answers, filling a buffer takes no more reads than
/// the buffer has bytes, and each read carries the bulk timeout and asks for
/// no more than the chunk limit.
pub proof fn law_reads_are_bounded<E>(
    t0: Seq<Transfer<E>>,
    t1: Seq<Transfer<E>>,
    before: Seq<u8>,
    after: Seq<u8>,
    us: u32,
    res: Result<(), Error<E>>,
)
    requires
        did_bulk_in(t0, t1, before, after, us, res),
    ensures
        t1.len() - t0.len() <= before.len(),
        forall|i: int|
            t0.len() <= i < t1.len() ==> (#[trigger] t1[i] matches Transfer::BulkIn {
                data,
                timeout_us,
                ..
            } && 0 < data.len() <= MAX_BULK_CHUNK && timeout_us == us),
{
    let from = t0.len() as int;
    if t1.len() > from {
        lemma_moved_grows(t0, t1, before, after, us, res, from, t1.len() - 1);
        assert(is_bulk_in(t1[t1.len() - 1], before.len() - moved(t1, from, t1.len() - 1), us));
    }
    assert forall|i: int| t0.len() <= i < t1.len() implies (#[trigger] t1[i] matches Transfer::BulkIn {
        data,
        timeout_us,
        ..
    } && 0 < data.len() <= MAX_BULK_CHUNK && timeout_us == us) by {
        assert(is_bulk_in(t1[i], before.len() - moved(t1, from, i), us));
    }
}

proof fn lemma_splice(b: Seq<u8>, at: int, d: Seq<u8>, p: int)
    requires
        0 <= at,
        at + d.len() <= b.len(),
        0 <= p < b.len(),
    ensures
        splice(b, at, d).len() == b.len(),
        p < at ==> splice(b, at, d)[p] == b[p],
        at <= p < at + d.len() ==> splice(b, at, d)[p] == d[p - at],
{
}

/// Read `i` counts no more than it delivers, and delivers no more than there
/// is room for.
spec fn fits<E>(t: Seq<Transfer<E>>, from: int, i: int, total: int) -> bool {
    &&& 0 <= count(t[i]) <= delivered(t[i]).len()
    &&& moved(t, from, i) + delivered(t[i]).len() <= total
}

proof fn lemma_moved_is_monotone<E>(t: Seq<Transfer<E>>, from: int, i: int, j: int, total: int)
    requires
        from <= i <= j,
        forall|k: int| from <= k < j ==> #[trigger] fits(t, from, k, total),
    ensures
        0 <= moved(t, from, i) <= moved(t, from, j),
    decreases j - from,
{
    if i < j {
        assert(fits(t, from, j - 1, total));
        lemma_moved_is_monotone(t, from, i, j - 1, total);
    } else if from < i {
        assert(fits(t, from, i - 1, total));
        lemma_moved_is_monotone(t, from, i - 1, i - 1, total);
    }
}

proof fn lemma_poured_len<E>(b: Seq<u8>, t: Seq<Transfer<E>>, from: int, k: int)
    requires
        from <= k,
        forall|j: int| from <= j < k ==> #[trigger] fits(t, from, j, b.len() as int),
    ensures
        poured(b, t, from, k).len() == b.len(),
    decreases k - from,
{
    if k > from {
        assert(fits(t, from, k - 1, b.len() as int));
        lemma_poured_len(b, t, from, k - 1);
        lemma_moved_is_monotone(t, from, from, k - 1, b.len() as int);
    }
}

proof fn lemma_poured<E>(b: Seq<u8>, t: Seq<Transfer<E>>, from: int, i: int, p: int, k: int)
    requires
        from <= i < k,
        forall|j: int| from <= j < k ==> #[trigger] fits(t, from, j, b.len() as int),
        moved(t, from, i) <= p < moved(t, from, i + 1),
    ensures
        poured(b, t, from, k)[p] == delivered(t[i])[p - moved(t, from, i)],
    decreases k - i,
{
    let total = b.len() as int;
    let at = moved(t, from, k - 1);
    let q = poured(b, t, from, k - 1);
    assert(fits(t, from, k - 1, total));
    lemma_poured_len(b, t, from, k - 1);
    lemma_moved_is_monotone(t, from, from, i, total);
    lemma_moved_is_monotone(t, from, i + 1, k, total);
    lemma_moved_is_monotone(t, from, from, k - 1, total);
    if k - 1 > i {
        lemma_moved_is_monotone(t, from, i + 1, k - 1, total);
        lemma_poured(b, t, from, i, p, k - 1);
    }
    lemma_splice(q, at, delivered(t[k - 1]), p);
}

/// Law: a buffer that was filled holds no stale byte. Where no read reports
/// more bytes than its own buffer has, every byte is one that some read
/// counted: byte `p` belongs to the read during which the running count passed
/// `p`.
pub proof fn law_no_stale_bytes<E>(
    t0: Seq<Transfer<E>>,
    t1: Seq<Transfer<E>>,
    before: Seq<u8>,
    after: Seq<u8>,
    us: u32,
    p: int,
) -> (i: int)
    requires
        did_bulk_in(t0, t1, before, after, us, Ok(())),
        forall|j: int|
            t0.len() <= j < t1.len() ==> count(#[trigger] t1[j]) <= delivered(t1[j]).len(),
        0 <= p < before.len(),
    ensures
        after.len() == before.len(),
        t0.len() <= i < t1.len(),
        0 <= p - moved(t1, t0.len() as int, i) < count(t1[i]),
        after[p] == delivered(t1[i])[p - moved(t1, t0.len() as int, i)],
{
    let from = t0.len() as int;
    let total = before.len() as int;
    let i = lemma_covering_read(t1, from, t1.len() as int, p);
    assert forall|j: int| from <= j < t1.len() implies #[trigger] fits(t1, from, j, total) by {
        assert(is_bulk_in(t1[j], total - moved(t1, from, j), us));
        assert(count(t1[j]) <= delivered(t1[j]).len());
    }
    lemma_poured_len(before, t1, from, t1.len() as int);
    lemma_poured(before, t1, from, i, p, t1.len() as int);
    i
}

/// Law: whatever the outcome, no byte that was counted is lost. Where no read
/// reports more bytes than its own buffer has, byte `p` below the count is the
/// one that the read brought during which the running count passed `p`.
pub proof fn law_counted_bytes_stay<E>(
    t0: Seq<Transfer<E>>,
    t1: Seq<Transfer<E>>,
    before: Seq<u8>,
    after: Seq<u8>,
    us: u32,
    res: Result<(), Error<E>>,
    p: int,
) -> (i: int)
    requires
        did_bulk_in(t0, t1, before, after, us, res),
        forall|j: int|
            t0.len() <= j < t1.len() ==> count(#[trigger] t1[j]) <= delivered(t1[j]).len(),
        0 <= p < moved(t1, t0.len() as int, t1.len() as int),
    ensures
        after.len() == before.len(),
        t0.len() <= i < t1.len(),
        0 <= p - moved(t1, t0.len() as int, i) < count(t1[i]),
        after[p] == delivered(t1[i])[p - moved(t1, t0.len() as int, i)],
{
    let from = t0.len() as int;
    let total = before.len() as int;
    let i = lemma_covering_read(t1, from, t1.len() as int, p);
    assert forall|j: int| from <= j < t1.len() implies #[trigger] fits(t1, from, j, total) by {
        assert(is_bulk_in(t1[j], total - moved(t1, from, j), us));
        assert(count(t1[j]) <= delivered(t1[j]).len());
    }
    lemma_poured_len(before, t1, from, t1.len() as int);
    lemma_poured(before, t1, from, i, p, t1.len() as int);
    i
}

proof fn lemma_covering_read<E>(t: Seq<Transfer<E>>, from: int, to: int, p: int) -> (i: int)
    requires
        0 <= p < moved(t, from, to),
    ensures
        from <= i < to,
        moved(t, from, i) <= p < moved(t, from, i + 1),
    decreases to - from,
{
    if p < moved(t, from, to - 1) {
        lemma_covering_read(t, from, to - 1, p)
    } else {
        to - 1
    }
}

// ---------------------------------------------------------------------------
// Streams
// ---------------------------------------------------------------------------

impl<T: Transport> Driver<T> {
    /// Builds the 8-byte framing header.
    ///
    /// Byte layout: `length` as a little-endian `u32` in bytes 0-3, the
    /// descriptor tag's low nibble in byte 4, zero padding in bytes 5-7.
    #[must_use]
    pub fn build_header(tag: DescriptorTag, length: u32) -> (r: [u8; HEADER_SIZE])
        ensures
            r@ == header(tag, length),
    {
        let l = bytes::u32_le_bytes(length);
        let r = [l[0], l[1], l[2], l[3], tag.wire_number(), 0, 0, 0];
        proof {
            bytes::law_le_bytes_len(length as nat, 4);
            assert(r@ =~= header(tag, length));
        }
        r
    }

    /// Writes `data` to [`BULK_OUT_ENDPOINT`] in [`MAX_BULK_CHUNK`] pieces.
    fn bulk_out(&mut self, data: &[u8]) -> (r: Result<(), Error<T::Error>>)
        ensures
            final(self).limits() == old(self).limits(),
            did_bulk_out(
                old(self).trace(),
                final(self).trace(),
                data@,
                old(self).limits().bulk_us,
                r,
            ),
    {
        let us: u32 = self.timeouts().bulk_us;
        let total: usize = data.len();
        let mut done: usize = 0;
        let ghost t0 = self.trace();
        let ghost mut k: int = 0;
        assert(self.trace().take(t0.len() as int) =~= t0);
        while done < total
            invariant
                total == data@.len(),
                us == old(self).limits().bulk_us,
                t0 == old(self).trace(),
                self.limits() == old(self).limits(),
                k >= 0,
                done <= total,
                done < total ==> done == k * MAX_BULK_CHUNK,
                done == total ==> k == chunk_count(total as nat),
                transport::grown(t0, self.trace(), k),
                forall|i: int|
                    t0.len() <= i < self.trace().len() ==> {
                        &&& is_bulk_out(#[trigger] self.trace()[i], chunk(data@, i - t0.len()), us)
                        &&& driver::outbound(self.trace()[i]) == Ok::<(), Error<T::Error>>(())
                    },
            decreases total - done,
        {
            let size: usize = if total - done <= MAX_BULK_CHUNK {
                total - done
            } else {
                MAX_BULK_CHUNK
            };
            let piece = vstd::slice::slice_subrange(data, done, done + size);
            let ghost tm = self.trace();
            let r = self.transport().bulk_out(BULK_OUT_ENDPOINT, piece, us);
            proof {
                transport::lemma_one_more(tm, self.trace());
                assert(piece@ =~= chunk(data@, k));
                assert(MAX_BULK_CHUNK == 32768);
                lemma_chunk_count(total as nat, k);
                assert(self.trace().take(t0.len() as int) =~= t0);
            }
            match r {
                Ok(()) => {},
                Err(e) => {
                    return Err(Error::Transport(e));
                },
            }
            done = done + size;
            proof {
                assert((k + 1) * 32768 == k * 32768 + 32768);
                k = k + 1;
            }
        }
        Ok(())
    }

    /// Sends a header followed by `data` on [`BULK_OUT_ENDPOINT`].
    ///
    /// Header and payload are two bulk transfers back to back, not one.
    pub fn send_data(&mut self, tag: DescriptorTag, data: &[u8]) -> (r: Result<
        (),
        Error<T::Error>,
    >)
        ensures
            final(self).limits() == old(self).limits(),
            did_send(
                old(self).trace(),
                final(self).trace(),
                tag,
                data@,
                old(self).limits().bulk_us,
                r,
            ),
    {
        let header = Self::build_header(tag, (data.len() as u64 % 0x1_0000_0000) as u32);
        match self.bulk_out(&header) {
            Ok(()) => {},
            Err(e) => {
                return Err(e);
            },
        }
        self.bulk_out(data)
    }

    /// Sends an instruction bitstream.
    pub fn send_instructions(&mut self, data: &[u8]) -> (r: Result<(), Error<T::Error>>)
        ensures
            final(self).limits() == old(self).limits(),
            did_send(
                old(self).trace(),
                final(self).trace(),
                DescriptorTag::Instructions,
                data@,
                old(self).limits().bulk_us,
                r,
            ),
    {
        self.send_data(DescriptorTag::Instructions, data)
    }

    /// Sends input activations.
    pub fn send_inputs(&mut self, data: &[u8]) -> (r: Result<(), Error<T::Error>>)
        ensures
            final(self).limits() == old(self).limits(),
            did_send(
                old(self).trace(),
                final(self).trace(),
                DescriptorTag::InputActivations,
                data@,
                old(self).limits().bulk_us,
                r,
            ),
    {
        self.send_data(DescriptorTag::InputActivations, data)
    }

    /// Sends parameters.
    pub fn send_parameters(&mut self, data: &[u8]) -> (r: Result<(), Error<T::Error>>)
        ensures
            final(self).limits() == old(self).limits(),
            did_send(
                old(self).trace(),
                final(self).trace(),
                DescriptorTag::Parameters,
                data@,
                old(self).limits().bulk_us,
                r,
            ),
    {
        self.send_data(DescriptorTag::Parameters, data)
    }

    /// Reads output activations.
    ///
    /// No header is sent or expected: the device knows how much to return, and
    /// in what order, purely from the DMA hints already streamed to it.
    pub fn get_outputs(&mut self, buf: &mut [u8]) -> (r: Result<(), Error<T::Error>>)
        ensures
            final(self).limits() == old(self).limits(),
            final(buf)@.len() == old(buf)@.len(),
            did_bulk_in(
                old(self).trace(),
                final(self).trace(),
                old(buf)@,
                final(buf)@,
                old(self).limits().bulk_us,
                r,
            ),
    {
        self.bulk_in(buf)
    }

    /// Fills `buf` from [`BULK_IN_ENDPOINT`] in [`MAX_BULK_CHUNK`] pieces.
    ///
    /// Reads straight into the caller's slice, so a short read cannot leave
    /// stale bytes behind.
    fn bulk_in(&mut self, buf: &mut [u8]) -> (r: Result<(), Error<T::Error>>)
        ensures
            final(self).limits() == old(self).limits(),
            final(buf)@.len() == old(buf)@.len(),
            did_bulk_in(
                old(self).trace(),
                final(self).trace(),
                old(buf)@,
                final(buf)@,
                old(self).limits().bulk_us,
                r,
            ),
    {
        let us: u32 = self.timeouts().bulk_us;
        let total: usize = buf.len();
        let mut done: usize = 0;
        let ghost t0 = self.trace();
        let ghost before = buf@;
        proof {
            lemma_reading_starts(t0, before, us);
        }
        // A zero-length read is rejected below, so `done` strictly increases
        // and the loop runs at most `total` times.
        while done < total
            invariant
                total == before.len(),
                buf@.len() == total,
                before == old(buf)@,
                us == old(self).limits().bulk_us,
                t0 == old(self).trace(),
                self.limits() == old(self).limits(),
                done <= total,
                reading(t0, self.trace(), before, buf@, us, done as int),
            decreases total - done,
        {
            let size: usize = if total - done <= MAX_BULK_CHUNK {
                total - done
            } else {
                MAX_BULK_CHUNK
            };
            let ghost tm = self.trace();
            let ghost mid = buf@;
            let r = self.read_piece(buf, done, size, us);
            proof {
                lemma_one_more_read(t0, tm, self.trace(), before, mid, us, done as int);
            }
            match r {
                Ok(n) => {
                    if n == 0 || n > total - done {
                        return Err(Error::ShortTransfer { expected: size, actual: n });
                    }
                    done = done + n;
                },
                Err(e) => {
                    return Err(Error::Transport(e));
                },
            }
        }
        proof {
            lemma_reading_ends(t0, self.trace(), before, buf@, us);
        }
        Ok(())
    }

    /// One read of `size` bytes into `buf`, from `at` on.
    fn read_piece(&mut self, buf: &mut [u8], at: usize, size: usize, us: u32) -> (r: Result<
        usize,
        T::Error,
    >)
        requires
            at + size <= old(buf)@.len(),
        ensures
            final(self).limits() == old(self).limits(),
            final(buf)@.len() == old(buf)@.len(),
            transport::one_more(old(self).trace(), final(self).trace()),
            ({
                let x = final(self).trace().last();
                &&& final(buf)@ == splice(old(buf)@, at as int, delivered(x))
                &&& delivered(x).len() == size
                &&& x == (Transfer::BulkIn {
                    ep: BULK_IN_ENDPOINT,
                    data: delivered(x),
                    timeout_us: us,
                    result: r,
                })
            }),
    {
        let ghost so_far = buf@;
        assert(buf.len() == buf@.len());
        let r = {
            let (_, rest) = buf.split_at_mut(at);
            let (piece, _) = rest.split_at_mut(size);
            self.transport().bulk_in(BULK_IN_ENDPOINT, piece, us)
        };
        assert(buf@ =~= splice(so_far, at as int, delivered(self.trace().last())));
        r
    }

    /// Waits for the completion event on [`EVENT_ENDPOINT`].
    ///
    /// One 16-byte bulk read on [`EVENT_ENDPOINT`], bounded by
    /// [`Timeouts::event_us`](crate::Timeouts::event_us). Called once per
    /// inference, after every DMA hint: it is a completion barrier, and the
    /// [`Event`] fields are informational.
    ///
    /// Deliberately not an interrupt transfer; see [`Driver::poll_interrupt`].
    pub fn read_event(&mut self) -> (r: Result<Event, Error<T::Error>>)
        ensures
            final(self).limits() == old(self).limits(),
            did_read_event(
                old(self).trace(),
                final(self).trace(),
                old(self).limits().event_us,
                r,
            ),
    {
        let us: u32 = self.timeouts().event_us;
        let mut buf: [u8; EVENT_SIZE] = [0u8; EVENT_SIZE];
        let r = self.transport().bulk_in(EVENT_ENDPOINT, &mut buf, us);
        let n: usize = match r {
            Ok(n) => n,
            Err(e) => {
                return Err(Error::Transport(e));
            },
        };
        if n != EVENT_SIZE {
            return Err(Error::ShortTransfer { expected: EVENT_SIZE, actual: n });
        }
        let a = [buf[0], buf[1], buf[2], buf[3], buf[4], buf[5], buf[6], buf[7]];
        let l = [buf[8], buf[9], buf[10], buf[11]];
        assert(a@ =~= buf@.subrange(0, 8));
        assert(l@ =~= buf@.subrange(8, 12));
        Ok(Event { address: bytes::le_u64(a), length: bytes::le_u32(l), tag: buf[12] % 16 })
    }

    /// Polls the interrupt IN endpoint once, returning the byte count if
    /// anything arrived.
    ///
    /// Nothing is known about what, if anything, the device sends here, or
    /// whether the pipe survives the USB bandwidth check at all. Provided for
    /// bring-up experiments; use [`Driver::read_event`] for completion.
    pub fn poll_interrupt(&mut self, buf: &mut [u8], timeout_us: u32) -> (r: Result<
        Option<usize>,
        Error<T::Error>,
    >)
        ensures
            final(self).limits() == old(self).limits(),
            final(buf)@.len() == old(buf)@.len(),
            transport::one_more(old(self).trace(), final(self).trace()),
            final(self).trace().last() == (Transfer::InterruptIn {
                ep: INTERRUPT_ENDPOINT,
                data: final(buf)@,
                timeout_us,
                result: match r {
                    Ok(n) => Ok(n),
                    Err(e) => Err(e->Transport_0),
                },
            }),
            r matches Err(e) ==> e is Transport,
            final(self).trace().last()->InterruptIn_ep == 3,
    {
        match self.transport().interrupt_in(INTERRUPT_ENDPOINT, buf, timeout_us) {
            Ok(n) => Ok(n),
            Err(e) => Err(Error::Transport(e)),
        }
    }
}

} // verus!
