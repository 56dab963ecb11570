//! What an inference looks like to the device.
use vstd::prelude::*;

use crate::bringup;
use crate::driver;
use crate::driver::{DescriptorTag, Event, Timeouts};
use crate::error::Error;
use crate::executable;
use crate::executable::{Description, HintView};
use crate::fb::{TableView, VectorView};
use crate::invoke;
use crate::invoke::State;
use crate::layer;
use crate::layout;
use crate::stream;
use crate::transport;
use crate::transport::Transfer;
use crate::wire;

verus! {

// ---------------------------------------------------------------------------
// Outbound streams
// ---------------------------------------------------------------------------

/// `a` is the beginning of `b`.
pub open spec fn continues<E>(a: Seq<Transfer<E>>, b: Seq<Transfer<E>>) -> bool {
    a.len() <= b.len() && forall|i: int| 0 <= i < a.len() ==> #[trigger] b[i] == a[i]
}

/// `x` is a write of `len` bytes to endpoint 1.
pub open spec fn writes<E>(x: Transfer<E>, len: int, us: u32) -> bool {
    x matches Transfer::BulkOut { ep, data, timeout_us, .. } && ep == 1 && data.len() == len
        && timeout_us == us
}

/// The bytes a write carries.
pub open spec fn written<E>(x: Transfer<E>) -> Seq<u8> {
    x->BulkOut_data
}

/// `x` announces `len` bytes on stream `number`: the length as a word, the
/// number, and three zero bytes.
pub open spec fn announces<E>(x: Transfer<E>, number: int, len: int, us: u32) -> bool {
    let h = written(x);
    &&& writes(x, 8, us)
    &&& wire::word32(h, 0) == len % 0x1_0000_0000
    &&& h[4] == number
    &&& h[5] == 0
    &&& h[6] == 0
    &&& h[7] == 0
}

/// `x` is piece `i` of `data`: the 32768 bytes from `i * 32768` on, or what is
/// left.
pub open spec fn is_piece<E>(x: Transfer<E>, data: Seq<u8>, i: int, us: u32) -> bool {
    let left = data.len() - i * 32768;
    let len = if left < 32768 {
        left
    } else {
        32768
    };
    &&& 0 < len
    &&& writes(x, len, us)
    &&& forall|b: int| 0 <= b < len ==> #[trigger] written(x)[b] == data[i * 32768 + b]
}

/// The history went from `t0` to `t1` by announcing `data` on stream `number`
/// and sending it piece by piece. On success every transfer was accepted and
/// the pieces are all there are; on failure the last transfer was not, and its
/// error is the result.
pub open spec fn streamed<E>(
    t0: Seq<Transfer<E>>,
    t1: Seq<Transfer<E>>,
    number: int,
    data: Seq<u8>,
    us: u32,
    res: Result<(), Error<E>>,
) -> bool {
    let a = t0.len() as int;
    let n = t1.len() - a - 1;
    &&& continues(t0, t1)
    &&& 0 <= n
    &&& announces(t1[a], number, data.len() as int, us)
    &&& forall|i: int| a < i < t1.len() ==> is_piece(#[trigger] t1[i], data, i - a - 1, us)
    &&& forall|i: int| a <= i < t1.len() - 1 ==> wire::accepted(#[trigger] t1[i])
    &&& match res {
        Ok(()) => wire::accepted(t1.last()) && (n - 1) * 32768 < data.len() <= n * 32768,
        Err(e) => wire::broke(t1.last(), e),
    }
}

/// The number a stream has on the wire.
pub open spec fn stream_number(tag: DescriptorTag) -> int {
    match tag {
        DescriptorTag::Instructions => 0,
        DescriptorTag::InputActivations => 1,
        DescriptorTag::Parameters => 2,
        DescriptorTag::OutputActivations => 3,
        DescriptorTag::Interrupt0 => 4,
        DescriptorTag::Interrupt1 => 5,
        DescriptorTag::Interrupt2 => 6,
        DescriptorTag::Interrupt3 => 7,
    }
}

/// The pieces of one payload.
proof fn lemma_pieces<E>(
    t0: Seq<Transfer<E>>,
    t1: Seq<Transfer<E>>,
    data: Seq<u8>,
    us: u32,
    res: Result<(), Error<E>>,
)
    requires
        stream::did_bulk_out(t0, t1, data, us, res),
    ensures
        ({
            let a = t0.len() as int;
            let n = t1.len() - a;
            &&& continues(t0, t1)
            &&& forall|i: int| a <= i < t1.len() ==> is_piece(#[trigger] t1[i], data, i - a, us)
            &&& forall|i: int| a <= i < t1.len() - 1 ==> wire::accepted(#[trigger] t1[i])
            &&& match res {
                Ok(()) => (n > 0 ==> wire::accepted(t1.last())) && (n - 1) * 32768 < data.len() <= n
                    * 32768,
                Err(e) => n > 0 && wire::broke(t1.last(), e),
            }
        }),
{
    let a = t0.len() as int;
    stream::lemma_chunk_bounds(data.len());
    assert forall|i: int| 0 <= i < t0.len() implies #[trigger] t1[i] == t0[i] by {
        assert(t1.take(a)[i] == t1[i]);
    }
    assert forall|i: int| a <= i < t1.len() implies is_piece(#[trigger] t1[i], data, i - a, us) by {
        assert(stream::is_bulk_out(t1[i], stream::chunk(data, i - a), us));
        let d = written(t1[i]);
        assert(d =~= stream::chunk(data, i - a));
    }
    assert forall|i: int| a <= i < t1.len() - 1 implies wire::accepted(#[trigger] t1[i]) by {
        assert(stream::is_bulk_out(t1[i], stream::chunk(data, i - a), us));
        assert(driver::outbound(t1[i]) == Ok::<(), Error<E>>(()));
    }
    if t1.len() > a {
        assert(stream::is_bulk_out(t1[t1.len() - 1], stream::chunk(data, t1.len() - 1 - a), us));
    }
}

/// Law: a stream is announced by its length and its number and then sent in
/// pieces of 32768 bytes, the last one with what is left.
pub proof fn law_stream_on_the_wire<E>(
    t0: Seq<Transfer<E>>,
    t1: Seq<Transfer<E>>,
    tag: DescriptorTag,
    data: Seq<u8>,
    us: u32,
    res: Result<(), Error<E>>,
)
    requires
        stream::did_send(t0, t1, tag, data, us, res),
    ensures
        streamed(t0, t1, stream_number(tag), data, us, res),
{
    let a = t0.len() as int;
    let len = (data.len() % 0x1_0000_0000) as u32;
    let h = stream::header(tag, len);
    let (tm, r) = choose|tm: Seq<Transfer<E>>, r: Result<(), Error<E>>|
        #[trigger] stream::did_bulk_out(t0, tm, h, us, r) && match r {
            Ok(()) => stream::did_bulk_out(tm, t1, data, us, res),
            Err(_) => t1 == tm && res == r,
        };
    lemma_pieces(t0, tm, h, us, r);
    stream::law_header_layout(tag, len);
    assert(tm.len() == a + 1) by {
        stream::lemma_chunk_bounds(8);
    }
    let x = tm[a];
    assert(is_piece(x, h, 0, us));
    assert(written(x) =~= h) by {
        assert forall|b: int| 0 <= b < 8 implies written(x)[b] == h[b] by {
            assert(written(x)[b] == h[0 * 32768 + b]);
        }
    }
    wire::lemma_word32(h, 0);
    assert(h.subrange(0, 4) =~= h.take(4));
    if r is Ok {
        lemma_pieces(tm, t1, data, us, res);
        assert forall|i: int| 0 <= i < t0.len() implies #[trigger] t1[i] == t0[i] by {
            assert(t1[i] == tm[i]);
        }
        assert(t1[a] == tm[a]);
        assert(tm.last() == tm[a]);
    }
}

// ---------------------------------------------------------------------------
// Inbound data
// ---------------------------------------------------------------------------

/// The byte counts that the reads from `from` up to `to` reported, added up.
#[verifier::opaque]
pub open spec fn counted<E>(t: Seq<Transfer<E>>, from: int, to: int) -> int
    decreases to - from,
{
    if to <= from {
        0
    } else {
        counted(t, from, to - 1) + match t[to - 1] {
            Transfer::BulkIn { result: Ok(n), .. } => n as int,
            _ => 0,
        }
    }
}

/// `x` is a read of endpoint 1 where `left` bytes are still wanted: it asks for
/// them all, but for no more than 32768.
pub open spec fn reads_on<E>(x: Transfer<E>, left: int, us: u32) -> bool {
    0 < left && (x matches Transfer::BulkIn { ep, data, timeout_us, .. } && ep == 1 && data.len()
        == (if left < 32768 {
        left
    } else {
        32768
    }) && timeout_us == us)
}

/// A read brought something, and no more than was wanted.
pub open spec fn brought<E>(x: Transfer<E>, left: int) -> bool {
    x matches Transfer::BulkIn { result, .. } && (result matches Ok(n) && 0 < n <= left)
}

/// A read failed: the transport says so, or it brought nothing, or more than
/// was wanted.
pub open spec fn brought_wrong<E>(x: Transfer<E>, left: int, e: Error<E>) -> bool {
    x matches Transfer::BulkIn { data, result, .. } && match result {
        Ok(n) => (n == 0 || n > left) && e == (Error::<E>::ShortTransfer {
            expected: data.len() as usize,
            actual: n,
        }),
        Err(f) => e == Error::Transport(f),
    }
}

/// No read reported more bytes than it had room for.
pub open spec fn honest<E>(t: Seq<Transfer<E>>, from: int) -> bool {
    forall|i: int|
        from <= i < t.len() ==> (#[trigger] t[i] matches Transfer::BulkIn { data, result, .. } && (
        result matches Ok(n) ==> n <= data.len()))
}

/// Byte `p` of a buffer was counted in read `i`, and is the one it brought.
pub open spec fn came_with<E>(
    t: Seq<Transfer<E>>,
    from: int,
    i: int,
    after: Seq<u8>,
    p: int,
) -> bool {
    &&& from <= i < t.len()
    &&& counted(t, from, i) <= p < counted(t, from, i + 1)
    &&& after[p] == t[i]->BulkIn_data[p - counted(t, from, i)]
}

/// Each read from `a` on asks for what is still wanted, and each but the last
/// brought some of it.
pub open spec fn read_on<E>(t: Seq<Transfer<E>>, a: int, total: int, us: u32) -> bool {
    &&& forall|i: int|
        a <= i < t.len() ==> reads_on(#[trigger] t[i], total - counted(t, a, i), us)
    &&& forall|i: int|
        a <= i < t.len() - 1 ==> brought(#[trigger] t[i], total - counted(t, a, i))
}

/// Byte `p` of a buffer came with one of the reads from `a` on.
pub open spec fn came<E>(t: Seq<Transfer<E>>, a: int, after: Seq<u8>, p: int) -> bool {
    exists|i: int| #[trigger] came_with(t, a, i, after, p)
}

/// The first `count` bytes of a buffer did.
pub open spec fn all_came<E>(t: Seq<Transfer<E>>, a: int, after: Seq<u8>, count: int) -> bool {
    forall|p: int| 0 <= p < count ==> #[trigger] came(t, a, after, p)
}

/// The history went from `t0` to `t1` by reading until a buffer was full or a
/// read failed. What was read lies end to end in the buffer.
pub open spec fn filled<E>(
    t0: Seq<Transfer<E>>,
    t1: Seq<Transfer<E>>,
    before: Seq<u8>,
    after: Seq<u8>,
    us: u32,
    res: Result<(), Error<E>>,
) -> bool {
    let a = t0.len() as int;
    let total = before.len() as int;
    &&& continues(t0, t1)
    &&& read_on(t1, a, total, us)
    &&& match res {
        Ok(()) => {
            &&& counted(t1, a, t1.len() as int) == total
            &&& t1.len() > a ==> brought(t1.last(), total - counted(t1, a, t1.len() - 1))
            &&& honest(t1, a) ==> all_came(t1, a, after, total) && after.len() == total
        },
        Err(e) => {
            &&& t1.len() > a
            &&& brought_wrong(t1.last(), total - counted(t1, a, t1.len() - 1), e)
            &&& honest(t1, a) ==> all_came(t1, a, after, counted(t1, a, t1.len() as int))
        },
    }
}

proof fn lemma_counted<E>(t: Seq<Transfer<E>>, from: int, to: int)
    ensures
        counted(t, from, to) == stream::moved(t, from, to),
    decreases to - from,
{
    reveal(counted);
    if to > from {
        lemma_counted(t, from, to - 1);
    }
}

/// What one read asked for, and what it came to.
proof fn lemma_one_read<E>(
    t0: Seq<Transfer<E>>,
    t1: Seq<Transfer<E>>,
    before: Seq<u8>,
    after: Seq<u8>,
    us: u32,
    res: Result<(), Error<E>>,
    i: int,
)
    requires
        stream::did_bulk_in(t0, t1, before, after, us, res),
        t0.len() <= i < t1.len(),
    ensures
        reads_on(t1[i], before.len() - counted(t1, t0.len() as int, i), us),
        i < t1.len() - 1 || res is Ok ==> brought(
            t1[i],
            before.len() - counted(t1, t0.len() as int, i),
        ),
        i == t1.len() - 1 ==> (res matches Err(e) ==> brought_wrong(
            t1[i],
            before.len() - counted(t1, t0.len() as int, i),
            e,
        )),
{
    let a = t0.len() as int;
    let total = before.len() as int;
    lemma_counted(t1, a, i);
    assert(stream::is_bulk_in(t1[i], total - stream::moved(t1, a, i), us));
    if i < t1.len() - 1 {
        assert(stream::read_outcome(t1[i], total - stream::moved(t1, a, i)) == Ok::<
            (),
            Error<E>,
        >(()));
    } else {
        assert(t1[i] == t1.last());
    }
}

/// Where each byte that was counted came from.
proof fn lemma_bytes_read<E>(
    t0: Seq<Transfer<E>>,
    t1: Seq<Transfer<E>>,
    before: Seq<u8>,
    after: Seq<u8>,
    us: u32,
    res: Result<(), Error<E>>,
    p: int,
)
    requires
        stream::did_bulk_in(t0, t1, before, after, us, res),
        honest(t1, t0.len() as int),
        0 <= p < counted(t1, t0.len() as int, t1.len() as int),
    ensures
        after.len() == before.len(),
        came(t1, t0.len() as int, after, p),
{
    let a = t0.len() as int;
    assert forall|j: int| a <= j < t1.len() implies stream::count(#[trigger] t1[j])
        <= stream::delivered(t1[j]).len() by {
        lemma_one_read(t0, t1, before, after, us, res, j);
    }
    lemma_counted(t1, a, t1.len() as int);
    let i = stream::law_counted_bytes_stay(t0, t1, before, after, us, res, p);
    lemma_counted(t1, a, i);
    lemma_counted(t1, a, i + 1);
    lemma_one_read(t0, t1, before, after, us, res, i);
    assert(came_with(t1, a, i, after, p));
}

proof fn lemma_read_on<E>(
    t0: Seq<Transfer<E>>,
    t1: Seq<Transfer<E>>,
    before: Seq<u8>,
    after: Seq<u8>,
    us: u32,
    res: Result<(), Error<E>>,
)
    requires
        stream::did_bulk_in(t0, t1, before, after, us, res),
    ensures
        read_on(t1, t0.len() as int, before.len() as int, us),
{
    let a = t0.len() as int;
    let total = before.len() as int;
    assert forall|i: int| a <= i < t1.len() implies reads_on(
        #[trigger] t1[i],
        total - counted(t1, a, i),
        us,
    ) by {
        lemma_one_read(t0, t1, before, after, us, res, i);
    }
    assert forall|i: int| a <= i < t1.len() - 1 implies brought(
        #[trigger] t1[i],
        total - counted(t1, a, i),
    ) by {
        lemma_one_read(t0, t1, before, after, us, res, i);
    }
}

/// The buffer was read into, said without its consequences.
#[verifier::opaque]
spec fn was_read<E>(
    t0: Seq<Transfer<E>>,
    t1: Seq<Transfer<E>>,
    before: Seq<u8>,
    after: Seq<u8>,
    us: u32,
    res: Result<(), Error<E>>,
) -> bool {
    stream::did_bulk_in(t0, t1, before, after, us, res)
}

proof fn lemma_came<E>(
    t0: Seq<Transfer<E>>,
    t1: Seq<Transfer<E>>,
    before: Seq<u8>,
    after: Seq<u8>,
    us: u32,
    res: Result<(), Error<E>>,
    p: int,
)
    requires
        was_read(t0, t1, before, after, us, res),
        honest(t1, t0.len() as int),
        0 <= p < counted(t1, t0.len() as int, t1.len() as int),
    ensures
        after.len() == before.len(),
        came(t1, t0.len() as int, after, p),
{
    reveal(was_read);
    lemma_bytes_read(t0, t1, before, after, us, res, p);
}

proof fn lemma_empty_read<E>(
    t0: Seq<Transfer<E>>,
    t1: Seq<Transfer<E>>,
    before: Seq<u8>,
    after: Seq<u8>,
    us: u32,
)
    requires
        was_read(t0, t1, before, after, us, Ok(())),
        before.len() == 0,
    ensures
        after.len() == 0,
{
    reveal(was_read);
    let a = t0.len() as int;
    if t1.len() > a {
        lemma_one_read(t0, t1, before, after, us, Ok(()), a);
        lemma_counted(t1, a, a);
    }
}

proof fn lemma_all_came<E>(
    t0: Seq<Transfer<E>>,
    t1: Seq<Transfer<E>>,
    before: Seq<u8>,
    after: Seq<u8>,
    us: u32,
    res: Result<(), Error<E>>,
)
    requires
        was_read(t0, t1, before, after, us, res),
        honest(t1, t0.len() as int),
    ensures
        all_came(
            t1,
            t0.len() as int,
            after,
            counted(t1, t0.len() as int, t1.len() as int),
        ),
        counted(t1, t0.len() as int, t1.len() as int) > 0 ==> after.len() == before.len(),
{
    let a = t0.len() as int;
    let n = counted(t1, a, t1.len() as int);
    assert forall|p: int| 0 <= p < n implies #[trigger] came(t1, a, after, p) by {
        lemma_came(t0, t1, before, after, us, res, p);
    }
    if n > 0 {
        lemma_came(t0, t1, before, after, us, res, 0);
    }
}

proof fn lemma_reads_continue<E>(t0: Seq<Transfer<E>>, t1: Seq<Transfer<E>>)
    requires
        transport::grown(t0, t1, t1.len() - t0.len()),
    ensures
        continues(t0, t1),
{
    assert forall|i: int| 0 <= i < t0.len() implies #[trigger] t1[i] == t0[i] by {
        assert(t1.take(t0.len() as int)[i] == t1[i]);
    }
}

/// Law: outputs are read from endpoint 1, each read asking for what is still
/// wanted or for 32768 bytes, until all of them are there. A read that brings
/// nothing, or more than is wanted, is an error. What is read lies end to end.
pub proof fn law_reads_on_the_wire<E>(
    t0: Seq<Transfer<E>>,
    t1: Seq<Transfer<E>>,
    before: Seq<u8>,
    after: Seq<u8>,
    us: u32,
    res: Result<(), Error<E>>,
)
    requires
        stream::did_bulk_in(t0, t1, before, after, us, res),
    ensures
        filled(t0, t1, before, after, us, res),
{
    let a = t0.len() as int;
    lemma_reads_continue(t0, t1);
    lemma_read_on(t0, t1, before, after, us, res);
    lemma_counted(t1, a, t1.len() as int);
    if t1.len() > a {
        lemma_one_read(t0, t1, before, after, us, res, t1.len() - 1);
    }
    if honest(t1, a) {
        reveal(was_read);
        lemma_all_came(t0, t1, before, after, us, res);
        if res is Ok && before.len() == 0 {
            lemma_empty_read(t0, t1, before, after, us);
        }
    }
}

/// The history went from `t0` to `t1` by one read of sixteen bytes from
/// endpoint 2.
pub open spec fn event_awaited<E>(t0: Seq<Transfer<E>>, t1: Seq<Transfer<E>>, us: u32) -> bool {
    &&& continues(t0, t1)
    &&& t1.len() == t0.len() + 1
    &&& t1.last() matches Transfer::BulkIn { ep, data, timeout_us, .. } && ep == 2 && data.len()
        == 16 && timeout_us == us
}

/// Law: a completion event is sixteen bytes from endpoint 2: an address, a
/// length and, in the low four bits of byte 12, a tag. It fails only where the
/// transfer did.
pub proof fn law_event_on_the_wire<E>(
    t0: Seq<Transfer<E>>,
    t1: Seq<Transfer<E>>,
    us: u32,
    res: Result<Event, Error<E>>,
)
    requires
        stream::did_read_event(t0, t1, us, res),
    ensures
        event_awaited(t0, t1, us),
        match res {
            Ok(ev) => {
                let d = t1.last()->BulkIn_data;
                &&& t1.last()->BulkIn_result == Ok::<usize, E>(16)
                &&& ev.address == wire::word64(d, 0)
                &&& ev.length == wire::word32(d, 8)
                &&& ev.tag == d[12] % 16
            },
            Err(e) => wire::broke(t1.last(), e),
        },
{
    transport::lemma_one_more(t0, t1);
    let d = t1.last()->BulkIn_data;
    wire::lemma_word64(d, 0);
    wire::lemma_word32(d, 8);
}

// ---------------------------------------------------------------------------
// Hints
// ---------------------------------------------------------------------------

/// The name of a layer, its field 4.
pub open spec fn name_of(t: TableView) -> Seq<u8> {
    match t.bytes(4) {
        Some(b) => b,
        None => Seq::empty(),
    }
}

/// Layer `i` of a list has this name.
pub open spec fn has_name(v: Option<VectorView>, i: int, name: Seq<u8>) -> bool {
    v matches Some(list) && (list.table(i) matches Some(t) && name_of(t) == name)
}

/// Layer `i` is the first of a list that has this name.
pub open spec fn is_first(v: Option<VectorView>, i: int, name: Seq<u8>) -> bool {
    &&& 0 <= i
    &&& has_name(v, i, name)
    &&& forall|j: int| 0 <= j < i ==> !#[trigger] has_name(v, j, name)
}

/// No layer of a list has this name.
pub open spec fn none_has(v: Option<VectorView>, name: Seq<u8>) -> bool {
    forall|j: int| 0 <= j ==> !#[trigger] has_name(v, j, name)
}

/// A stored dimension; one below zero counts as zero.
pub open spec fn dimension(t: TableView, o: int) -> int {
    if t.i32_or(o, 0) < 0 {
        0
    } else {
        t.i32_or(o, 0) as int
    }
}

/// A byte with its top bit flipped.
pub open spec fn flipped(b: u8) -> int {
    if b < 128 {
        b + 128
    } else {
        b - 128
    }
}

/// The size of a signed element, by its type number; none for other types.
pub open spec fn signed_size(code: int) -> Option<int> {
    if code == 8 {
        Some(1)
    } else if code == 9 {
        Some(2)
    } else {
        None
    }
}

/// `after` is `before` with the top bit of each element of layer `t` flipped,
/// where its elements are signed: of as many as its three dimensions make,
/// each of which keeps its top bit in its last byte.
pub open spec fn sign_fixed(t: TableView, before: Seq<u8>, after: Seq<u8>) -> bool {
    let elements = dimension(t, 10) * dimension(t, 8) * dimension(t, 12);
    &&& after.len() == before.len()
    &&& forall|j: int|
        0 <= j < before.len() ==> #[trigger] after[j] == match signed_size(
            t.i16_or(16, 0) as int,
        ) {
            Some(s) => if j % s == s - 1 && j / s < elements {
                flipped(before[j])
            } else {
                before[j] as int
            },
            None => before[j] as int,
        }
}

pub(crate) proof fn lemma_sign_fixed(t: TableView, before: Seq<u8>)
    ensures
        sign_fixed(
            t,
            before,
            if layer::type_of(t).signed() {
                layer::signs_flipped(
                    before,
                    layer::type_of(t).size(),
                    layer::x_of(t) * layer::y_of(t) * layer::z_of(t),
                )
            } else {
                before
            },
        ),
{
    layout::law_layer_fields(t);
    assert forall|b: u8| #[trigger] (b ^ 128) as int == flipped(b) by {
        assert(b ^ 128 == if b < 128 {
            (b + 128) as u8
        } else {
            (b - 128) as u8
        }) by (bit_vector);
    }
}

/// Law: the sign-bit fixup flips the top bit of the last byte of each of the
/// elements asked for, and leaves every other byte alone.
pub proof fn law_fixup_flips_the_top_bit(b: Seq<u8>, size: int, elements: int, j: int)
    requires
        0 < size,
        0 <= j < b.len(),
    ensures
        layer::signs_flipped(b, size, elements).len() == b.len(),
        layer::signs_flipped(b, size, elements)[j] == if j % size == size - 1 && j / size
            < elements {
            flipped(b[j])
        } else {
            b[j] as int
        },
{
    let v = b[j];
    assert(v ^ 128 == if v < 128 {
        (v + 128) as u8
    } else {
        (v - 128) as u8
    }) by (bit_vector);
}

/// What an input hint does to the input: it is fixed up as its layer says,
/// the first input layer of the name, and left alone where there is none.
pub open spec fn input_fixed(exe: TableView, name: Seq<u8>, before: Seq<u8>, after: Seq<u8>) -> bool {
    let v = exe.vector(20);
    &&& forall|i: int| #[trigger]
        is_first(v, i, name) ==> sign_fixed(v->0.table(i)->0, before, after)
    &&& none_has(v, name) ==> after == before
}

/// `data[offset..offset + size]` was sent on stream `number`, where `data` has
/// that range; else nothing was, and the result says what was wrong.
pub open spec fn range_streamed<E>(
    t0: Seq<Transfer<E>>,
    t1: Seq<Transfer<E>>,
    number: int,
    data: Seq<u8>,
    offset: int,
    size: int,
    what: &'static str,
    us: u32,
    res: Result<(), Error<E>>,
) -> bool {
    if offset + size <= data.len() {
        streamed(t0, t1, number, data.subrange(offset, offset + size), us, res)
    } else {
        t1 == t0 && res == Err::<(), Error<E>>(Error::Malformed(what))
    }
}

/// What an output hint does: `size` bytes are read to the front of the staging
/// buffer of the first output layer of the name.
pub open spec fn output_read<E>(
    exe: TableView,
    name: Seq<u8>,
    size: int,
    s0: State<E>,
    s1: State<E>,
    us: u32,
    res: Result<(), Error<E>>,
) -> bool {
    let v = exe.vector(22);
    &&& s1.input == s0.input
    &&& none_has(v, name) ==> s1 == s0 && res == Err::<(), Error<E>>(Error::UnknownLayer)
    &&& forall|i: int| #[trigger]
        is_first(v, i, name) ==> if i >= s0.outputs.len() {
            s1 == s0 && res == Err::<(), Error<E>>(Error::UnknownLayer)
        } else if s0.outputs[i].len() < size {
            s1 == s0 && res == Err::<(), Error<E>>(
                Error::BufferTooSmall {
                    needed: size as usize,
                    given: s0.outputs[i].len() as usize,
                },
            )
        } else {
            buffer_filled(i, size, s0, s1, us, res)
        }
}

/// The first `size` bytes of staging buffer `i` were read; the rest of it and
/// the other buffers are as they were.
pub open spec fn buffer_filled<E>(
    i: int,
    size: int,
    s0: State<E>,
    s1: State<E>,
    us: u32,
    res: Result<(), Error<E>>,
) -> bool {
    &&& s1.outputs.len() == s0.outputs.len()
    &&& s1.outputs[i].len() == s0.outputs[i].len()
    &&& forall|j: int|
        0 <= j < s0.outputs.len() && j != i ==> #[trigger] s1.outputs[j] == s0.outputs[j]
    &&& forall|p: int|
        size <= p < s0.outputs[i].len() ==> #[trigger] s1.outputs[i][p] == s0.outputs[i][p]
    &&& filled(
        s0.trace,
        s1.trace,
        s0.outputs[i].take(size),
        s1.outputs[i].take(size),
        us,
        res,
    )
}

/// What one hint does. Parameters go out on stream 2, inputs on stream 1,
/// instructions on stream 0; outputs come in; any other hint does nothing.
pub open spec fn handled<E>(
    exe: TableView,
    hint: HintView,
    s0: State<E>,
    s1: State<E>,
    us: u32,
    res: Result<(), Error<E>>,
) -> bool {
    match hint {
        HintView::Dma { desc: Description::Parameter, offset, size, .. } => {
            let blob = match exe.bytes(16) {
                Some(b) => b,
                None => Seq::empty(),
            };
            &&& s1.input == s0.input
            &&& s1.outputs == s0.outputs
            &&& range_streamed(
                s0.trace,
                s1.trace,
                2,
                blob,
                offset,
                size,
                "parameter hint out of range",
                us,
                res,
            )
        },
        HintView::Dma { desc: Description::InputActivation, name, offset, size } => {
            &&& input_fixed(exe, name, s0.input, s1.input)
            &&& s1.outputs == s0.outputs
            &&& range_streamed(
                s0.trace,
                s1.trace,
                1,
                s1.input,
                offset,
                size,
                "input hint out of range",
                us,
                res,
            )
        },
        HintView::Dma { desc: Description::OutputActivation, name, size, .. } => output_read(
            exe,
            name,
            size,
            s0,
            s1,
            us,
            res,
        ),
        HintView::Instruction { chunk_index } => {
            let chunk = match exe.vector(14) {
                Some(v) => match v.table(chunk_index) {
                    Some(t) => t.bytes(4),
                    None => None,
                },
                None => None,
            };
            &&& s1.input == s0.input
            &&& s1.outputs == s0.outputs
            &&& match chunk {
                Some(b) => streamed(s0.trace, s1.trace, 0, b, us, res),
                None => s1.trace == s0.trace && res == Err::<(), Error<E>>(
                    Error::Malformed("instruction chunk index out of range"),
                ),
            }
        },
        _ => s1 == s0 && res == Ok::<(), Error<E>>(()),
    }
}

/// The search for a name and the first of the name are the same.
proof fn lemma_first_named(v: Option<VectorView>, name: Seq<u8>)
    requires
        v matches Some(list) ==> 0 <= list.data,
    ensures
        match executable::find_named(v, name, 0) {
            Some(k) => is_first(v, k, name) && !none_has(v, name) && forall|i: int| #[trigger]
                is_first(v, i, name) ==> i == k,
            None => none_has(v, name) && forall|i: int| !#[trigger] is_first(v, i, name),
        },
{
    executable::law_find_is_first(v, name, 0);
    assert forall|i: int| #[trigger] has_name(v, i, name) == executable::is_named(v, i, name) by {}
    if let Some(k) = executable::find_named(v, name, 0) {
        assert(has_name(v, k, name));
        assert forall|i: int| #[trigger] is_first(v, i, name) implies i == k by {
            if i < k {
                assert(has_name(v, i, name));
            } else if k < i {
                assert(has_name(v, k, name));
            }
        }
    } else {
        assert forall|i: int| !#[trigger] is_first(v, i, name) by {
            if is_first(v, i, name) {
                assert(has_name(v, i, name));
            }
        }
    }
}

proof fn lemma_input_fixed(exe: TableView, name: Seq<u8>, before: Seq<u8>)
    ensures
        input_fixed(exe, name, before, invoke::fixed_up(exe, name, before)),
{
    let v = exe.vector(20);
    layout::law_references(exe, 20);
    layout::law_executable_fields(exe, 0);
    lemma_first_named(v, name);
    if let Some(k) = executable::find_named(v, name, 0) {
        assert(has_name(v, k, name));
        lemma_sign_fixed(v->0.table(k)->0, before);
    }
}

proof fn lemma_buffer_filled<E>(
    i: int,
    size: int,
    s0: State<E>,
    s1: State<E>,
    us: u32,
    res: Result<(), Error<E>>,
)
    requires
        invoke::did_fill(s0, s1, i, size, us, res),
        0 <= size <= s0.outputs[i].len(),
    ensures
        buffer_filled(i, size, s0, s1, us, res),
{
    assert(filled(
        s0.trace,
        s1.trace,
        s0.outputs[i].take(size),
        s1.outputs[i].take(size),
        us,
        res,
    )) by {
        law_reads_on_the_wire(
            s0.trace,
            s1.trace,
            s0.outputs[i].take(size),
            s1.outputs[i].take(size),
            us,
            res,
        );
    }
    lemma_same_behind(s0.outputs[i], s1.outputs[i], size);
}

proof fn lemma_same_behind(a: Seq<u8>, b: Seq<u8>, size: int)
    requires
        0 <= size <= a.len(),
        a.len() == b.len(),
        b.skip(size) == a.skip(size),
    ensures
        forall|p: int| size <= p < a.len() ==> #[trigger] b[p] == a[p],
{
    assert forall|p: int| size <= p < a.len() implies #[trigger] b[p] == a[p] by {
        assert(b.skip(size)[p - size] == b[p]);
        assert(a.skip(size)[p - size] == a[p]);
    }
}

proof fn lemma_output_read<E>(
    exe: TableView,
    name: Seq<u8>,
    size: int,
    s0: State<E>,
    s1: State<E>,
    us: u32,
    res: Result<(), Error<E>>,
)
    requires
        invoke::did_output_hint(exe, name, size, s0, s1, us, res),
        0 <= size,
    ensures
        output_read(exe, name, size, s0, s1, us, res),
{
    let v = exe.vector(22);
    layout::law_references(exe, 22);
    layout::law_executable_fields(exe, 0);
    lemma_first_named(v, name);
    if let Some(k) = executable::find_named(v, name, 0) {
        if k < s0.outputs.len() && size <= s0.outputs[k].len() {
            lemma_buffer_filled(k, size, s0, s1, us, res);
        }
    }
}

/// Law: what each hint does on the wire and to the buffers.
pub proof fn law_hint_on_the_wire<E>(
    exe: TableView,
    hint: HintView,
    s0: State<E>,
    s1: State<E>,
    us: u32,
    res: Result<(), Error<E>>,
)
    requires
        invoke::did_hint(exe, hint, s0, s1, us, res),
        hint matches HintView::Dma { offset, size, .. } ==> 0 <= offset && 0 <= size,
    ensures
        handled(exe, hint, s0, s1, us, res),
{
    let (t0, t1) = (s0.trace, s1.trace);
    match hint {
        HintView::Dma { desc: Description::Parameter, offset, size, .. } => {
            layout::law_executable_fields(exe, 0);
            let data = executable::parameter_blob(exe);
            if offset + size <= data.len() {
                law_stream_on_the_wire(
                    t0,
                    t1,
                    DescriptorTag::Parameters,
                    data.subrange(offset, offset + size),
                    us,
                    res,
                );
            }
        },
        HintView::Dma { desc: Description::InputActivation, name, offset, size } => {
            lemma_input_fixed(exe, name, s0.input);
            let data = s1.input;
            if offset + size <= data.len() {
                law_stream_on_the_wire(
                    t0,
                    t1,
                    DescriptorTag::InputActivations,
                    data.subrange(offset, offset + size),
                    us,
                    res,
                );
            }
        },
        HintView::Dma { desc: Description::OutputActivation, name, size, .. } => {
            lemma_output_read(exe, name, size, s0, s1, us, res);
        },
        HintView::Instruction { chunk_index } => {
            layout::law_executable_fields(exe, chunk_index);
            if let Some(b) = executable::bitstream(exe, chunk_index) {
                law_stream_on_the_wire(t0, t1, DescriptorTag::Instructions, b, us, res);
            }
        },
        _ => {},
    }
}

/// Law: a signed input goes out with its signs flipped. Where an input hint
/// names a layer of a signed type, byte `q` of the input is sent with its top
/// bit flipped where it is the last byte of one of the elements that the
/// layer's three dimensions make, and as it is elsewhere.
pub proof fn law_signed_input_goes_out_flipped<E>(
    exe: TableView,
    name: Seq<u8>,
    offset: int,
    size: int,
    s0: State<E>,
    s1: State<E>,
    us: u32,
    i: int,
    s: int,
    q: int,
)
    requires
        invoke::did_hint(
            exe,
            HintView::Dma { desc: Description::InputActivation, name, offset, size },
            s0,
            s1,
            us,
            Ok(()),
        ),
        0 <= offset <= q < offset + size,
        is_first(exe.vector(20), i, name),
        signed_size(exe.vector(20)->0.table(i)->0.i16_or(16, 0) as int) == Some(s),
    ensures
        ({
            let t = exe.vector(20)->0.table(i)->0;
            let elements = dimension(t, 10) * dimension(t, 8) * dimension(t, 12);
            let x = s1.trace[s0.trace.len() + 1 + (q - offset) / 32768];
            &&& q < s0.input.len()
            &&& s0.trace.len() + 1 + (q - offset) / 32768 < s1.trace.len()
            &&& x is BulkOut
            &&& (q - offset) % 32768 < written(x).len()
            &&& written(x)[(q - offset) % 32768] == if q % s == s - 1 && q / s < elements {
                flipped(s0.input[q])
            } else {
                s0.input[q] as int
            }
        }),
{
    let hint = HintView::Dma { desc: Description::InputActivation, name, offset, size };
    law_hint_on_the_wire(exe, hint, s0, s1, us, Ok(()));
    let t = exe.vector(20)->0.table(i)->0;
    assert(sign_fixed(t, s0.input, s1.input));
    let data = s1.input.subrange(offset, offset + size);
    let a = s0.trace.len() as int;
    let n = s1.trace.len() - a - 1;
    let (c, b) = ((q - offset) / 32768, (q - offset) % 32768);
    assert(c < n);
    let x = s1.trace[a + 1 + c];
    assert(is_piece(x, data, c, us));
    assert(written(x)[b] == data[c * 32768 + b]);
    assert(s1.input[q] == data[q - offset]);
}

// ---------------------------------------------------------------------------
// Inference
// ---------------------------------------------------------------------------

/// The number of hints: as many as their list claims, as far as the buffer has
/// room for them.
pub open spec fn hint_total(exe: TableView) -> int {
    match exe.table(18) {
        Some(h) => match h.vector(4) {
            Some(v) => {
                let room = (v.buf.len() - v.data) / 4;
                if v.len < room {
                    v.len
                } else {
                    room
                }
            },
            None => 0,
        },
        None => 0,
    }
}

/// The states between the hints.
proof fn lemma_states<E>(exe: TableView, k: int, s0: State<E>, s: State<E>, us: u32) -> (ss: Seq<
    State<E>,
>)
    requires
        0 <= k,
        invoke::ran_hints(exe, k, s0, s, us),
    ensures
        ss.len() == k + 1,
        ss[0] == s0,
        ss[k] == s,
        forall|i: int|
            0 <= i < k ==> #[trigger] handled(
                exe,
                executable::hint_at(exe, i),
                ss[i],
                ss[i + 1],
                us,
                Ok(()),
            ),
    decreases k,
{
    if k == 0 {
        seq![s0]
    } else {
        let hint = executable::hint_at(exe, k - 1);
        let sm = choose|sm: State<E>|
            invoke::ran_hints(exe, k - 1, s0, sm, us) && #[trigger] invoke::did_hint(
                exe,
                hint,
                sm,
                s,
                us,
                Ok(()),
            );
        let rest = lemma_states(exe, k - 1, s0, sm, us);
        let ss = rest.push(s);
        law_hint_on_the_wire(exe, hint, sm, s, us, Ok(()));
        assert forall|i: int| 0 <= i < k implies #[trigger] handled(
            exe,
            executable::hint_at(exe, i),
            ss[i],
            ss[i + 1],
            us,
            Ok(()),
        ) by {
            if i < k - 1 {
                assert(handled(exe, executable::hint_at(exe, i), rest[i], rest[i + 1], us, Ok(())));
            }
        }
        ss
    }
}

/// Law: an inference handles the hints in the order of their list, one after
/// the other, and then awaits the completion event. It ends at the first
/// failure, which is that of the hint it came to or that of the wait. The law
/// gives the states in between.
pub proof fn law_inference_on_the_wire<E>(
    exe: TableView,
    s0: State<E>,
    s1: State<E>,
    lim: Timeouts,
    res: Result<(), Error<E>>,
) -> (ss: Seq<State<E>>)
    requires
        invoke::did_invoke(exe, s0, s1, lim, res),
    ensures
        ({
            let k = ss.len() - 1;
            &&& 0 <= k <= hint_total(exe)
            &&& ss[0] == s0
            &&& forall|i: int|
                0 <= i < k ==> #[trigger] handled(
                    exe,
                    executable::hint_at(exe, i),
                    ss[i],
                    ss[i + 1],
                    lim.bulk_us,
                    Ok(()),
                )
            &&& match res {
                Ok(()) => {
                    &&& k == hint_total(exe)
                    &&& s1.input == ss[k].input
                    &&& s1.outputs == ss[k].outputs
                    &&& event_awaited(ss[k].trace, s1.trace, lim.event_us)
                    &&& s1.trace.last()->BulkIn_result == Ok::<usize, E>(16)
                },
                Err(e) => {
                    ||| {
                        &&& k == hint_total(exe)
                        &&& s1.input == ss[k].input
                        &&& s1.outputs == ss[k].outputs
                        &&& event_awaited(ss[k].trace, s1.trace, lim.event_us)
                        &&& wire::broke(s1.trace.last(), e)
                    }
                    ||| {
                        &&& k < hint_total(exe)
                        &&& handled(
                            exe,
                            executable::hint_at(exe, k),
                            ss[k],
                            s1,
                            lim.bulk_us,
                            Err(e),
                        )
                    }
                },
            }
        }),
{
    let us = lim.bulk_us;
    let n = executable::held(executable::hint_list(exe));
    layout::law_executable_fields(exe, 0);
    lemma_hint_total(exe);
    if exists|sm: State<E>, r: Result<Event, Error<E>>|
        {
            &&& #[trigger] invoke::ran_hints(exe, n, s0, sm, us)
            &&& s1.input == sm.input
            &&& s1.outputs == sm.outputs
            &&& #[trigger] stream::did_read_event(sm.trace, s1.trace, lim.event_us, r)
            &&& res == bringup::outcome(r)
        } {
        let (sm, r) = choose|sm: State<E>, r: Result<Event, Error<E>>|
            {
                &&& #[trigger] invoke::ran_hints(exe, n, s0, sm, us)
                &&& s1.input == sm.input
                &&& s1.outputs == sm.outputs
                &&& #[trigger] stream::did_read_event(sm.trace, s1.trace, lim.event_us, r)
                &&& res == bringup::outcome(r)
            };
        law_event_on_the_wire(sm.trace, s1.trace, lim.event_us, r);
        lemma_states(exe, n, s0, sm, us)
    } else {
        let (k, sm) = choose|k: int, sm: State<E>|
            {
                &&& 0 <= k < n
                &&& #[trigger] invoke::ran_hints(exe, k, s0, sm, us)
                &&& invoke::did_hint(exe, executable::hint_at(exe, k), sm, s1, us, res)
            };
        law_hint_on_the_wire(exe, executable::hint_at(exe, k), sm, s1, us, res);
        lemma_states(exe, k, s0, sm, us)
    }
}

proof fn lemma_hint_total(exe: TableView)
    ensures
        hint_total(exe) == executable::held(executable::hint_list(exe)),
        0 <= hint_total(exe),
{
    if let Some(h) = exe.table(18) {
        layout::law_references(h, 4);
    }
}

/// Law: the state of an inference is the transport's history, the input, and
/// what each staging buffer holds, in the order in which they were given.
pub proof fn law_state_is_what_was_given<T: transport::Transport>(
    d: driver::Driver<T>,
    input: Seq<u8>,
    outputs: Seq<&mut [u8]>,
    j: int,
)
    ensures
        ({
            let s = invoke::state(d, input, outputs);
            &&& s.trace == d.link().trace()
            &&& s.input == input
            &&& s.outputs.len() == outputs.len()
            &&& 0 <= j < outputs.len() ==> s.outputs[j] == (*outputs[j])@
        }),
{
}

} // verus!
