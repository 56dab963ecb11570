//! The buffers a model is made of, byte by byte.
//!
//! The laws of this module say where in a buffer the readers of [`crate::fb`]
//! and [`crate::executable`] find what they return.
use vstd::prelude::*;

use crate::bytes;
use crate::executable;
use crate::executable::{Description, ExecutableType, HintView};
use crate::fb;
use crate::fb::{FlexMapView, TableView, VectorView};
use crate::layer;
use crate::layer::DataType;
use crate::wire;

verus! {

// ---------------------------------------------------------------------------
// FlatBuffers
// ---------------------------------------------------------------------------

/// `width` bytes at `pos` are inside the buffer.
pub open spec fn inside(buf: Seq<u8>, pos: int, width: int) -> bool {
    0 <= pos && pos + width <= buf.len()
}

/// A table has the field with vtable offset `o`: the vtable is long enough to
/// say so, and its slot is not zero.
pub open spec fn has_field(t: TableView, o: int) -> bool {
    &&& inside(t.buf, t.vtable, 2)
    &&& o < wire::word16(t.buf, t.vtable)
    &&& inside(t.buf, t.vtable + o, 2)
    &&& wire::word16(t.buf, t.vtable + o) != 0
}

/// Where that field is.
pub open spec fn field_at(t: TableView, o: int) -> int {
    t.pos + wire::word16(t.buf, t.vtable + o)
}

/// The field is there with all of its `width` bytes.
pub open spec fn has_bytes(t: TableView, o: int, width: int) -> bool {
    has_field(t, o) && inside(t.buf, field_at(t, o), width)
}

/// Where the offset at `p` points: that far forward from itself.
pub open spec fn forward(buf: Seq<u8>, p: int) -> int {
    p + wire::word32(buf, p)
}

/// `t` is the table at `p`: the word there, read as two's complement, says how
/// far back from it the vtable is.
pub open spec fn is_table_at(t: TableView, buf: Seq<u8>, p: int) -> bool {
    &&& inside(buf, p, 4)
    &&& t.buf == buf
    &&& t.pos == p
    &&& t.vtable == p - wire::two(wire::word32(buf, p))
    &&& inside(buf, t.vtable, 4)
}

/// There is a table at `p`.
pub open spec fn table_fits(buf: Seq<u8>, p: int) -> bool {
    inside(buf, p, 4) && inside(buf, p - wire::two(wire::word32(buf, p)), 4)
}

proof fn lemma_scalars(buf: Seq<u8>, p: int)
    ensures
        fb::scalar(buf, p, 1) == if inside(buf, p, 1) {
            Some(buf[p] as nat)
        } else {
            None
        },
        fb::scalar(buf, p, 2) == if inside(buf, p, 2) {
            Some(wire::word16(buf, p) as nat)
        } else {
            None
        },
        fb::scalar(buf, p, 4) == if inside(buf, p, 4) {
            Some(wire::word32(buf, p) as nat)
        } else {
            None
        },
        fb::scalar(buf, p, 8) == if inside(buf, p, 8) {
            Some(wire::word64(buf, p) as nat)
        } else {
            None
        },
        inside(buf, p, 2) ==> 0 <= wire::word16(buf, p) < 0x1_0000,
        inside(buf, p, 4) ==> 0 <= wire::word32(buf, p) < 0x1_0000_0000,
        inside(buf, p, 8) ==> 0 <= wire::word64(buf, p) < 0x1_0000_0000_0000_0000,
{
    if inside(buf, p, 1) {
        bytes::lemma_le_1(buf.subrange(p, p + 1));
    }
    if inside(buf, p, 2) {
        wire::lemma_word16(buf, p);
    }
    if inside(buf, p, 4) {
        wire::lemma_word32(buf, p);
    }
    if inside(buf, p, 8) {
        wire::lemma_word64(buf, p);
    }
}

/// Law: a field is found through the vtable, and is absent where the vtable is
/// too short for it or its slot is zero.
pub proof fn law_fields(t: TableView, o: int)
    requires
        0 <= o,
    ensures
        t.field(o) == if has_field(t, o) {
            Some(field_at(t, o))
        } else {
            None
        },
{
    lemma_scalars(t.buf, t.vtable);
    lemma_scalars(t.buf, t.vtable + o);
}

/// Law: a number in a field is stored low byte first, signed ones as two's
/// complement, and a field that is absent or cut off has its default.
pub proof fn law_numbers(
    t: TableView,
    o: int,
    d8: u8,
    d16: i16,
    d32: i32,
    w32: u32,
    w64: u64,
)
    requires
        0 <= o,
    ensures
        ({
            let p = field_at(t, o);
            &&& t.u8_or(o, d8) == if has_bytes(t, o, 1) {
                t.buf[p]
            } else {
                d8
            }
            &&& t.i16_or(o, d16) == if has_bytes(t, o, 2) {
                if wire::word16(t.buf, p) < 0x8000 {
                    wire::word16(t.buf, p)
                } else {
                    wire::word16(t.buf, p) - 0x1_0000
                }
            } else {
                d16 as int
            }
            &&& t.i32_or(o, d32) == if has_bytes(t, o, 4) {
                wire::two(wire::word32(t.buf, p))
            } else {
                d32 as int
            }
            &&& t.u32_or(o, w32) == if has_bytes(t, o, 4) {
                wire::word32(t.buf, p)
            } else {
                w32 as int
            }
            &&& t.u64_or(o, w64) == if has_bytes(t, o, 8) {
                wire::word64(t.buf, p)
            } else {
                w64 as int
            }
        }),
{
    law_fields(t, o);
    if has_field(t, o) {
        lemma_scalars(t.buf, field_at(t, o));
    }
}

/// Law: the root table is where the first word of the buffer says.
pub proof fn law_root(buf: Seq<u8>)
    ensures
        match fb::root_table(buf) {
            Some(t) => inside(buf, 0, 4) && is_table_at(t, buf, wire::word32(buf, 0)),
            None => inside(buf, 0, 4) ==> !table_fits(buf, wire::word32(buf, 0)),
        },
{
    lemma_scalars(buf, 0);
    if inside(buf, 0, 4) {
        lemma_scalars(buf, wire::word32(buf, 0));
    }
}

/// Law: a field that refers to a table or to a vector holds the distance to it,
/// counted forward from the field.
pub proof fn law_references(t: TableView, o: int)
    requires
        0 <= o,
    ensures
        ({
            let p = forward(t.buf, field_at(t, o));
            &&& match t.table(o) {
                Some(u) => has_bytes(t, o, 4) && is_table_at(u, t.buf, p),
                None => has_bytes(t, o, 4) ==> !table_fits(t.buf, p),
            }
            &&& match t.vector(o) {
                Some(v) => has_bytes(t, o, 4) && inside(t.buf, p, 4) && v == (VectorView {
                    buf: t.buf,
                    data: p + 4,
                    len: wire::word32(t.buf, p),
                }),
                None => has_bytes(t, o, 4) ==> !inside(t.buf, p, 4),
            }
            &&& match t.bytes(o) {
                Some(b) => has_bytes(t, o, 4) && inside(t.buf, p, 4) && inside(
                    t.buf,
                    p + 4,
                    wire::word32(t.buf, p),
                ) && b == t.buf.subrange(p + 4, p + 4 + wire::word32(t.buf, p)),
                None => has_bytes(t, o, 4) && inside(t.buf, p, 4) ==> !inside(
                    t.buf,
                    p + 4,
                    wire::word32(t.buf, p),
                ),
            }
        }),
{
    law_fields(t, o);
    if has_field(t, o) {
        lemma_scalars(t.buf, field_at(t, o));
        if has_bytes(t, o, 4) {
            lemma_scalars(t.buf, forward(t.buf, field_at(t, o)));
        }
    }
}

/// Entry `i` of a vector of words, read as two's complement.
pub open spec fn entry(v: VectorView, i: int) -> int {
    wire::two(wire::word32(v.buf, v.data + 4 * i))
}

/// A vector has an entry `i`, with all of its four bytes.
pub open spec fn has_entry(v: VectorView, i: int) -> bool {
    0 <= i < v.len && inside(v.buf, v.data + 4 * i, 4)
}

/// Law: the entries of a vector lie end to end, four bytes each. An entry that
/// refers to a table or a string holds the distance to it, counted forward
/// from the entry.
pub proof fn law_elements(v: VectorView, i: int)
    ensures
        ({
            let p = forward(v.buf, v.data + 4 * i);
            &&& match v.i32(i) {
                Some(w) => has_entry(v, i) && w == entry(v, i),
                None => !has_entry(v, i),
            }
            &&& match v.table(i) {
                Some(u) => has_entry(v, i) && is_table_at(u, v.buf, p),
                None => has_entry(v, i) ==> !table_fits(v.buf, p),
            }
            &&& match v.str_bytes(i) {
                Some(b) => has_entry(v, i) && inside(v.buf, p, 4) && inside(
                    v.buf,
                    p + 4,
                    wire::word32(v.buf, p),
                ) && b == v.buf.subrange(p + 4, p + 4 + wire::word32(v.buf, p)),
                None => has_entry(v, i) && inside(v.buf, p, 4) ==> !inside(
                    v.buf,
                    p + 4,
                    wire::word32(v.buf, p),
                ),
            }
        }),
{
    lemma_scalars(v.buf, v.data + 4 * i);
    if has_entry(v, i) {
        lemma_scalars(v.buf, forward(v.buf, v.data + 4 * i));
    }
}

// ---------------------------------------------------------------------------
// FlexBuffers
// ---------------------------------------------------------------------------

/// The number that `width` bytes at `at` spell, the low one first, for the
/// widths there are.
pub open spec fn spelled(buf: Seq<u8>, at: int, width: int) -> int {
    if width == 1 {
        buf[at] as int
    } else if width == 2 {
        wire::word16(buf, at)
    } else if width == 4 {
        wire::word32(buf, at)
    } else {
        wire::word64(buf, at)
    }
}

/// A width, and the number that stands for it in the low bits of a packed
/// type.
pub open spec fn is_width(width: int, code: int) -> bool {
    ||| width == 1 && code == 0
    ||| width == 2 && code == 1
    ||| width == 4 && code == 2
    ||| width == 8 && code == 3
}

/// The offset of `width` bytes at `at` leads back to `to`.
pub open spec fn leads_back(buf: Seq<u8>, at: int, width: int, to: int) -> bool {
    inside(buf, at, width) && 0 <= to && spelled(buf, at, width) == at - to
}

/// `buf` holds `s` from `at` on.
pub open spec fn holds(buf: Seq<u8>, at: int, s: Seq<u8>) -> bool {
    inside(buf, at, s.len() as int) && forall|i: int|
        0 <= i < s.len() ==> #[trigger] s[i] == buf[at + i]
}

/// Where the parts of a FlexBuffer map are.
pub struct Layout {
    /// Width of the slot at the end that leads to the map.
    pub root_width: int,
    /// Width of the map's own fields.
    pub width: int,
    /// The number that stands for it.
    pub width_code: int,
    /// Width of a key's slot.
    pub key_width: int,
    /// Where value 0 is.
    pub values: int,
    /// Where key 0's slot is.
    pub keys: int,
    /// The keys, without their terminators.
    pub names: Seq<Seq<u8>>,
}

/// `buf` is a FlexBuffer whose root is a map, laid out as `l` says. The last
/// byte is the width of the root slot, the one before it the type 9 and the
/// width of the map's fields, and the slot is in front of both. In front of
/// the values are the offset of the keys, the width of their slots and the
/// number of entries; each key is terminated by a zero byte.
pub open spec fn is_map(buf: Seq<u8>, l: Layout) -> bool {
    let n = buf.len() as int;
    let count = l.names.len() as int;
    let w = l.width;
    &&& is_width(w, l.width_code)
    &&& l.root_width == 1 || l.root_width == 2 || l.root_width == 4 || l.root_width == 8
    &&& l.key_width == 1 || l.key_width == 2 || l.key_width == 4 || l.key_width == 8
    &&& n >= 3
    &&& buf[n - 1] == l.root_width
    &&& buf[n - 2] == 9 * 4 + l.width_code
    &&& leads_back(buf, n - 2 - l.root_width, l.root_width, l.values)
    &&& inside(buf, l.values - 3 * w, 3 * w)
    &&& spelled(buf, l.values - w, w) == count
    &&& spelled(buf, l.values - 2 * w, w) == l.key_width
    &&& leads_back(buf, l.values - 3 * w, w, l.keys)
    &&& forall|i: int| 0 <= i < count ==> is_key(buf, l, i, #[trigger] l.names[i])
}

/// Key `i` of the map is `name`.
pub open spec fn is_key(buf: Seq<u8>, l: Layout, i: int, name: Seq<u8>) -> bool {
    let at = l.keys + i * l.key_width;
    let start = at - spelled(buf, at, l.key_width);
    &&& leads_back(buf, at, l.key_width, start)
    &&& holds(buf, start, name)
    &&& start + name.len() < buf.len()
    &&& buf[start + name.len()] == 0
    &&& forall|j: int| 0 <= j < name.len() ==> #[trigger] name[j] != 0
}

/// Value `i` of the map is the string or blob `s`: its type, 5 or 25, is kept
/// behind the values together with the width of its length, which is in front
/// of its bytes.
pub open spec fn is_value(buf: Seq<u8>, l: Layout, i: int, s: Seq<u8>) -> bool {
    let at = l.values + i * l.width;
    let start = at - spelled(buf, at, l.width);
    let kind = l.values + l.names.len() * l.width + i;
    &&& leads_back(buf, at, l.width, start)
    &&& inside(buf, kind, 1)
    &&& buf[kind] / 4 == 5 || buf[kind] / 4 == 25
    &&& {
        let w = if buf[kind] % 4 == 0 {
            1int
        } else if buf[kind] % 4 == 1 {
            2int
        } else if buf[kind] % 4 == 2 {
            4int
        } else {
            8int
        };
        inside(buf, start - w, w) && spelled(buf, start - w, w) == s.len() && holds(buf, start, s)
    }
}

proof fn lemma_spelled(buf: Seq<u8>, at: int, width: int)
    requires
        inside(buf, at, width),
        width == 1 || width == 2 || width == 4 || width == 8,
    ensures
        fb::scalar(buf, at, width) == Some(spelled(buf, at, width) as nat),
        0 <= spelled(buf, at, width) < 0x1_0000_0000_0000_0000,
{
    lemma_scalars(buf, at);
}

proof fn lemma_leads_back(buf: Seq<u8>, at: int, width: int, to: int)
    requires
        buf.len() <= usize::MAX,
        width == 1 || width == 2 || width == 4 || width == 8,
        leads_back(buf, at, width, to),
    ensures
        fb::flex_target(buf, at, width) == Some(to),
{
    lemma_spelled(buf, at, width);
}

proof fn lemma_first_nul(buf: Seq<u8>, at: int, end: int)
    requires
        0 <= at <= end < buf.len(),
        buf[end] == 0,
        forall|j: int| at <= j < end ==> #[trigger] buf[j] != 0,
    ensures
        fb::first_nul(buf, at) == Some(end),
    decreases end - at,
{
    if at < end {
        lemma_first_nul(buf, at + 1, end);
    }
}

proof fn lemma_map_key(buf: Seq<u8>, l: Layout, m: FlexMapView, i: int)
    requires
        buf.len() <= usize::MAX,
        is_map(buf, l),
        m.buf == buf,
        m.keys == l.keys,
        m.keys_byte_width == l.key_width,
        0 <= i < l.names.len(),
    ensures
        m.key(i) == Some(l.names[i]),
{
    let name = l.names[i];
    assert(is_key(buf, l, i, name));
    let at = l.keys + i * l.key_width;
    let start = at - spelled(buf, at, l.key_width);
    lemma_leads_back(buf, at, l.key_width, start);
    assert forall|j: int| start <= j < start + name.len() implies #[trigger] buf[j] != 0 by {
        assert(name[j - start] == buf[start + (j - start)]);
    }
    lemma_first_nul(buf, start, start + name.len());
    assert(buf.subrange(start, start + name.len()) =~= name) by {
        assert forall|j: int| 0 <= j < name.len() implies name[j] == buf.subrange(
            start,
            start + name.len(),
        )[j] by {
            assert(name[j] == buf[start + j]);
        }
    }
}

proof fn lemma_map_value(buf: Seq<u8>, l: Layout, m: FlexMapView, i: int, s: Seq<u8>)
    requires
        buf.len() <= usize::MAX,
        is_map(buf, l),
        m.buf == buf,
        m.values == l.values,
        m.byte_width == l.width,
        m.len == l.names.len(),
        0 <= i < l.names.len(),
        is_value(buf, l, i, s),
    ensures
        m.value(i) == Some(s),
{
    let at = l.values + i * l.width;
    let start = at - spelled(buf, at, l.width);
    let kind = l.values + l.names.len() * l.width + i;
    lemma_leads_back(buf, at, l.width, start);
    lemma_scalars(buf, kind);
    let w = fb::flex_width(buf[kind] as int);
    lemma_spelled(buf, start - w, w);
    assert(buf.subrange(start, start + s.len()) =~= s) by {
        assert forall|j: int| 0 <= j < s.len() implies s[j] == buf.subrange(
            start,
            start + s.len(),
        )[j] by {
            assert(s[j] == buf[start + j]);
        }
    }
}

proof fn lemma_map_lookup(buf: Seq<u8>, l: Layout, m: FlexMapView, j: int, s: Seq<u8>, i: int)
    requires
        buf.len() <= usize::MAX,
        is_map(buf, l),
        m.buf == buf,
        m.values == l.values,
        m.byte_width == l.width,
        m.keys == l.keys,
        m.keys_byte_width == l.key_width,
        m.len == l.names.len(),
        0 <= i <= j < l.names.len(),
        is_value(buf, l, j, s),
        forall|k: int| 0 <= k < j ==> #[trigger] l.names[k] != l.names[j],
    ensures
        m.lookup(l.names[j], i) == Some(s),
    decreases j - i,
{
    lemma_map_key(buf, l, m, i);
    if i < j {
        assert(l.names[i] != l.names[j]);
        lemma_map_lookup(buf, l, m, j, s, i + 1);
    } else {
        lemma_map_value(buf, l, m, j, s);
    }
}

proof fn lemma_map_lacks(buf: Seq<u8>, l: Layout, m: FlexMapView, key: Seq<u8>, i: int)
    requires
        buf.len() <= usize::MAX,
        is_map(buf, l),
        m.buf == buf,
        m.keys == l.keys,
        m.keys_byte_width == l.key_width,
        m.len == l.names.len(),
        0 <= i <= l.names.len(),
        !l.names.contains(key),
    ensures
        m.lookup(key, i) is None,
    decreases l.names.len() - i,
{
    if i < l.names.len() {
        lemma_map_key(buf, l, m, i);
        assert(l.names.contains(l.names[i]));
        lemma_map_lacks(buf, l, m, key, i + 1);
    }
}

/// Law: a map that was laid out as a FlexBuffer is read as that map. Whatever
/// the widths of its root slot, its fields and its key slots, and whether they
/// agree or not, the lookup of a key yields the bytes of the first value that
/// is stored under it.
pub proof fn law_map_round_trip(buf: Seq<u8>, l: Layout, j: int, s: Seq<u8>)
    requires
        buf.len() <= usize::MAX,
        is_map(buf, l),
        0 <= j < l.names.len(),
        is_value(buf, l, j, s),
        forall|k: int| 0 <= k < j ==> #[trigger] l.names[k] != l.names[j],
    ensures
        FlexMapView::root(buf) matches Some(m) && m.lookup(l.names[j], 0) == Some(s),
{
    lemma_map_root(buf, l);
    let m = FlexMapView::root(buf)->0;
    lemma_map_lookup(buf, l, m, j, s, 0);
}

/// Law: a key that is in no entry of such a map is not found.
pub proof fn law_map_lacks_other_keys(buf: Seq<u8>, l: Layout, key: Seq<u8>)
    requires
        buf.len() <= usize::MAX,
        is_map(buf, l),
        !l.names.contains(key),
    ensures
        FlexMapView::root(buf) matches Some(m) && m.lookup(key, 0) is None,
{
    lemma_map_root(buf, l);
    let m = FlexMapView::root(buf)->0;
    lemma_map_lacks(buf, l, m, key, 0);
}

proof fn lemma_map_root(buf: Seq<u8>, l: Layout)
    requires
        buf.len() <= usize::MAX,
        is_map(buf, l),
    ensures
        FlexMapView::root(buf) == Some(
            FlexMapView {
                buf,
                values: l.values,
                keys: l.keys,
                len: l.names.len() as int,
                byte_width: l.width,
                keys_byte_width: l.key_width,
            },
        ),
{
    let n = buf.len() as int;
    let w = l.width;
    lemma_leads_back(buf, n - 2 - l.root_width, l.root_width, l.values);
    lemma_spelled(buf, l.values - w, w);
    lemma_spelled(buf, l.values - 2 * w, w);
    lemma_leads_back(buf, l.values - 3 * w, w, l.keys);
    lemma_count_fits(buf, l);
}

/// The number of entries fits, because each has a key of its own slot.
proof fn lemma_count_fits(buf: Seq<u8>, l: Layout)
    requires
        buf.len() <= usize::MAX,
        is_map(buf, l),
    ensures
        l.names.len() <= usize::MAX,
{
    let count = l.names.len() as int;
    if count > 0 {
        assert(is_key(buf, l, count - 1, l.names[count - 1]));
        assert(count - 1 <= (count - 1) * l.key_width) by (nonlinear_arith)
            requires
                count >= 1,
                l.key_width >= 1,
        ;
    }
}

/// Law: only strings and blobs are handed out. A key whose value is of another
/// type is not found, and neither is one whose value runs past the end of the
/// buffer.
pub proof fn law_map_withholds_other_values(buf: Seq<u8>, l: Layout, j: int)
    requires
        buf.len() <= usize::MAX,
        is_map(buf, l),
        0 <= j < l.names.len(),
        forall|k: int| 0 <= k < j ==> #[trigger] l.names[k] != l.names[j],
        ({
            let kind = l.values + l.names.len() * l.width + j;
            let at = l.values + j * l.width;
            let start = at - spelled(buf, at, l.width);
            ||| !inside(buf, kind, 1)
            ||| buf[kind] / 4 != 5 && buf[kind] / 4 != 25
            ||| {
                let w = if buf[kind] % 4 == 0 {
                    1int
                } else if buf[kind] % 4 == 1 {
                    2int
                } else if buf[kind] % 4 == 2 {
                    4int
                } else {
                    8int
                };
                &&& leads_back(buf, at, l.width, start)
                &&& inside(buf, start - w, w)
                &&& spelled(buf, start - w, w) <= usize::MAX
                &&& start + spelled(buf, start - w, w) > buf.len()
            }
        }),
    ensures
        FlexMapView::root(buf) matches Some(m) && m.lookup(l.names[j], 0) is None,
{
    lemma_map_root(buf, l);
    let m = FlexMapView::root(buf)->0;
    let kind = l.values + l.names.len() * l.width + j;
    let at = l.values + j * l.width;
    let start = at - spelled(buf, at, l.width);
    lemma_scalars(buf, kind);
    if inside(buf, kind, 1) && (buf[kind] / 4 == 5 || buf[kind] / 4 == 25) {
        lemma_leads_back(buf, at, l.width, start);
        lemma_spelled(buf, start - fb::flex_width(buf[kind] as int), fb::flex_width(
            buf[kind] as int,
        ));
    }
    assert(m.value(j) is None);
    lemma_map_withholds(buf, l, m, j, 0);
}

proof fn lemma_map_withholds(buf: Seq<u8>, l: Layout, m: FlexMapView, j: int, i: int)
    requires
        buf.len() <= usize::MAX,
        is_map(buf, l),
        m.buf == buf,
        m.keys == l.keys,
        m.keys_byte_width == l.key_width,
        m.len == l.names.len(),
        0 <= i <= j < l.names.len(),
        m.value(j) is None,
        forall|k: int| 0 <= k < j ==> #[trigger] l.names[k] != l.names[j],
    ensures
        m.lookup(l.names[j], i) is None,
    decreases j - i,
{
    lemma_map_key(buf, l, m, i);
    if i < j {
        assert(l.names[i] != l.names[j]);
        lemma_map_withholds(buf, l, m, j, i + 1);
    }
}

/// Law: a buffer whose root is no map, or whose widths are none of 1, 2, 4 and
/// 8, is not read as one.
pub proof fn law_other_roots_are_refused(buf: Seq<u8>)
    requires
        ({
            let n = buf.len() as int;
            ||| n < 3
            ||| buf[n - 2] / 4 != 9
            ||| !(buf[n - 1] == 1 || buf[n - 1] == 2 || buf[n - 1] == 4 || buf[n - 1] == 8)
        }),
    ensures
        FlexMapView::root(buf) is None,
        executable::custom_op_package(buf) is None,
{
}

// ---------------------------------------------------------------------------
// Packages and executables
// ---------------------------------------------------------------------------

/// Law: the package is what a custom-op payload has under the key `"4"`.
pub proof fn law_package_is_under_four(buf: Seq<u8>, l: Layout, j: int, s: Seq<u8>)
    requires
        buf.len() <= usize::MAX,
        is_map(buf, l),
        0 <= j < l.names.len(),
        l.names[j] == seq![0x34u8],
        is_value(buf, l, j, s),
        forall|k: int| 0 <= k < j ==> #[trigger] l.names[k] != l.names[j],
    ensures
        executable::custom_op_package(buf) == fb::root_table(s),
{
    law_map_round_trip(buf, l, j, s);
    assert(executable::CUSTOM_OP_EXECUTABLE_KEY@ =~= seq![0x34u8]);
}

/// Law: a payload without that key has no package.
pub proof fn law_no_package_elsewhere(buf: Seq<u8>, l: Layout)
    requires
        buf.len() <= usize::MAX,
        is_map(buf, l),
        !l.names.contains(seq![0x34u8]),
    ensures
        executable::custom_op_package(buf) is None,
{
    assert(executable::CUSTOM_OP_EXECUTABLE_KEY@ =~= seq![0x34u8]);
    law_map_lacks_other_keys(buf, l, seq![0x34u8]);
}

/// The executable whose bytes are `b` has the role that `code` stands for.
pub open spec fn has_role(b: Seq<u8>, code: int) -> bool {
    fb::root_table(b) matches Some(e) && e.i16_or(30, 0) == code
}

/// Law: the executables of a package are the strings in field 4 of what field
/// 6 of the package holds. Inference is done by the last one with the role 0
/// or 2, and parameters are cached by the last one with the role 1. There is
/// none where no executable has the role, or any of them cannot be read.
pub proof fn law_choice_of_executable(
    package: TableView,
    multi: TableView,
    list: VectorView,
    caching: bool,
    r: Option<TableView>,
    i: int,
)
    requires
        executable::is_choice(package, caching, r),
        package.bytes(6) is Some,
        fb::root_table(package.bytes(6)->0) == Some(multi),
        multi.vector(4) == Some(list),
        forall|j: int|
            0 <= j < list.len ==> (#[trigger] list.str_bytes(j) matches Some(b) && fb::root_table(
                b,
            ) is Some),
    ensures
        // The last one with the role is the choice.
        0 <= i < list.len && (if caching {
            has_role(list.str_bytes(i)->0, 1)
        } else {
            has_role(list.str_bytes(i)->0, 0) || has_role(list.str_bytes(i)->0, 2)
        }) && (forall|j: int|
            i < j < list.len ==> !(if caching {
                has_role((#[trigger] list.str_bytes(j))->0, 1)
            } else {
                has_role(list.str_bytes(j)->0, 0) || has_role(list.str_bytes(j)->0, 2)
            })) ==> r == fb::root_table(list.str_bytes(i)->0),
        // And where none has it, there is no choice.
        (forall|j: int|
            0 <= j < list.len ==> !(if caching {
                has_role((#[trigger] list.str_bytes(j))->0, 1)
            } else {
                has_role(list.str_bytes(j)->0, 0) || has_role(list.str_bytes(j)->0, 2)
            })) ==> r is None,
{
    assert(executable::package_multi(package) == Some(multi));
    assert(executable::multi_len(multi) == list.len);
    assert forall|j: int| 0 <= j < list.len implies #[trigger] executable::multi_get(multi, j)
        == fb::root_table(list.str_bytes(j)->0) by {
        assert(list.str_bytes(j) is Some);
    }
    assert(executable::all_readable(multi)) by {
        assert forall|j: int| 0 <= j < executable::multi_len(multi) implies (
        #[trigger] executable::multi_get(multi, j)) is Some by {
            assert(list.str_bytes(j) is Some);
        }
    }
    assert forall|j: int| 0 <= j < list.len implies executable::suits(
        (#[trigger] executable::multi_get(multi, j))->0,
        caching,
    ) == (if caching {
        has_role(list.str_bytes(j)->0, 1)
    } else {
        has_role(list.str_bytes(j)->0, 0) || has_role(list.str_bytes(j)->0, 2)
    }) by {
        assert(list.str_bytes(j) is Some);
    }
    if let Some(e) = r {
        let k = choose|k: int|
            executable::is_last_suitable(multi, k, caching) && #[trigger] executable::multi_get(
                multi,
                k,
            ) == Some(e);
        assert(executable::suits(executable::multi_get(multi, k)->0, caching));
        assert(list.str_bytes(k) is Some);
        if 0 <= i < list.len {
            assert(executable::multi_get(multi, i) == fb::root_table(list.str_bytes(i)->0));
        }
    } else if 0 <= i < list.len {
        assert(!executable::suits(executable::multi_get(multi, i)->0, caching));
    }
}

/// Law: one executable that cannot be read spoils the package.
pub proof fn law_unreadable_executable_spoils_the_package(
    package: TableView,
    multi: TableView,
    list: VectorView,
    caching: bool,
    r: Option<TableView>,
    i: int,
)
    requires
        executable::is_choice(package, caching, r),
        package.bytes(6) is Some,
        fb::root_table(package.bytes(6)->0) == Some(multi),
        multi.vector(4) == Some(list),
        0 <= i < list.len,
        list.str_bytes(i) matches Some(b) ==> fb::root_table(b) is None,
    ensures
        r is None,
{
    assert(executable::package_multi(package) == Some(multi));
    assert(executable::multi_get(multi, i) is None);
}

/// Law: where an executable keeps its parameters, its layers, its instruction
/// chunks, its hints and its role.
pub proof fn law_executable_fields(exe: TableView, i: int)
    ensures
        executable::parameter_blob(exe) == match exe.bytes(16) {
            Some(b) => b,
            None => Seq::empty(),
        },
        executable::layers(exe, false) == exe.vector(20),
        executable::layers(exe, true) == exe.vector(22),
        executable::bitstream(exe, i) == match exe.vector(14) {
            Some(v) => match v.table(i) {
                Some(t) => t.bytes(4),
                None => None,
            },
            None => None,
        },
        executable::relocations(exe, i) == match exe.vector(14) {
            Some(v) => match v.table(i) {
                Some(t) => t.vector(6),
                None => None,
            },
            None => None,
        },
        executable::hint_list(exe) == match exe.table(18) {
            Some(t) => t.vector(4),
            None => None,
        },
        executable::role(exe) == match exe.i16_or(30, 0) {
            0 => ExecutableType::StandAlone,
            1 => ExecutableType::ParameterCaching,
            2 => ExecutableType::ExecutionOnly,
            v => ExecutableType::Unknown(v),
        },
{
}

/// Law: how many entries a list has, by its own account and by the room its
/// buffer has for them, and where the executables of a package are.
pub proof fn law_lists(package: TableView, multi: TableView, v: VectorView, i: int)
    ensures
        executable::count(Some(v)) == v.len,
        executable::count(None) == 0,
        executable::held(Some(v)) == if v.len <= (v.buf.len() - v.data) / 4 {
            v.len
        } else {
            (v.buf.len() - v.data) / 4
        },
        executable::held(None) == 0,
        executable::element(Some(v), i) == v.table(i),
        executable::element(None, i) is None,
        executable::package_multi(package) == match package.bytes(6) {
            Some(b) => fb::root_table(b),
            None => None,
        },
        executable::multi_len(multi) == match multi.vector(4) {
            Some(list) => list.len,
            None => 0,
        },
        executable::multi_get(multi, i) == match multi.vector(4) {
            Some(list) => match list.str_bytes(i) {
                Some(b) => fb::root_table(b),
                None => None,
            },
            None => None,
        },
{
}

/// Law: where the tables keep what has no spec function of its own: the
/// caching token, the quantisation constants and the relocation entries.
pub proof fn law_other_fields()
    ensures
        executable::EXE_PARAMETER_CACHING_TOKEN == 32,
        executable::FIELD_OFFSET_META == 4,
        executable::FIELD_OFFSET_OFFSET_BIT == 6,
        layer::LAYER_NUMERICS == 14,
        layer::NUMERICS_ZERO_POINT == 4,
        layer::NUMERICS_DEQUANTIZATION_FACTOR == 6,
{
}

/// Law: a reader hands something out exactly where the buffer has it, and then
/// what the buffer has.
pub proof fn law_readers_agree_with_the_buffer<X: View>(r: Option<X>, m: Option<X::V>)
    ensures
        bytes::agrees(r, m) ==> (r is Some) == (m is Some),
        bytes::agrees(r, m) ==> (r matches Some(x) ==> m == Some(x@)),
{
}

/// Law: a layer is found by the name in field 4: the first one that has it.
pub proof fn law_layer_of_that_name(v: VectorView, name: Seq<u8>, i: int)
    requires
        0 <= v.data,
        0 <= i,
        v.table(i) matches Some(t) && t.bytes(4) == Some(name),
        forall|j: int|
            0 <= j < i ==> (#[trigger] v.table(j) matches Some(t) ==> t.bytes(4) != Some(name)
                && (t.bytes(4) is None ==> name.len() > 0)),
    ensures
        executable::find_named(Some(v), name, 0) == Some(i),
{
    executable::law_find_is_first(Some(v), name, 0);
    assert(executable::is_named(Some(v), i, name));
    let r = executable::find_named(Some(v), name, 0);
    if let Some(k) = r {
        if k < i {
            assert(executable::is_named(Some(v), k, name));
            assert(v.table(k) is Some);
        } else if k > i {
            assert(!executable::is_named(Some(v), i, name));
        }
    } else {
        assert(!executable::is_named(Some(v), i, name));
    }
}

/// Law: no layer is found by a name that none has.
pub proof fn law_no_layer_of_that_name(v: VectorView, name: Seq<u8>)
    requires
        0 <= v.data,
        forall|j: int|
            0 <= j < v.len ==> (#[trigger] v.table(j) matches Some(t) ==> t.bytes(4) != Some(name)
                && (t.bytes(4) is None ==> name.len() > 0)),
    ensures
        executable::find_named(Some(v), name, 0) is None,
{
    executable::law_find_is_first(Some(v), name, 0);
    if let Some(k) = executable::find_named(Some(v), name, 0) {
        assert(executable::is_named(Some(v), k, name));
        assert(v.table(k) is Some);
    }
}

/// Law: hint `i` is what entry `i` of the hint list refers to. Its field 4 is
/// its kind and its field 6 the hint proper. A descriptor, kind 1, has offset
/// and size in fields 6 and 8 and refers in field 4 to what it describes, with
/// description and name in fields 4 and 8. An instruction hint, kind 2, has the
/// chunk's number in field 4. Negative numbers make a hint one to ignore, and
/// so does any other kind.
pub proof fn law_hint_fields(exe: TableView, list: VectorView, h: TableView, d: TableView, i: int)
    requires
        exe.table(18) matches Some(t) && t.vector(4) == Some(list),
        list.table(i) == Some(h),
        h.table(6) == Some(d),
    ensures
        ({
            let kind = h.u8_or(4, 0);
            let (offset, size, chunk) = (d.i32_or(6, 0), d.i32_or(8, 0), d.i32_or(4, 0));
            let desc = match d.table(4) {
                Some(meta) => meta.i16_or(4, 0),
                None => 0,
            };
            let name = match d.table(4) {
                Some(meta) => match meta.bytes(8) {
                    Some(b) => b,
                    None => Seq::empty(),
                },
                None => Seq::empty(),
            };
            let hint = executable::hint_at(exe, i);
            &&& kind == 1 && offset >= 0 && size >= 0 ==> hint == (HintView::Dma {
                desc: match desc {
                    0 => Description::OutputActivation,
                    1 => Description::InputActivation,
                    2 => Description::Parameter,
                    3 => Description::Scratch,
                    v => Description::Unknown(v),
                },
                name,
                offset: offset as int,
                size: size as int,
            })
            &&& kind == 1 && (offset < 0 || size < 0) ==> hint is Ignored
            &&& kind == 2 && chunk >= 0 ==> hint == (HintView::Instruction {
                chunk_index: chunk as int,
            })
            &&& kind == 2 && chunk < 0 ==> hint is Ignored
            &&& kind != 1 && kind != 2 ==> hint is Ignored
        }),
{
}

/// Law: an entry of the hint list that refers to nothing, or to something
/// without a hint proper, is one to ignore.
pub proof fn law_missing_hints_are_ignored(exe: TableView, i: int)
    requires
        exe.table(18) matches Some(t) ==> (t.vector(4) matches Some(list) ==> (list.table(
            i,
        ) matches Some(h) ==> h.table(6) is None)),
    ensures
        executable::hint_at(exe, i) is Ignored,
{
}

/// Law: where a layer keeps its geometry, and how large its elements are. A
/// dimension below zero counts as zero, and a layer runs once unless it says
/// otherwise.
pub proof fn law_layer_fields(t: TableView)
    ensures
        layer::extent(t, 6, 0) == if t.i32_or(6, 0) < 0 {
            0
        } else {
            t.i32_or(6, 0) as int
        },
        layer::y_of(t) == if t.i32_or(8, 0) < 0 {
            0
        } else {
            t.i32_or(8, 0) as int
        },
        layer::x_of(t) == if t.i32_or(10, 0) < 0 {
            0
        } else {
            t.i32_or(10, 0) as int
        },
        layer::z_of(t) == if t.i32_or(12, 0) < 0 {
            0
        } else {
            t.i32_or(12, 0) as int
        },
        layer::executions_of(t) == if t.i32_or(22, 1) < 0 {
            0
        } else {
            t.i32_or(22, 1) as int
        },
        layer::layer_name(t) == match t.bytes(4) {
            Some(b) => b,
            None => Seq::empty(),
        },
        layer::type_of(t).size() == match t.i16_or(16, 0) {
            0 => 1int,
            1 => 2int,
            2 => 4int,
            3 => 2int,
            4 => 2int,
            5 => 4int,
            8 => 1int,
            9 => 2int,
            _ => 0int,
        },
        layer::type_of(t).signed() == (t.i16_or(16, 0) == 8 || t.i16_or(16, 0) == 9),
        layer::type_of(t) is Unknown ==> layer::type_of(t) == DataType::Unknown(t.i16_or(16, 0)),
{
}

/// Law: the size of the tensor is the product of its dimensions, its element
/// size and its executions, and what the device sends is the padded size times
/// the executions, where the products fit.
pub proof fn law_layer_sizes(t: TableView)
    ensures
        ({
            let n = layer::x_of(t) * layer::y_of(t) * layer::z_of(t) * layer::type_of(t).size()
                * layer::executions_of(t);
            layer::actual_size(t) == if n <= usize::MAX {
                n
            } else {
                usize::MAX as int
            }
        }),
        ({
            let n = layer::extent(t, 6, 0) * layer::executions_of(t);
            layer::padded_size(t) == if n <= usize::MAX {
                n
            } else {
                usize::MAX as int
            }
        }),
{
}

} // verus!
