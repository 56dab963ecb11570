//! A minimal, allocation-free, panic-free FlatBuffers and FlexBuffers reader.
//!
//! The DarwiNN executable format is a FlatBuffer and the TFLite custom-op
//! payload wrapping it is a FlexBuffer map. Only a handful of tables are read,
//! so the offset arithmetic is done by hand.
//!
//! Everything in this module returns [`Option`] or a default: the bytes come
//! off a model file that this crate does not produce, and no buffer, however
//! malformed, is outside the domain of any function here.
//!
//! # FlatBuffers layout
//!
//! * The first 4 bytes of a buffer are a `uoffset32` from position 0 to the
//!   root table.
//! * A table starts with an `soffset32`; the vtable lives at
//!   `table_pos - soffset`.
//! * A vtable is `u16 vtable_bytes`, `u16 table_bytes`, then one `u16` per
//!   field. A slot value of `0`, or an offset past `vtable_bytes`, means "field
//!   absent, use the default".
//! * `uoffset32` values stored inside tables and vectors are relative to the
//!   position of the offset field itself, and always point forward.
//! * A vector is `u32 len` followed by `len` elements. A string is a vector of
//!   bytes with an extra NUL terminator that is not counted in `len`.
use vstd::prelude::*;

use crate::bytes;

verus! {

// ---------------------------------------------------------------------------
// Model: scalars
// ---------------------------------------------------------------------------

/// The little-endian number in the `width` bytes at `pos`, where they are all
/// inside the buffer.
pub open spec fn scalar(buf: Seq<u8>, pos: int, width: int) -> Option<nat> {
    if 0 <= pos && pos + width <= buf.len() {
        Some(bytes::le(buf.subrange(pos, pos + width)))
    } else {
        None
    }
}

/// A 64-bit count or offset as a `usize` keeps it.
pub open spec fn narrow(v: nat) -> int {
    (v as u64 as usize) as int
}

/// A computed position agrees with the model, or was given up because it lies
/// outside the buffer.
pub open spec fn reaches(r: Option<usize>, m: Option<int>, buf: Seq<u8>) -> bool {
    match r {
        Some(p) => m == Some(p as int),
        None => match m {
            Some(p) => p > buf.len(),
            None => true,
        },
    }
}

// ---------------------------------------------------------------------------
// Model: FlatBuffers
// ---------------------------------------------------------------------------

/// What a [`Table`] stands for.
pub struct TableView {
    /// The whole buffer.
    pub buf: Seq<u8>,
    /// Where the table starts.
    pub pos: int,
    /// Where its vtable starts.
    pub vtable: int,
}

/// What a [`Vector`] stands for.
pub struct VectorView {
    /// The whole buffer.
    pub buf: Seq<u8>,
    /// Where element 0 starts.
    pub data: int,
    /// Number of elements the buffer claims.
    pub len: int,
}

/// The root table of a FlatBuffer.
pub open spec fn root_table(buf: Seq<u8>) -> Option<TableView> {
    match scalar(buf, 0, 4) {
        Some(off) => TableView::at(buf, off as int),
        None => None,
    }
}

impl TableView {
    /// The table whose header is at `pos`, where its vtable header is inside
    /// the buffer.
    pub open spec fn at(buf: Seq<u8>, pos: int) -> Option<TableView> {
        match scalar(buf, pos, 4) {
            Some(v) => {
                let vtable = pos - bytes::signed32(v);
                if vtable >= 0 && vtable + 4 <= buf.len() {
                    Some(TableView { buf, pos, vtable })
                } else {
                    None
                }
            },
            None => None,
        }
    }

    /// Where the field's data is, unless the field is absent.
    pub open spec fn field(self, vt_offset: int) -> Option<int> {
        match scalar(self.buf, self.vtable, 2) {
            Some(vtable_bytes) => if vt_offset >= vtable_bytes {
                None
            } else {
                match scalar(self.buf, self.vtable + vt_offset, 2) {
                    Some(slot) => if slot == 0 {
                        None
                    } else {
                        Some(self.pos + slot)
                    },
                    None => None,
                }
            },
            None => None,
        }
    }

    /// The unsigned number of `width` bytes in a field.
    pub open spec fn number(self, vt_offset: int, width: int) -> Option<nat> {
        match self.field(vt_offset) {
            Some(p) => scalar(self.buf, p, width),
            None => None,
        }
    }

    /// A byte field, or its default.
    pub open spec fn u8_or(self, vt_offset: int, default: u8) -> u8 {
        match self.number(vt_offset, 1) {
            Some(v) => v as u8,
            None => default,
        }
    }

    /// A 16-bit signed field, or its default.
    pub open spec fn i16_or(self, vt_offset: int, default: i16) -> i16 {
        match self.number(vt_offset, 2) {
            Some(v) => bytes::signed16(v) as i16,
            None => default,
        }
    }

    /// A 32-bit signed field, or its default.
    pub open spec fn i32_or(self, vt_offset: int, default: i32) -> i32 {
        match self.number(vt_offset, 4) {
            Some(v) => bytes::signed32(v) as i32,
            None => default,
        }
    }

    /// A 32-bit word field, or its default.
    pub open spec fn u32_or(self, vt_offset: int, default: u32) -> u32 {
        match self.number(vt_offset, 4) {
            Some(v) => v as u32,
            None => default,
        }
    }

    /// A 64-bit field, or its default.
    pub open spec fn u64_or(self, vt_offset: int, default: u64) -> u64 {
        match self.number(vt_offset, 8) {
            Some(v) => v as u64,
            None => default,
        }
    }

    /// Where the offset stored in a field points.
    pub open spec fn indirect(self, vt_offset: int) -> Option<int> {
        match self.field(vt_offset) {
            Some(p) => match scalar(self.buf, p, 4) {
                Some(rel) => Some(p + rel),
                None => None,
            },
            None => None,
        }
    }

    /// The table a field points at.
    pub open spec fn table(self, vt_offset: int) -> Option<TableView> {
        match self.indirect(vt_offset) {
            Some(p) => TableView::at(self.buf, p),
            None => None,
        }
    }

    /// The vector a field points at.
    pub open spec fn vector(self, vt_offset: int) -> Option<VectorView> {
        match self.indirect(vt_offset) {
            Some(p) => VectorView::at(self.buf, p),
            None => None,
        }
    }

    /// The byte vector or string a field points at.
    pub open spec fn bytes(self, vt_offset: int) -> Option<Seq<u8>> {
        match self.vector(vt_offset) {
            Some(v) => v.as_bytes(),
            None => None,
        }
    }
}

impl VectorView {
    /// The vector whose length prefix is at `pos`.
    pub open spec fn at(buf: Seq<u8>, pos: int) -> Option<VectorView> {
        match scalar(buf, pos, 4) {
            Some(len) => Some(VectorView { buf, data: pos + 4, len: len as int }),
            None => None,
        }
    }

    /// The elements as bytes, where they are all inside the buffer.
    pub open spec fn as_bytes(self) -> Option<Seq<u8>> {
        if self.data + self.len <= self.buf.len() {
            Some(self.buf.subrange(self.data, self.data + self.len))
        } else {
            None
        }
    }

    /// How many 32-bit elements the buffer has room for, out of those the
    /// length prefix claims.
    pub open spec fn held(self) -> int {
        let room = (self.buf.len() - self.data) / 4;
        if self.len <= room {
            self.len
        } else {
            room
        }
    }

    /// Element `i` of a vector of 32-bit words.
    pub open spec fn word(self, i: int) -> Option<nat> {
        if 0 <= i < self.len {
            scalar(self.buf, self.data + 4 * i, 4)
        } else {
            None
        }
    }

    /// Element `i` of an `[int]` vector.
    pub open spec fn i32(self, i: int) -> Option<i32> {
        match self.word(i) {
            Some(v) => Some(bytes::signed32(v) as i32),
            None => None,
        }
    }

    /// Where the offset in element `i` points.
    pub open spec fn offset_element(self, i: int) -> Option<int> {
        match self.word(i) {
            Some(rel) => Some(self.data + 4 * i + rel),
            None => None,
        }
    }

    /// Element `i` of a vector of tables.
    pub open spec fn table(self, i: int) -> Option<TableView> {
        match self.offset_element(i) {
            Some(p) => TableView::at(self.buf, p),
            None => None,
        }
    }

    /// Element `i` of a vector of strings.
    pub open spec fn str_bytes(self, i: int) -> Option<Seq<u8>> {
        match self.offset_element(i) {
            Some(p) => match VectorView::at(self.buf, p) {
                Some(v) => v.as_bytes(),
                None => None,
            },
            None => None,
        }
    }
}

// ---------------------------------------------------------------------------
// Model: FlexBuffers
// ---------------------------------------------------------------------------

/// What a [`FlexMap`] stands for.
pub struct FlexMapView {
    /// The whole buffer.
    pub buf: Seq<u8>,
    /// Where value 0 starts.
    pub values: int,
    /// Where key 0 starts.
    pub keys: int,
    /// Number of entries the buffer claims.
    pub len: int,
    /// Width of a value slot.
    pub byte_width: int,
    /// Width of a key slot.
    pub keys_byte_width: int,
}

/// The widths a FlexBuffers scalar can have.
pub open spec fn is_flex_width(w: int) -> bool {
    w == 1 || w == 2 || w == 4 || w == 8
}

/// The width that the low two bits of a packed type select.
pub open spec fn flex_width(packed: int) -> int {
    if packed % 4 == 0 {
        1
    } else if packed % 4 == 1 {
        2
    } else if packed % 4 == 2 {
        4
    } else {
        8
    }
}

/// Where the offset at `pos` points: FlexBuffers offsets count backwards.
pub open spec fn flex_target(buf: Seq<u8>, pos: int, width: int) -> Option<int> {
    match scalar(buf, pos, width) {
        Some(rel) => if narrow(rel) <= pos {
            Some(pos - narrow(rel))
        } else {
            None
        },
        None => None,
    }
}

/// Position of the first NUL at or after `start`.
pub open spec fn first_nul(buf: Seq<u8>, start: int) -> Option<int>
    decreases buf.len() - start,
{
    if start < 0 || start >= buf.len() {
        None
    } else if buf[start] == 0 {
        Some(start)
    } else {
        first_nul(buf, start + 1)
    }
}

impl FlexMapView {
    /// The root map of a FlexBuffer.
    ///
    /// The last byte is the width of the root slot, the one before it the
    /// root's packed type, and the slot itself sits in front of the two. In
    /// front of a map's values stand, from the left, the offset of its keys,
    /// the width of a key and the number of entries.
    pub open spec fn root(buf: Seq<u8>) -> Option<FlexMapView> {
        let n = buf.len() as int;
        if n < 3 || !is_flex_width(buf[n - 1] as int) || buf[n - 2] / 4 != FBT_MAP {
            None
        } else {
            let root_width = buf[n - 1] as int;
            let w = flex_width(buf[n - 2] as int);
            match flex_target(buf, n - 2 - root_width, root_width) {
                None => None,
                Some(values) => match (
                    scalar(buf, values - w, w),
                    scalar(buf, values - 2 * w, w),
                    flex_target(buf, values - 3 * w, w),
                ) {
                    (Some(len), Some(kw), Some(keys)) => if is_flex_width(narrow(kw)) {
                        Some(
                            FlexMapView {
                                buf,
                                values,
                                keys,
                                len: narrow(len),
                                byte_width: w,
                                keys_byte_width: narrow(kw),
                            },
                        )
                    } else {
                        None
                    },
                    _ => None,
                },
            }
        }
    }

    /// Key `i`, up to but not including its NUL.
    pub open spec fn key(self, i: int) -> Option<Seq<u8>> {
        match flex_target(self.buf, self.keys + i * self.keys_byte_width, self.keys_byte_width) {
            Some(start) => match first_nul(self.buf, start) {
                Some(end) => Some(self.buf.subrange(start, end)),
                None => None,
            },
            None => None,
        }
    }

    /// The bytes of value `i`, where it is a string or a blob.
    pub open spec fn value(self, i: int) -> Option<Seq<u8>> {
        match (
            scalar(self.buf, self.values + self.len * self.byte_width + i, 1),
            flex_target(self.buf, self.values + i * self.byte_width, self.byte_width),
        ) {
            (Some(packed), Some(data)) => {
                let w = flex_width(packed as int);
                match scalar(self.buf, data - w, w) {
                    Some(len) => if (packed / 4 == FBT_STRING || packed / 4 == FBT_BLOB) && data
                        + narrow(len) <= self.buf.len() {
                        Some(self.buf.subrange(data, data + narrow(len)))
                    } else {
                        None
                    },
                    None => None,
                }
            },
            _ => None,
        }
    }

    /// The value of the first entry at or after `i` whose key is `key`,
    /// provided every key up to it can be read.
    pub open spec fn lookup(self, key: Seq<u8>, i: int) -> Option<Seq<u8>>
        decreases self.len - i,
    {
        if i >= self.len {
            None
        } else {
            match self.key(i) {
                Some(k) => if k == key {
                    self.value(i)
                } else {
                    self.lookup(key, i + 1)
                },
                None => None,
            }
        }
    }
}

// ---------------------------------------------------------------------------
// Laws
// ---------------------------------------------------------------------------

/// `b` is a stretch of `buf`.
pub open spec fn is_part(b: Seq<u8>, buf: Seq<u8>) -> bool {
    exists|i: int|
        0 <= i && i + b.len() <= buf.len() && b == #[trigger] buf.subrange(i, i + b.len())
}

/// Law: however many elements a length prefix claims, those the buffer has
/// room for are no more than it has bytes, and the rest cannot be read.
pub proof fn law_elements_past_the_buffer_are_absent(v: VectorView, i: int)
    requires
        0 <= v.data,
        v.held() <= i,
    ensures
        v.held() <= v.buf.len(),
        v.i32(i) is None,
        v.table(i) is None,
        v.str_bytes(i) is None,
{
}

/// Law: a map lookup, which stops at the first key it cannot read, looks at no
/// more keys than the buffer has bytes.
pub proof fn law_keys_past_the_buffer_are_absent(m: FlexMapView, i: int)
    requires
        0 <= m.keys,
        1 <= m.keys_byte_width,
        m.buf.len() <= i,
    ensures
        m.key(i) is None,
{
    assert(i <= i * m.keys_byte_width) by (nonlinear_arith)
        requires
            0 <= i,
            1 <= m.keys_byte_width,
    ;
}

/// Law: whatever a buffer holds, a byte string read out of it through a table
/// field, a vector of strings or a map is a stretch of that same buffer.
pub proof fn law_reads_stay_inside(
    t: TableView,
    v: VectorView,
    m: FlexMapView,
    vt_offset: int,
    i: int,
    key: Seq<u8>,
)
    requires
        t.pos >= 0,
        v.data >= 0,
    ensures
        t.bytes(vt_offset) matches Some(b) ==> is_part(b, t.buf),
        v.str_bytes(i) matches Some(b) ==> is_part(b, v.buf),
        m.lookup(key, 0) matches Some(b) ==> is_part(b, m.buf),
{
    if let Some(x) = t.vector(vt_offset) {
        lemma_as_bytes_inside(x);
    }
    if let Some(p) = v.offset_element(i) {
        if let Some(x) = VectorView::at(v.buf, p) {
            lemma_as_bytes_inside(x);
        }
    }
    lemma_lookup_inside(m, key, 0);
}

proof fn lemma_as_bytes_inside(x: VectorView)
    requires
        x.data >= 0,
        x.len >= 0,
    ensures
        x.as_bytes() matches Some(b) ==> is_part(b, x.buf),
{
    if let Some(b) = x.as_bytes() {
        assert(b == x.buf.subrange(x.data, x.data + b.len()));
    }
}

proof fn lemma_lookup_inside(m: FlexMapView, key: Seq<u8>, i: int)
    ensures
        m.lookup(key, i) matches Some(b) ==> is_part(b, m.buf),
    decreases m.len - i,
{
    if i < m.len {
        if let Some(k) = m.key(i) {
            if k == key {
                if let Some(b) = m.value(i) {
                    let at = flex_target(
                        m.buf,
                        m.values + i * m.byte_width,
                        m.byte_width,
                    )->0;
                    assert(b == m.buf.subrange(at, at + b.len()));
                }
            } else {
                lemma_lookup_inside(m, key, i + 1);
            }
        }
    }
}

// ---------------------------------------------------------------------------
// Scalar reads
// ---------------------------------------------------------------------------

fn u8_at(buf: &[u8], pos: usize) -> (r: Option<u8>)
    ensures
        match r {
            Some(v) => scalar(buf@, pos as int, 1) == Some(v as nat),
            None => scalar(buf@, pos as int, 1) is None,
        },
{
    if pos < buf.len() {
        proof {
            bytes::lemma_le_1(buf@.subrange(pos as int, pos + 1));
        }
        Some(buf[pos])
    } else {
        None
    }
}

fn u16_at(buf: &[u8], pos: usize) -> (r: Option<u16>)
    ensures
        match r {
            Some(v) => scalar(buf@, pos as int, 2) == Some(v as nat),
            None => scalar(buf@, pos as int, 2) is None,
        },
{
    if buf.len() < 2 || pos > buf.len() - 2 {
        return None;
    }
    let b: [u8; 2] = [buf[pos], buf[pos + 1]];
    assert(b@ =~= buf@.subrange(pos as int, pos + 2));
    Some(bytes::le_u16(b))
}

fn u32_at(buf: &[u8], pos: usize) -> (r: Option<u32>)
    ensures
        match r {
            Some(v) => scalar(buf@, pos as int, 4) == Some(v as nat),
            None => scalar(buf@, pos as int, 4) is None,
        },
{
    if buf.len() < 4 || pos > buf.len() - 4 {
        return None;
    }
    let b: [u8; 4] = [buf[pos], buf[pos + 1], buf[pos + 2], buf[pos + 3]];
    assert(b@ =~= buf@.subrange(pos as int, pos + 4));
    Some(bytes::le_u32(b))
}

fn u64_at(buf: &[u8], pos: usize) -> (r: Option<u64>)
    ensures
        match r {
            Some(v) => scalar(buf@, pos as int, 8) == Some(v as nat),
            None => scalar(buf@, pos as int, 8) is None,
        },
{
    if buf.len() < 8 || pos > buf.len() - 8 {
        return None;
    }
    let b: [u8; 8] = [
        buf[pos],
        buf[pos + 1],
        buf[pos + 2],
        buf[pos + 3],
        buf[pos + 4],
        buf[pos + 5],
        buf[pos + 6],
        buf[pos + 7],
    ];
    assert(b@ =~= buf@.subrange(pos as int, pos + 8));
    Some(bytes::le_u64(b))
}

proof fn lemma_le_fits_u64(s: Seq<u8>)
    requires
        s.len() <= 8,
    ensures
        bytes::le(s) <= u64::MAX,
{
    reveal_with_fuel(bytes::le, 9);
}

/// Reads a little-endian unsigned integer of `width` bytes.
///
/// Used by the FlexBuffers reader, where the width of every scalar is carried
/// out-of-band instead of being implied by the schema.
fn uint_at(buf: &[u8], pos: usize, width: usize) -> (r: Option<u64>)
    requires
        width <= 8,
    ensures
        match r {
            Some(v) => scalar(buf@, pos as int, width as int) == Some(v as nat),
            None => scalar(buf@, pos as int, width as int) is None,
        },
{
    if buf.len() < width || pos > buf.len() - width {
        return None;
    }
    let mut v: u64 = 0;
    let mut i: usize = width;
    proof {
        reveal(bytes::le);
        bytes::lemma_slice_len(buf);
    }
    assert(bytes::le(buf@.subrange(pos + i, pos + width)) == 0);
    while i > 0
        invariant
            i <= width <= 8,
            pos + width <= buf@.len() <= usize::MAX,
            v as nat == bytes::le(buf@.subrange(pos + i, pos + width)),
        decreases i,
    {
        i = i - 1;
        proof {
            let s = buf@.subrange(pos + i, pos + width);
            reveal(bytes::le);
            lemma_le_fits_u64(s);
            assert(s.drop_first() =~= buf@.subrange(pos + i + 1, pos + width));
        }
        v = v * 256 + buf[pos + i] as u64;
    }
    Some(v)
}

// ---------------------------------------------------------------------------
// FlatBuffers
// ---------------------------------------------------------------------------

/// A view of one FlatBuffers table inside a buffer.
#[derive(Clone, Copy, Debug)]
pub struct Table<'a> {
    buf: &'a [u8],
    pos: usize,
    vtable: usize,
}

impl<'a> View for Table<'a> {
    type V = TableView;

    closed spec fn view(&self) -> TableView {
        TableView { buf: self.buf@, pos: self.pos as int, vtable: self.vtable as int }
    }
}

/// A view of one FlatBuffers vector.
#[derive(Clone, Copy, Debug)]
pub struct Vector<'a> {
    buf: &'a [u8],
    /// Position of element 0 (the `u32` length prefix sits just before it).
    data: usize,
    len: usize,
}

impl<'a> View for Vector<'a> {
    type V = VectorView;

    closed spec fn view(&self) -> VectorView {
        VectorView { buf: self.buf@, data: self.data as int, len: self.len as int }
    }
}

/// Returns the root table of a FlatBuffer.
pub fn root<'a>(buf: &'a [u8]) -> (r: Option<Table<'a>>)
    ensures
        bytes::agrees(r, root_table(buf@)),
{
    match u32_at(buf, 0) {
        Some(off) => Table::at(buf, off as usize),
        None => None,
    }
}

impl<'a> Table<'a> {
    /// Builds a table view for the table whose header starts at `pos`.
    fn at(buf: &'a [u8], pos: usize) -> (r: Option<Self>)
        ensures
            bytes::agrees(r, TableView::at(buf@, pos as int)),
    {
        proof {
            bytes::lemma_slice_len(buf);
        }
        // The leading soffset32 is signed and is *subtracted* from the table
        // position, so vtables may live either before or after the table.
        let soff: i32 = match u32_at(buf, pos) {
            Some(v) => bytes::word_to_i32(v),
            None => {
                return None;
            },
        };
        let vtable: Option<usize> = if soff >= 0 {
            pos.checked_sub(soff as usize)
        } else {
            pos.checked_add((-(soff as i64)) as usize)
        };
        match vtable {
            // Require at least the two-u16 vtable header to be in bounds.
            Some(vtable) => if buf.len() >= 4 && vtable <= buf.len() - 4 {
                Some(Table { buf, pos, vtable })
            } else {
                None
            },
            None => None,
        }
    }

    /// Absolute position of the field's data, or `None` when the field is
    /// absent and the caller should use the schema default.
    fn field(&self, vt_offset: u16) -> (r: Option<usize>)
        ensures
            reaches(r, self@.field(vt_offset as int), self@.buf),
    {
        proof {
            bytes::lemma_slice_len(self.buf);
        }
        let vtable_bytes: u16 = u16_at(self.buf, self.vtable)?;
        if vt_offset >= vtable_bytes {
            return None;
        }
        let slot: u16 = u16_at(self.buf, self.vtable.checked_add(vt_offset as usize)?)?;
        if slot == 0 {
            return None;
        }
        self.pos.checked_add(slot as usize)
    }

    /// Follows the `uoffset32` stored in `vt_offset` to its absolute target.
    fn indirect(&self, vt_offset: u16) -> (r: Option<usize>)
        ensures
            reaches(r, self@.indirect(vt_offset as int), self@.buf),
    {
        proof {
            bytes::lemma_slice_len(self.buf);
        }
        let p: usize = self.field(vt_offset)?;
        let rel: u32 = u32_at(self.buf, p)?;
        p.checked_add(rel as usize)
    }

    /// Reads a `u8`/`bool` field, or `default` when absent.
    pub fn u8(&self, vt_offset: u16, default: u8) -> (r: u8)
        ensures
            r == self@.u8_or(vt_offset as int, default),
    {
        match self.field(vt_offset) {
            Some(p) => match u8_at(self.buf, p) {
                Some(v) => v,
                None => default,
            },
            None => default,
        }
    }

    /// Reads an `i16` field (FlatBuffers enums default to `short`), or
    /// `default` when absent.
    pub fn i16(&self, vt_offset: u16, default: i16) -> (r: i16)
        ensures
            r == self@.i16_or(vt_offset as int, default),
    {
        match self.field(vt_offset) {
            Some(p) => match u16_at(self.buf, p) {
                Some(v) => bytes::word_to_i16(v),
                None => default,
            },
            None => default,
        }
    }

    /// Reads an `i32` field, or `default` when absent.
    pub fn i32(&self, vt_offset: u16, default: i32) -> (r: i32)
        ensures
            r == self@.i32_or(vt_offset as int, default),
    {
        match self.field(vt_offset) {
            Some(p) => match u32_at(self.buf, p) {
                Some(v) => bytes::word_to_i32(v),
                None => default,
            },
            None => default,
        }
    }

    /// Reads a `u64` field, or `default` when absent.
    pub fn u64(&self, vt_offset: u16, default: u64) -> (r: u64)
        ensures
            r == self@.u64_or(vt_offset as int, default),
    {
        match self.field(vt_offset) {
            Some(p) => match u64_at(self.buf, p) {
                Some(v) => v,
                None => default,
            },
            None => default,
        }
    }

    /// Reads the bit pattern of a single-precision float field, or `default`
    /// when absent.
    pub fn float_bits(&self, vt_offset: u16, default: u32) -> (r: u32)
        ensures
            r == self@.u32_or(vt_offset as int, default),
    {
        match self.field(vt_offset) {
            Some(p) => match u32_at(self.buf, p) {
                Some(v) => v,
                None => default,
            },
            None => default,
        }
    }

    /// Reads a nested-table field.
    pub fn table(&self, vt_offset: u16) -> (r: Option<Table<'a>>)
        ensures
            bytes::agrees(r, self@.table(vt_offset as int)),
    {
        Table::at(self.buf, self.indirect(vt_offset)?)
    }

    /// Reads a union value field. The union's discriminant lives in a separate
    /// `u8` field, which the caller checks first.
    pub fn union(&self, vt_offset: u16) -> (r: Option<Table<'a>>)
        ensures
            bytes::agrees(r, self@.table(vt_offset as int)),
    {
        self.table(vt_offset)
    }

    /// Reads a vector field.
    pub fn vector(&self, vt_offset: u16) -> (r: Option<Vector<'a>>)
        ensures
            bytes::agrees(r, self@.vector(vt_offset as int)),
    {
        Vector::at(self.buf, self.indirect(vt_offset)?)
    }

    /// Reads a `[ubyte]` field as a borrowed slice.
    pub fn bytes(&self, vt_offset: u16) -> (r: Option<&'a [u8]>)
        ensures
            bytes::agrees(r, self@.bytes(vt_offset as int)),
    {
        let v = self.vector(vt_offset)?;
        v.as_bytes()
    }

    /// Reads a `string` field as a borrowed slice, without the NUL terminator.
    ///
    /// Returned as bytes rather than `&str`: DarwiNN layer names are ASCII in
    /// practice, but nothing in the format guarantees UTF-8 and a validation
    /// failure here must not cost the caller its layer lookup.
    pub fn str_bytes(&self, vt_offset: u16) -> (r: Option<&'a [u8]>)
        ensures
            bytes::agrees(r, self@.bytes(vt_offset as int)),
    {
        let v = self.vector(vt_offset)?;
        v.as_bytes()
    }
}

impl<'a> Vector<'a> {
    fn at(buf: &'a [u8], pos: usize) -> (r: Option<Self>)
        ensures
            bytes::agrees(r, VectorView::at(buf@, pos as int)),
    {
        proof {
            bytes::lemma_slice_len(buf);
        }
        let len: u32 = u32_at(buf, pos)?;
        Some(Vector { buf, data: pos + 4, len: len as usize })
    }

    /// Number of elements.
    pub fn len(&self) -> (r: usize)
        ensures
            r == self@.len,
    {
        self.len
    }

    /// Number of 32-bit elements the buffer has room for, out of those the
    /// length prefix claims.
    pub(crate) fn held(&self) -> (r: usize)
        requires
            0 <= self@.data <= self@.buf.len(),
        ensures
            r == self@.held(),
    {
        let room: usize = (self.buf.len() - self.data) / 4;
        if self.len <= room {
            self.len
        } else {
            room
        }
    }

    /// The whole vector as a byte slice, for `[ubyte]` vectors and strings.
    pub fn as_bytes(&self) -> (r: Option<&'a [u8]>)
        ensures
            bytes::agrees(r, self@.as_bytes()),
    {
        proof {
            bytes::lemma_slice_len(self.buf);
        }
        let end: usize = self.data.checked_add(self.len)?;
        if end <= self.buf.len() {
            Some(vstd::slice::slice_subrange(self.buf, self.data, end))
        } else {
            None
        }
    }

    /// Position of element `i` of a vector of 32-bit words.
    fn word_at(&self, i: usize) -> (r: Option<usize>)
        ensures
            reaches(
                r,
                if i < self@.len {
                    Some(self@.data + 4 * i)
                } else {
                    None
                },
                self@.buf,
            ),
    {
        proof {
            bytes::lemma_slice_len(self.buf);
        }
        if i >= self.len {
            return None;
        }
        self.data.checked_add(i.checked_mul(4)?)
    }

    /// Element `i` of an `[int]`/`[uint]` vector.
    pub fn i32(&self, i: usize) -> (r: Option<i32>)
        ensures
            r == self@.i32(i as int),
    {
        let p: usize = self.word_at(i)?;
        let v: u32 = u32_at(self.buf, p)?;
        Some(bytes::word_to_i32(v))
    }

    /// Element `i` of a vector of tables.
    pub fn table(&self, i: usize) -> (r: Option<Table<'a>>)
        ensures
            bytes::agrees(r, self@.table(i as int)),
    {
        Table::at(self.buf, self.offset_element(i)?)
    }

    /// Element `i` of a vector of strings, without the NUL terminator.
    pub fn str_bytes(&self, i: usize) -> (r: Option<&'a [u8]>)
        ensures
            bytes::agrees(r, self@.str_bytes(i as int)),
    {
        let v = Vector::at(self.buf, self.offset_element(i)?)?;
        v.as_bytes()
    }

    /// Resolves element `i` of a vector of `uoffset32`.
    fn offset_element(&self, i: usize) -> (r: Option<usize>)
        ensures
            reaches(r, self@.offset_element(i as int), self@.buf),
    {
        proof {
            bytes::lemma_slice_len(self.buf);
        }
        let p: usize = self.word_at(i)?;
        let rel: u32 = u32_at(self.buf, p)?;
        p.checked_add(rel as usize)
    }
}

// ---------------------------------------------------------------------------
// FlexBuffers
// ---------------------------------------------------------------------------

/// FlexBuffers type tag for a map.
pub const FBT_MAP: u8 = 9;

/// FlexBuffers type tag for a string.
pub const FBT_STRING: u8 = 5;

/// FlexBuffers type tag for a blob.
pub const FBT_BLOB: u8 = 25;

/// A view of the root FlexBuffers map of a buffer.
///
/// TFLite hands a custom op its options as a FlexBuffer map; key `"4"` holds
/// the serialised DarwiNN `Package`.
#[derive(Clone, Copy, Debug)]
pub struct FlexMap<'a> {
    buf: &'a [u8],
    /// Position of value 0 of the values vector.
    values: usize,
    /// Position of key 0 of the keys vector.
    keys: usize,
    len: usize,
    byte_width: usize,
    keys_byte_width: usize,
}

impl<'a> View for FlexMap<'a> {
    type V = FlexMapView;

    closed spec fn view(&self) -> FlexMapView {
        FlexMapView {
            buf: self.buf@,
            values: self.values as int,
            keys: self.keys as int,
            len: self.len as int,
            byte_width: self.byte_width as int,
            keys_byte_width: self.keys_byte_width as int,
        }
    }
}

/// The width that the low two bits of a packed type select.
fn packed_width(packed: u8) -> (r: usize)
    ensures
        r == flex_width(packed as int),
{
    match packed % 4 {
        0 => 1,
        1 => 2,
        2 => 4,
        _ => 8,
    }
}

/// A FlexBuffers offset counts *backwards* from the position of the offset
/// field, unlike a FlatBuffers `uoffset32`.
fn flex_indirect(buf: &[u8], pos: usize, width: usize) -> (r: Option<usize>)
    requires
        width <= 8,
    ensures
        match r {
            Some(p) => flex_target(buf@, pos as int, width as int) == Some(p as int),
            None => flex_target(buf@, pos as int, width as int) is None,
        },
{
    let rel: u64 = uint_at(buf, pos, width)?;
    pos.checked_sub(rel as usize)
}

impl<'a> FlexMap<'a> {
    #[verifier::type_invariant]
    closed spec fn wf(self) -> bool {
        &&& is_flex_width(self.byte_width as int)
        &&& is_flex_width(self.keys_byte_width as int)
    }

    /// Parses the root of a FlexBuffer and returns it if it is a map.
    ///
    /// The root of a FlexBuffer is stored at the *end* of the buffer: the last
    /// byte is the width of the root *slot*, the byte before it is the root's
    /// packed type, and the root value occupies that many bytes before it.
    ///
    /// Two different widths are in play and conflating them is the easy
    /// mistake here. The root slot width is what the offset itself is read at.
    /// The map's own width, covering its length, its key-vector fields and its
    /// element stride, comes from the low two bits of the packed type. In the
    /// models this crate loads the first is 1 and the second is 4.
    pub fn root(buf: &'a [u8]) -> (r: Option<Self>)
        ensures
            bytes::agrees(r, FlexMapView::root(buf@)),
    {
        let n: usize = buf.len();
        if n < 3 {
            return None;
        }
        let root_width: usize = buf[n - 1] as usize;
        if !(root_width == 1 || root_width == 2 || root_width == 4 || root_width == 8) {
            return None;
        }
        let packed_type: u8 = buf[n - 2];
        if packed_type / 4 != FBT_MAP {
            return None;
        }
        let byte_width: usize = packed_width(packed_type);
        let value_pos: usize = (n - 2).checked_sub(root_width)?;
        let values: usize = flex_indirect(buf, value_pos, root_width)?;

        // A map is a vector of values with three extra fields in front of it:
        // [keys_offset][keys_byte_width][length][value 0]...
        let len: u64 = uint_at(buf, values.checked_sub(byte_width)?, byte_width)?;
        let keys_byte_width: u64 = uint_at(buf, values.checked_sub(2 * byte_width)?, byte_width)?;
        let keys_byte_width: usize = keys_byte_width as usize;
        if !(keys_byte_width == 1 || keys_byte_width == 2 || keys_byte_width == 4
            || keys_byte_width == 8) {
            return None;
        }
        let keys_offset_pos: usize = values.checked_sub(3 * byte_width)?;
        let keys: usize = flex_indirect(buf, keys_offset_pos, byte_width)?;

        Some(FlexMap { buf, values, keys, len: len as usize, byte_width, keys_byte_width })
    }

    /// The NUL-terminated key `i`, without its terminator.
    fn key(&self, i: usize) -> (r: Option<&'a [u8]>)
        ensures
            bytes::agrees(r, self@.key(i as int)),
    {
        proof {
            use_type_invariant(self);
            bytes::lemma_slice_len(self.buf);
        }
        let p: usize = self.keys.checked_add(i.checked_mul(self.keys_byte_width)?)?;
        let start: usize = flex_indirect(self.buf, p, self.keys_byte_width)?;
        let mut end: usize = start;
        while end < self.buf.len()
            invariant
                start <= end,
                flex_target(
                    self@.buf,
                    self@.keys + i * self@.keys_byte_width,
                    self@.keys_byte_width,
                ) == Some(start as int),
                start <= self.buf@.len() ==> end <= self.buf@.len(),
                first_nul(self.buf@, start as int) == first_nul(self.buf@, end as int),
            decreases self.buf@.len() - end,
        {
            if self.buf[end] == 0 {
                return Some(vstd::slice::slice_subrange(self.buf, start, end));
            }
            end = end + 1;
        }
        None
    }

    /// The string or blob stored under `key`, as raw bytes.
    ///
    /// Keys are sorted in a FlexBuffers map, but the maps this crate reads have
    /// a handful of entries, so this scans them linearly instead of binary
    /// searching. A linear scan does not depend on that ordering and is bounded
    /// by the map length.
    pub fn bytes(&self, key: &[u8]) -> (r: Option<&'a [u8]>)
        ensures
            bytes::agrees(r, self@.lookup(key@, 0)),
    {
        let mut i: usize = 0;
        while i < self.len
            invariant
                self@.lookup(key@, 0) == self@.lookup(key@, i as int),
            decreases self.len - i,
        {
            let k = self.key(i)?;
            if bytes::same_bytes(k, key) {
                return self.value(i);
            }
            i = i + 1;
        }
        None
    }

    /// The string or blob in entry `i`.
    fn value(&self, i: usize) -> (r: Option<&'a [u8]>)
        ensures
            bytes::agrees(r, self@.value(i as int)),
    {
        proof {
            use_type_invariant(self);
            bytes::lemma_slice_len(self.buf);
        }
        let value_pos: usize = self.values.checked_add(i.checked_mul(self.byte_width)?)?;
        let type_pos: usize = self.values.checked_add(
            self.len.checked_mul(self.byte_width)?,
        )?.checked_add(i)?;
        let packed: u8 = u8_at(self.buf, type_pos)?;
        if packed / 4 != FBT_STRING && packed / 4 != FBT_BLOB {
            return None;
        }
        // The value's own width comes from the low two bits of its packed
        // type; the *offset* is read at the parent vector's width.
        let elem_width: usize = packed_width(packed);
        let data: usize = flex_indirect(self.buf, value_pos, self.byte_width)?;
        let len: u64 = uint_at(self.buf, data.checked_sub(elem_width)?, elem_width)?;
        let end: usize = data.checked_add(len as usize)?;
        if end <= self.buf.len() {
            Some(vstd::slice::slice_subrange(self.buf, data, end))
        } else {
            None
        }
    }
}

} // verus!
