//! The relayout of a layer's tile-scattered output into a flat tensor.
use vstd::prelude::*;

use crate::bytes;
use crate::executable::LayoutError;
use crate::fb::{TableView, Vector, VectorView};
use crate::layer;
use crate::layer::Layer;

verus! {

// --- vtable offsets ---------------------------------------------------------

/// `Layer.any_layer_type`.
pub const LAYER_ANY_LAYER_TYPE: u16 = 18;

/// `Layer.any_layer`.
pub const LAYER_ANY_LAYER: u16 = 20;

/// `OutputLayer.layout`.
pub const OUTPUT_LAYER_LAYOUT: u16 = 4;

/// `OutputLayout.y_coordinate_to_linear_tile_id_map`.
pub const LAYOUT_Y_TO_TILE_ID: u16 = 4;

/// `OutputLayout.x_coordinate_to_linear_tile_id_map`.
pub const LAYOUT_X_TO_TILE_ID: u16 = 6;

/// `OutputLayout.linearized_tile_byte_offset`.
pub const LAYOUT_TILE_BYTE_OFFSET: u16 = 8;

/// `OutputLayout.x_coordinate_to_local_byte_offset`.
pub const LAYOUT_X_TO_LOCAL_BYTE_OFFSET: u16 = 10;

/// `OutputLayout.y_coordinate_to_local_y_offset`.
pub const LAYOUT_Y_TO_LOCAL_Y_OFFSET: u16 = 12;

/// `OutputLayout.x_coordinate_to_local_y_row_size`.
pub const LAYOUT_X_TO_LOCAL_Y_ROW_SIZE: u16 = 14;

/// `AnyLayer` discriminant of an `OutputLayer`.
pub const ANY_LAYER_OUTPUT_LAYER: u8 = 1;

// ---------------------------------------------------------------------------
// Model: the tile maps
// ---------------------------------------------------------------------------

/// The six parallel `[int32]` tile maps of an `OutputLayout`.
pub struct Maps {
    /// Row to tile ID.
    pub y_to_tile_id: VectorView,
    /// Column to tile ID.
    pub x_to_tile_id: VectorView,
    /// Tile to where it starts.
    pub tile_byte_offset: VectorView,
    /// Column to its place in a row of the tile.
    pub x_to_local_byte_offset: VectorView,
    /// Row to its place in the tile.
    pub y_to_local_y_offset: VectorView,
    /// Column to the length of a row of the tile.
    pub x_to_local_y_row_size: VectorView,
}

/// The tile maps of a layer, when it carries an `OutputLayer` with all six.
pub open spec fn maps_of(t: TableView) -> Option<Maps> {
    if t.u8_or(LAYER_ANY_LAYER_TYPE as int, 0) != ANY_LAYER_OUTPUT_LAYER {
        None
    } else {
        match t.table(LAYER_ANY_LAYER as int) {
            None => None,
            Some(output) => match output.table(OUTPUT_LAYER_LAYOUT as int) {
                None => None,
                Some(l) => match (
                    l.vector(LAYOUT_Y_TO_TILE_ID as int),
                    l.vector(LAYOUT_X_TO_TILE_ID as int),
                    l.vector(LAYOUT_TILE_BYTE_OFFSET as int),
                    l.vector(LAYOUT_X_TO_LOCAL_BYTE_OFFSET as int),
                    l.vector(LAYOUT_Y_TO_LOCAL_Y_OFFSET as int),
                    l.vector(LAYOUT_X_TO_LOCAL_Y_ROW_SIZE as int),
                ) {
                    (Some(a), Some(b), Some(c), Some(d), Some(e), Some(f)) => Some(
                        Maps {
                            y_to_tile_id: a,
                            x_to_tile_id: b,
                            tile_byte_offset: c,
                            x_to_local_byte_offset: d,
                            y_to_local_y_offset: e,
                            x_to_local_y_row_size: f,
                        },
                    ),
                    _ => None,
                },
            },
        }
    }
}

impl Maps {
    /// The `(tile ID, local y)` pair of a row.
    pub open spec fn row(self, y: int) -> Result<(int, int), LayoutError> {
        match (self.y_to_tile_id.i32(y), self.y_to_local_y_offset.i32(y)) {
            (None, _) => Err(LayoutError::Malformed("y_coordinate_to_linear_tile_id_map")),
            (Some(_), None) => Err(LayoutError::Malformed("y_coordinate_to_local_y_offset")),
            (Some(tile), Some(local)) => Ok((tile as int, local as int)),
        }
    }

    /// Where the element at column `x` of a row is, counted in elements.
    ///
    /// The row's and the column's tile IDs add up to the tile. What its start,
    /// the column's place in a row of the tile, and the rows before it come to
    /// is the index.
    pub open spec fn index(self, row: (int, int), x: int) -> Result<int, LayoutError> {
        match self.x_to_tile_id.i32(x) {
            None => Err(LayoutError::Malformed("x_coordinate_to_linear_tile_id_map")),
            Some(id) => {
                let tile = row.0 + id;
                if tile < 0 {
                    Err(LayoutError::Malformed("negative tile id"))
                } else {
                    match (
                        self.tile_byte_offset.i32(tile),
                        self.x_to_local_byte_offset.i32(x),
                        self.x_to_local_y_row_size.i32(x),
                    ) {
                        (None, _, _) => Err(
                            LayoutError::Malformed("linearized_tile_byte_offset"),
                        ),
                        (_, None, _) => Err(
                            LayoutError::Malformed("x_coordinate_to_local_byte_offset"),
                        ),
                        (_, _, None) => Err(
                            LayoutError::Malformed("x_coordinate_to_local_y_row_size"),
                        ),
                        (Some(global), Some(local_x), Some(row_size)) => {
                            let at = global + row.1 * row_size + local_x;
                            if 0 <= at <= usize::MAX {
                                Ok(at)
                            } else {
                                Err(LayoutError::Malformed("negative buffer index"))
                            }
                        },
                    }
                }
            },
        }
    }

    /// Where the element at `(y, x)` is, counted in elements.
    pub open spec fn index_of(self, y: int, x: int) -> Result<int, LayoutError> {
        match self.row(y) {
            Ok(row) => self.index(row, x),
            Err(e) => Err(e),
        }
    }

    /// First column of the run of equal tile IDs that `x` is in.
    pub open spec fn run_start(self, x: int) -> int
        decreases x,
    {
        if x > 0 && self.x_to_tile_id.i32(x) == self.x_to_tile_id.i32(x - 1) {
            self.run_start(x - 1)
        } else {
            x
        }
    }

    /// One past the last column of the run of equal tile IDs that `x` is in.
    pub open spec fn run_end(self, x: int, x_dim: int) -> int
        decreases x_dim - x,
    {
        if x + 1 < x_dim && self.x_to_tile_id.i32(x + 1) == self.x_to_tile_id.i32(x) {
            self.run_end(x + 1, x_dim)
        } else {
            x + 1
        }
    }
}

// ---------------------------------------------------------------------------
// Model: copying piece by piece
// ---------------------------------------------------------------------------

/// Byte `k` of piece `c` in a row of pieces of `size` bytes.
pub open spec fn spot(c: int, size: int, k: int) -> int {
    c * size + k
}

/// The first `n` pieces of `size` bytes have been copied, each from its own
/// place in `src`, and nothing else of the destination has changed.
pub open spec fn copied(
    before: Seq<u8>,
    after: Seq<u8>,
    src: Seq<u8>,
    size: int,
    places: Seq<Result<int, LayoutError>>,
    n: int,
) -> bool {
    &&& after.len() == before.len()
    &&& forall|c: int, k: int|
        0 <= c < n && 0 <= k < size ==> #[trigger] after[spot(c, size, k)] == src[places[c]->Ok_0
            + k]
    &&& forall|j: int| n * size <= j < before.len() ==> #[trigger] after[j] == before[j]
}

/// A copy with the result `res` has dealt with `n` places: with all of them,
/// or with those in front of the first that is an error, which then is the
/// result.
pub open spec fn ended(
    places: Seq<Result<int, LayoutError>>,
    res: Result<(), LayoutError>,
    n: int,
) -> bool {
    &&& 0 <= n <= places.len()
    &&& forall|c: int| 0 <= c < n ==> #[trigger] places[c] is Ok
    &&& match res {
        Ok(()) => n == places.len(),
        Err(e) => n < places.len() && places[n] == Err::<int, LayoutError>(e),
    }
}

/// The pieces were copied in order, up to the first whose place is an error;
/// that error, if any, is the result.
pub open spec fn did_copy(
    before: Seq<u8>,
    after: Seq<u8>,
    src: Seq<u8>,
    size: int,
    places: Seq<Result<int, LayoutError>>,
    res: Result<(), LayoutError>,
) -> bool {
    exists|n: int|
        #[trigger] ended(places, res, n) && copied(before, after, src, size, places, n)
}

// ---------------------------------------------------------------------------
// Model: relayout
// ---------------------------------------------------------------------------

/// The distance between the pieces of two neighbouring coordinates.
///
/// Derived from the maps, except that pieces of one or three bytes are always
/// four apart.
pub open spec fn stride(m: Maps, x_dim: int, dts: int, z_bytes: int) -> Result<int, LayoutError> {
    if z_bytes == 1 || z_bytes == 3 {
        Ok(4)
    } else {
        match m.index_of(0, 0) {
            Err(e) => Err(e),
            Ok(base) => match if x_dim > 1 {
                m.index_of(0, 1)
            } else {
                m.index_of(1, 0)
            } {
                Err(e) => Err(e),
                Ok(next) => if next < base {
                    Err(LayoutError::Malformed("negative z stride"))
                } else {
                    Ok(bytes::sat((next - base) * dts))
                },
            },
        }
    }
}

/// What a walk over the coordinates of a layer needs to know.
pub struct Plan {
    /// The tile maps.
    pub maps: Maps,
    /// Number of columns.
    pub x_dim: int,
    /// Number of rows.
    pub y_dim: int,
    /// Number of executions.
    pub executions: int,
    /// Bytes from one execution to the next.
    pub size_bytes: int,
    /// Bytes per element.
    pub dts: int,
    /// Bytes per coordinate.
    pub z_bytes: int,
    /// Bytes from one coordinate to the next of the same run.
    pub stride: int,
    /// Length of the source.
    pub src_len: int,
    /// Length of the destination.
    pub dst_len: usize,
    /// Size of the flat tensor.
    pub needed: usize,
}

impl Plan {
    /// Number of coordinates.
    pub open spec fn coordinates(self) -> int {
        self.y_dim * self.x_dim
    }

    /// How much the destination receives per coordinate: nothing where a row
    /// has no columns or the layer does not run.
    pub open spec fn piece(self) -> int {
        if self.x_dim == 0 || self.executions == 0 {
            0
        } else {
            self.z_bytes
        }
    }

    /// How often the coordinates are walked: once per execution, and once
    /// where the destination receives nothing.
    pub open spec fn rounds(self) -> int {
        if self.piece() == 0 {
            1
        } else {
            self.executions
        }
    }

    /// The number of the piece that round `k` has at `(y, x)`. The pieces are
    /// counted round by round and, in each, row by row.
    pub open spec fn number(self, k: int, y: int, x: int) -> int {
        k * self.coordinates() + y * self.x_dim + x
    }

    /// The round that piece `c` is in.
    pub open spec fn round_at(self, c: int) -> int {
        c / self.coordinates()
    }

    /// The row that piece `c` is in.
    pub open spec fn row_at(self, c: int) -> int {
        (c % self.coordinates()) / self.x_dim
    }

    /// The column that piece `c` is in.
    pub open spec fn column_at(self, c: int) -> int {
        (c % self.coordinates()) % self.x_dim
    }

    /// Where the first execution's piece at `(y, x)` starts in the source.
    ///
    /// The maps place the first column of each run of equal tile IDs; the rest
    /// of the run follows at the stride. Finding the end of the run takes the
    /// tile ID after it, unless the run is the last of the row.
    pub open spec fn source(self, y: int, x: int) -> Result<int, LayoutError> {
        let first = self.maps.run_start(x);
        let end = self.maps.run_end(x, self.x_dim);
        match self.maps.row(y) {
            Err(e) => Err(e),
            Ok(row) => if self.maps.x_to_tile_id.i32(x) is None || (end < self.x_dim
                && self.maps.x_to_tile_id.i32(end) is None) {
                Err(LayoutError::Malformed("x_coordinate_to_linear_tile_id_map"))
            } else {
                match self.maps.index(row, first) {
                    Err(e) => Err(e),
                    Ok(at) => Ok(
                        bytes::sat(bytes::sat(at * self.dts) + (x - first) * self.stride),
                    ),
                }
            },
        }
    }

    /// The place of the piece that round `k` has at `(y, x)`: where it starts
    /// in the source, provided the source holds all of the coordinate and the
    /// destination has room for the piece.
    ///
    /// Executions lie end to end, so every one of them shifts the source by
    /// the padded size.
    pub open spec fn place_at(self, k: int, y: int, x: int) -> Result<int, LayoutError> {
        match self.source(y, x) {
            Err(e) => Err(e),
            Ok(first) => {
                let at = bytes::sat(first + k * self.size_bytes);
                if at + self.z_bytes > self.src_len {
                    Err(LayoutError::Malformed("relayout source out of range"))
                } else if (self.number(k, y, x) + 1) * self.piece() > self.dst_len {
                    Err(LayoutError::BufferTooSmall { needed: self.needed, given: self.dst_len })
                } else {
                    Ok(at)
                }
            },
        }
    }

    /// The place of piece `c`. [`law_pieces_are_numbered_in_order`] says it
    /// without divisions.
    #[verifier::opaque]
    pub open spec fn place(self, c: int) -> Result<int, LayoutError> {
        self.place_at(self.round_at(c), self.row_at(c), self.column_at(c))
    }

    /// The places of all pieces. A row without columns has no piece, but is
    /// still looked up.
    pub open spec fn places(self) -> Seq<Result<int, LayoutError>> {
        if self.x_dim == 0 {
            Seq::new(
                self.y_dim as nat,
                |y: int|
                    match self.maps.row(y) {
                        Ok(_) => Ok(0),
                        Err(e) => Err(e),
                    },
            )
        } else {
            Seq::new((self.rounds() * self.coordinates()) as nat, |c: int| self.place(c))
        }
    }

    /// Counts, sizes and distances are natural numbers.
    pub open spec fn is_natural(self) -> bool {
        &&& 0 <= self.x_dim
        &&& 0 <= self.y_dim
        &&& 0 <= self.executions
        &&& 0 <= self.size_bytes
        &&& 0 <= self.dts
        &&& 0 <= self.z_bytes
        &&& 0 <= self.stride
    }
}

/// Where the data of execution `i` starts, provided source and destination
/// both have room for it. The destination has, unless the total is more than a
/// `usize` can count.
pub open spec fn strip_place(
    i: int,
    z_bytes: int,
    pad: int,
    src_len: int,
    dst_len: usize,
    total: usize,
) -> Result<int, LayoutError> {
    let at = bytes::sat(i * (z_bytes + pad));
    if at + z_bytes > src_len {
        Err(LayoutError::Malformed("relayout source too short"))
    } else if (i + 1) * z_bytes > dst_len {
        Err(LayoutError::BufferTooSmall { needed: total, given: dst_len })
    } else {
        Ok(at)
    }
}

/// The places of all executions.
pub open spec fn strip_places(
    n: int,
    z_bytes: int,
    pad: int,
    src_len: int,
    dst_len: usize,
    total: usize,
) -> Seq<Result<int, LayoutError>> {
    Seq::new(n as nat, |i: int| strip_place(i, z_bytes, pad, src_len, dst_len, total))
}

/// Whether a layer is a plain vector.
pub open spec fn is_vector(t: TableView) -> bool {
    layer::x_of(t) == 1 && layer::y_of(t) == 1
}

/// Bytes per coordinate of a layer.
pub open spec fn z_bytes_of(t: TableView) -> int {
    bytes::sat(layer::z_of(t) * layer::type_of(t).size())
}

/// What a plain vector comes to, all executions of it.
pub open spec fn total_of(t: TableView) -> int {
    bytes::sat(z_bytes_of(t) * layer::executions_of(t))
}

/// Whether a plain vector is copied as it is: there is one execution, or no
/// padding behind any of them.
pub open spec fn is_unpadded(t: TableView) -> bool {
    layer::executions_of(t) == 1 || layer::padded_size(t) == layer::actual_size(t)
}

/// The padding behind each execution of a plain vector.
pub open spec fn padding_of(t: TableView) -> int {
    let padded = layer::padded_size(t);
    let actual = layer::actual_size(t);
    if padded > actual {
        (padded - actual) / layer::executions_of(t)
    } else {
        0
    }
}

/// The places of all executions of a padded vector.
pub open spec fn vector_places(t: TableView, src: Seq<u8>, before: Seq<u8>) -> Seq<
    Result<int, LayoutError>,
> {
    strip_places(
        layer::executions_of(t),
        z_bytes_of(t),
        padding_of(t),
        src.len() as int,
        before.len() as usize,
        total_of(t) as usize,
    )
}

/// The relayout of a plain vector: a copy, or one copy per execution that
/// leaves the padding behind each of them out.
pub open spec fn did_relayout_vector(
    t: TableView,
    src: Seq<u8>,
    before: Seq<u8>,
    after: Seq<u8>,
    res: Result<(), LayoutError>,
) -> bool {
    let total = total_of(t);
    if before.len() < total {
        &&& after == before
        &&& res == Err::<(), LayoutError>(
            LayoutError::BufferTooSmall { needed: total as usize, given: before.len() as usize },
        )
    } else if is_unpadded(t) {
        if src.len() < total {
            &&& after == before
            &&& res == Err::<(), LayoutError>(LayoutError::Malformed("relayout source too short"))
        } else {
            &&& after =~= src.take(total) + before.skip(total)
            &&& res == Ok::<(), LayoutError>(())
        }
    } else {
        did_copy(before, after, src, z_bytes_of(t), vector_places(t, src, before), res)
    }
}

/// The plan for a layer with more than one coordinate, given its maps and the
/// distance between two coordinates.
pub open spec fn plan(
    t: TableView,
    m: Maps,
    stride: int,
    src: Seq<u8>,
    before: Seq<u8>,
) -> Plan {
    Plan {
        maps: m,
        x_dim: layer::x_of(t),
        y_dim: layer::y_of(t),
        executions: layer::executions_of(t),
        size_bytes: layer::extent(t, layer::LAYER_SIZE_BYTES, 0),
        dts: layer::type_of(t).size(),
        z_bytes: z_bytes_of(t),
        stride,
        src_len: src.len() as int,
        dst_len: before.len() as usize,
        needed: layer::actual_size(t) as usize,
    }
}

/// The plan for a layer with more than one coordinate.
pub open spec fn plan_of(t: TableView, src: Seq<u8>, before: Seq<u8>) -> Result<
    Plan,
    LayoutError,
> {
    match maps_of(t) {
        None => Err(LayoutError::Malformed("output layer has no layout maps")),
        Some(m) => match stride(m, layer::x_of(t), layer::type_of(t).size(), z_bytes_of(t)) {
            Err(e) => Err(e),
            Ok(st) => Ok(plan(t, m, st, src, before)),
        },
    }
}

/// The relayout of a layer with more than one coordinate: one copy per
/// execution and coordinate.
pub open spec fn did_relayout_tiles(
    t: TableView,
    src: Seq<u8>,
    before: Seq<u8>,
    after: Seq<u8>,
    res: Result<(), LayoutError>,
) -> bool {
    let actual = layer::actual_size(t);
    match plan_of(t, src, before) {
        Err(e) => after == before && res == Err::<(), LayoutError>(e),
        Ok(p) => if before.len() < actual {
            &&& after == before
            &&& res == Err::<(), LayoutError>(
                LayoutError::BufferTooSmall {
                    needed: actual as usize,
                    given: before.len() as usize,
                },
            )
        } else {
            did_copy(before, after, src, p.piece(), p.places(), res)
        },
    }
}

/// What the relayout of a layer does to the destination, and its result.
pub open spec fn did_relayout(
    t: TableView,
    src: Seq<u8>,
    before: Seq<u8>,
    after: Seq<u8>,
    res: Result<(), LayoutError>,
) -> bool {
    if layer::type_of(t).size() == 0 {
        &&& after == before
        &&& res == Err::<(), LayoutError>(LayoutError::Malformed("unknown layer data type"))
    } else if is_vector(t) {
        did_relayout_vector(t, src, before, after, res)
    } else {
        did_relayout_tiles(t, src, before, after, res)
    }
}

// ---------------------------------------------------------------------------
// Laws: the numbering of the pieces
// ---------------------------------------------------------------------------

/// Law: the pieces are numbered round by round, row by row and column by
/// column, and each has the place of its round and coordinate.
pub proof fn law_pieces_are_numbered_in_order(p: Plan, k: int, y: int, x: int)
    requires
        0 <= x < p.x_dim,
        0 <= y < p.y_dim,
        0 <= k < p.rounds(),
    ensures
        ({
            let c = p.number(k, y, x);
            &&& 0 <= c < p.places().len()
            &&& p.places()[c] == p.place_at(k, y, x)
            &&& p.round_at(c) == k
            &&& p.row_at(c) == y
            &&& p.column_at(c) == x
        }),
{
    reveal(Plan::place);
    let q = y * p.x_dim + x;
    let c = p.number(k, y, x);
    vstd::arithmetic::div_mod::lemma_fundamental_div_mod_converse(q, p.x_dim, y, x);
    assert(0 <= q < p.y_dim * p.x_dim) by (nonlinear_arith)
        requires
            q == y * p.x_dim + x,
            0 <= x < p.x_dim,
            0 <= y < p.y_dim,
    ;
    vstd::arithmetic::div_mod::lemma_fundamental_div_mod_converse(c, p.coordinates(), k, q);
    assert(0 <= c < p.rounds() * p.coordinates()) by (nonlinear_arith)
        requires
            c == k * p.coordinates() + q,
            0 <= q < p.coordinates(),
            0 <= k < p.rounds(),
    ;
}

/// Law: every number is that of one round and one coordinate.
pub proof fn law_every_piece_has_a_coordinate(p: Plan, c: int)
    requires
        p.is_natural(),
        0 < p.x_dim,
        0 <= c < p.places().len(),
    ensures
        0 <= p.round_at(c) < p.rounds(),
        0 <= p.row_at(c) < p.y_dim,
        0 <= p.column_at(c) < p.x_dim,
        c == p.number(p.round_at(c), p.row_at(c), p.column_at(c)),
{
    let n = p.coordinates();
    let rounds = p.rounds();
    lemma_plan_reach(p);
    assert(0 < n) by (nonlinear_arith)
        requires
            0 <= c < rounds * n,
            n == p.y_dim * p.x_dim,
            0 < p.x_dim,
            0 <= p.y_dim,
    ;
    let (k, q) = (c / n, c % n);
    vstd::arithmetic::div_mod::lemma_fundamental_div_mod(c, n);
    vstd::arithmetic::div_mod::lemma_mod_bound(c, n);
    assert(0 <= k < rounds && n * k == k * n) by (nonlinear_arith)
        requires
            0 <= c < rounds * n,
            c == n * k + q,
            0 <= q < n,
    ;
    let (y, x) = (q / p.x_dim, q % p.x_dim);
    vstd::arithmetic::div_mod::lemma_fundamental_div_mod(q, p.x_dim);
    vstd::arithmetic::div_mod::lemma_mod_bound(q, p.x_dim);
    assert(0 <= y < p.y_dim && p.x_dim * y == y * p.x_dim) by (nonlinear_arith)
        requires
            0 <= q < p.y_dim * p.x_dim,
            q == p.x_dim * y + x,
            0 <= x < p.x_dim,
    ;
}

impl Plan {
    proof fn lemma_next_row(self, k: int, y: int)
        ensures
            self.number(k, y, self.x_dim) == self.number(k, y + 1, 0),
    {
        assert((y + 1) * self.x_dim == y * self.x_dim + self.x_dim) by (nonlinear_arith);
    }

    proof fn lemma_next_round(self, k: int)
        ensures
            self.number(k, self.y_dim, 0) == self.number(k + 1, 0, 0),
    {
        let n = self.coordinates();
        assert((k + 1) * n == k * n + n) by (nonlinear_arith);
    }
}

// ---------------------------------------------------------------------------
// Laws: what a relayout reads and writes
// ---------------------------------------------------------------------------

/// How much of the destination a relayout may touch.
pub open spec fn reach(t: TableView) -> int {
    if is_vector(t) {
        z_bytes_of(t) * layer::executions_of(t)
    } else {
        layer::executions_of(t) * (layer::y_of(t) * layer::x_of(t)) * z_bytes_of(t)
    }
}

/// The bytes behind the first `size` are as they were.
spec fn kept(before: Seq<u8>, after: Seq<u8>, size: int) -> bool {
    &&& after.len() == before.len()
    &&& forall|j: int| size <= j < before.len() ==> #[trigger] after[j] == before[j]
}

/// The first `size` bytes of a destination, all of them, come from the source.
spec fn filled(after: Seq<u8>, src: Seq<u8>, size: int) -> bool {
    forall|j: int| 0 <= j < size ==> src.contains(#[trigger] after[j])
}

proof fn lemma_z_bytes_is_natural(t: TableView)
    ensures
        0 <= layer::z_of(t) * layer::type_of(t).size(),
        0 <= z_bytes_of(t),
{
    assert(0 <= layer::z_of(t) * layer::type_of(t).size()) by (nonlinear_arith)
        requires
            0 <= layer::z_of(t),
            0 <= layer::type_of(t).size(),
    ;
}

proof fn lemma_stride_is_natural(m: Maps, x_dim: int, dts: int, z_bytes: int)
    requires
        0 <= dts,
    ensures
        stride(m, x_dim, dts, z_bytes) matches Ok(st) ==> 0 <= st,
{
    if z_bytes != 1 && z_bytes != 3 {
        let base = m.index_of(0, 0)->Ok_0;
        let next = if x_dim > 1 {
            m.index_of(0, 1)->Ok_0
        } else {
            m.index_of(1, 0)->Ok_0
        };
        if base <= next {
            assert(0 <= (next - base) * dts) by (nonlinear_arith)
                requires
                    base <= next,
                    0 <= dts,
            ;
        }
    }
}

/// The plan of a layer is one of natural numbers.
pub(crate) proof fn lemma_plan_is_natural(t: TableView, src: Seq<u8>, before: Seq<u8>)
    requires
        plan_of(t, src, before) is Ok,
    ensures
        plan_of(t, src, before)->Ok_0.is_natural(),
{
    lemma_z_bytes_is_natural(t);
    lemma_stride_is_natural(
        maps_of(t)->0,
        layer::x_of(t),
        layer::type_of(t).size(),
        z_bytes_of(t),
    );
}

proof fn lemma_copy_reach(
    before: Seq<u8>,
    after: Seq<u8>,
    src: Seq<u8>,
    size: int,
    places: Seq<Result<int, LayoutError>>,
    res: Result<(), LayoutError>,
)
    requires
        0 <= size,
        did_copy(before, after, src, size, places, res),
    ensures
        kept(before, after, places.len() * size),
{
    let n = choose|n: int|
        #[trigger] ended(places, res, n) && copied(before, after, src, size, places, n);
    assert(n * size <= places.len() * size) by (nonlinear_arith)
        requires
            0 <= n <= places.len(),
            0 <= size,
    ;
}

proof fn lemma_copy_sources(
    before: Seq<u8>,
    after: Seq<u8>,
    src: Seq<u8>,
    size: int,
    places: Seq<Result<int, LayoutError>>,
)
    requires
        0 <= size,
        did_copy(before, after, src, size, places, Ok(())),
        forall|c: int|
            0 <= c < places.len() ==> 0 <= (#[trigger] places[c])->Ok_0 && places[c]->Ok_0 + size
                <= src.len(),
    ensures
        filled(after, src, places.len() * size),
{
    let n = places.len() as int;
    assert(copied(before, after, src, size, places, n));
    assert forall|j: int| 0 <= j < n * size implies src.contains(#[trigger] after[j]) by {
        if size == 0 {
            assert(n * size == 0) by (nonlinear_arith)
                requires
                    size == 0,
            ;
        }
        let c = j / size;
        let k = j % size;
        vstd::arithmetic::div_mod::lemma_fundamental_div_mod(j, size);
        assert(size * c == c * size) by (nonlinear_arith);
        assert(0 <= c < n) by (nonlinear_arith)
            requires
                0 <= j < n * size,
                j == c * size + k,
                0 <= k < size,
        ;
        let at = places[c]->Ok_0;
        assert(after[spot(c, size, k)] == src[at + k]);
    }
}

/// All pieces of a plan together.
pub(crate) proof fn lemma_plan_reach(p: Plan)
    requires
        p.is_natural(),
    ensures
        p.places().len() * p.piece() == p.executions * p.coordinates() * p.z_bytes,
        p.x_dim > 0 ==> p.places().len() == p.rounds() * p.coordinates(),
{
    assert(0 <= p.coordinates()) by (nonlinear_arith)
        requires
            p.coordinates() == p.y_dim * p.x_dim,
            0 <= p.y_dim,
            0 <= p.x_dim,
    ;
    assert(0 <= p.rounds() * p.coordinates()) by (nonlinear_arith)
        requires
            0 <= p.rounds(),
            0 <= p.coordinates(),
    ;
    if p.piece() == 0 {
        assert(p.places().len() * p.piece() == 0) by (nonlinear_arith)
            requires
                p.piece() == 0,
        ;
        assert(p.executions * p.coordinates() * p.z_bytes == 0) by (nonlinear_arith)
            requires
                p.coordinates() == p.y_dim * p.x_dim,
                p.x_dim == 0 || p.executions == 0 || p.z_bytes == 0,
        ;
    }
}

proof fn lemma_vector_stays_inside(
    t: TableView,
    src: Seq<u8>,
    before: Seq<u8>,
    after: Seq<u8>,
    res: Result<(), LayoutError>,
)
    requires
        did_relayout_vector(t, src, before, after, res),
    ensures
        kept(before, after, z_bytes_of(t) * layer::executions_of(t)),
{
    let z_bytes = z_bytes_of(t);
    let n = layer::executions_of(t);
    lemma_z_bytes_is_natural(t);
    assert(z_bytes * n >= 0) by (nonlinear_arith)
        requires
            z_bytes >= 0,
            n >= 0,
    ;
    if before.len() >= total_of(t) && !is_unpadded(t) {
        let places = vector_places(t, src, before);
        lemma_copy_reach(before, after, src, z_bytes, places, res);
        assert(places.len() * z_bytes == z_bytes * n) by (nonlinear_arith)
            requires
                places.len() == n,
        ;
    }
}

proof fn lemma_tiles_stay_inside(
    t: TableView,
    src: Seq<u8>,
    before: Seq<u8>,
    after: Seq<u8>,
    res: Result<(), LayoutError>,
)
    requires
        did_relayout_tiles(t, src, before, after, res),
    ensures
        kept(
            before,
            after,
            layer::executions_of(t) * (layer::y_of(t) * layer::x_of(t)) * z_bytes_of(t),
        ),
{
    if let Ok(p) = plan_of(t, src, before) {
        if before.len() >= layer::actual_size(t) {
            lemma_plan_is_natural(t, src, before);
            lemma_plan_reach(p);
            lemma_copy_reach(before, after, src, p.piece(), p.places(), res);
        }
    }
}

/// Law: whatever its outcome, a relayout leaves the destination's length and
/// everything behind the tensor as they were.
pub proof fn law_relayout_stays_inside(
    t: TableView,
    src: Seq<u8>,
    before: Seq<u8>,
    after: Seq<u8>,
    res: Result<(), LayoutError>,
)
    requires
        did_relayout(t, src, before, after, res),
    ensures
        after.len() == before.len(),
        forall|j: int| reach(t) <= j < before.len() ==> #[trigger] after[j] == before[j],
{
    if layer::type_of(t).size() != 0 {
        if is_vector(t) {
            lemma_vector_stays_inside(t, src, before, after, res);
        } else {
            lemma_tiles_stay_inside(t, src, before, after, res);
        }
    }
}

proof fn lemma_run_start_bounds(m: Maps, x: int)
    requires
        0 <= x,
    ensures
        0 <= m.run_start(x) <= x,
    decreases x,
{
    if x > 0 {
        lemma_run_start_bounds(m, x - 1);
    }
}

/// A coordinate that has a source has one inside the address space.
pub(crate) proof fn lemma_source_is_natural(p: Plan, y: int, x: int)
    requires
        p.is_natural(),
        0 <= x,
        p.source(y, x) is Ok,
    ensures
        0 <= p.source(y, x)->Ok_0,
{
    lemma_run_start_bounds(p.maps, x);
    let first = p.maps.run_start(x);
    let at = p.maps.index(p.maps.row(y)->Ok_0, first)->Ok_0;
    assert(0 <= at * p.dts) by (nonlinear_arith)
        requires
            0 <= at,
            0 <= p.dts,
    ;
    assert(0 <= (x - first) * p.stride) by (nonlinear_arith)
        requires
            first <= x,
            0 <= p.stride,
    ;
}

/// A piece that has a place lies inside the source and the destination.
pub(crate) proof fn lemma_place_is_inside(p: Plan, k: int, y: int, x: int)
    requires
        p.is_natural(),
        0 <= k,
        0 <= x,
        p.place_at(k, y, x) is Ok,
    ensures
        0 <= p.place_at(k, y, x)->Ok_0,
        p.place_at(k, y, x)->Ok_0 + p.z_bytes <= p.src_len,
        (p.number(k, y, x) + 1) * p.piece() <= p.dst_len,
{
    lemma_source_is_natural(p, y, x);
    assert(0 <= k * p.size_bytes) by (nonlinear_arith)
        requires
            0 <= k,
            0 <= p.size_bytes,
    ;
}

/// The same of a piece that is known by its number.
proof fn lemma_piece_is_inside(p: Plan, c: int)
    requires
        p.is_natural(),
        0 < p.x_dim,
        0 <= c < p.places().len(),
        p.places()[c] is Ok,
    ensures
        0 <= p.places()[c]->Ok_0,
        p.places()[c]->Ok_0 + p.z_bytes <= p.src_len,
        (c + 1) * p.piece() <= p.dst_len,
{
    law_every_piece_has_a_coordinate(p, c);
    let (k, y, x) = (p.round_at(c), p.row_at(c), p.column_at(c));
    law_pieces_are_numbered_in_order(p, k, y, x);
    lemma_place_is_inside(p, k, y, x);
}

/// The total of a vector is the size of the tensor.
pub(crate) proof fn lemma_vector_total(t: TableView)
    requires
        is_vector(t),
    ensures
        total_of(t) == layer::actual_size(t),
        0 <= total_of(t),
{
    let z = layer::z_of(t);
    let n = layer::executions_of(t);
    let dts = layer::type_of(t).size();
    let z_bytes = z_bytes_of(t);
    lemma_z_bytes_is_natural(t);
    assert(1 * 1 * z * dts * n == (z * dts) * n) by (nonlinear_arith);
    if n == 0 {
        assert(z_bytes * n == 0 && (z * dts) * n == 0) by (nonlinear_arith)
            requires
                n == 0,
        ;
    } else {
        assert(z_bytes * n >= z_bytes) by (nonlinear_arith)
            requires
                n >= 1,
                z_bytes >= 0,
        ;
        assert((z * dts) * n >= z * dts) by (nonlinear_arith)
            requires
                n >= 1,
                z * dts >= 0,
        ;
    }
}

/// The padding of a vector that has any.
proof fn lemma_padding(t: TableView)
    requires
        is_vector(t),
        !is_unpadded(t),
    ensures
        2 <= layer::executions_of(t),
        0 <= padding_of(t),
        z_bytes_of(t) == 0 ==> 1 <= padding_of(t),
{
    let n = layer::executions_of(t);
    let size = layer::extent(t, layer::LAYER_SIZE_BYTES, 0);
    let padded = layer::padded_size(t);
    let actual = layer::actual_size(t);
    let product = layer::x_of(t) * layer::y_of(t) * layer::z_of(t) * layer::type_of(t).size();
    if n == 0 {
        assert(size * n == 0 && product * n == 0) by (nonlinear_arith)
            requires
                n == 0,
        ;
    }
    assert(0 <= size * n) by (nonlinear_arith)
        requires
            0 <= size,
            0 <= n,
    ;
    if padded > actual {
        vstd::arithmetic::div_mod::lemma_div_pos_is_pos(padded - actual, n);
    }
    if z_bytes_of(t) == 0 {
        lemma_vector_total(t);
        assert(z_bytes_of(t) * n == 0) by (nonlinear_arith)
            requires
                z_bytes_of(t) == 0,
        ;
        assert(n <= size * n) by (nonlinear_arith)
            requires
                size * n > 0,
                0 <= size,
                0 <= n,
        ;
        vstd::arithmetic::div_mod::lemma_div_is_ordered(n, padded, n);
        vstd::arithmetic::div_mod::lemma_div_by_self(n);
    }
}

proof fn lemma_vector_is_filled(t: TableView, src: Seq<u8>, before: Seq<u8>, after: Seq<u8>)
    requires
        is_vector(t),
        did_relayout_vector(t, src, before, after, Ok(())),
        before.len() <= usize::MAX,
    ensures
        layer::actual_size(t) <= before.len(),
        filled(after, src, layer::actual_size(t)),
        kept(before, after, layer::actual_size(t)),
{
    let n = layer::executions_of(t);
    let z_bytes = z_bytes_of(t);
    let actual = layer::actual_size(t);
    lemma_z_bytes_is_natural(t);
    lemma_vector_total(t);
    if is_unpadded(t) {
        assert forall|j: int| 0 <= j < actual implies src.contains(#[trigger] after[j]) by {
            assert(after[j] == src[j]);
        }
    } else {
        lemma_padding(t);
        let pad = padding_of(t);
        let places = vector_places(t, src, before);
        assert(places.len() == n);
        assert forall|c: int| 0 <= c < places.len() implies 0 <= (#[trigger] places[c])->Ok_0
            && places[c]->Ok_0 + z_bytes <= src.len() by {
            assert(places[c] is Ok);
            assert(0 <= c * (z_bytes + pad)) by (nonlinear_arith)
                requires
                    0 <= c,
                    0 <= z_bytes + pad,
            ;
        }
        assert(places[n - 1] is Ok);
        assert(n * z_bytes == z_bytes * n) by (nonlinear_arith);
        lemma_copy_reach(before, after, src, z_bytes, places, Ok(()));
        lemma_copy_sources(before, after, src, z_bytes, places);
    }
}

proof fn lemma_tiles_are_filled(t: TableView, src: Seq<u8>, before: Seq<u8>, after: Seq<u8>)
    requires
        !is_vector(t),
        did_relayout_tiles(t, src, before, after, Ok(())),
        before.len() <= usize::MAX,
    ensures
        layer::actual_size(t) <= before.len(),
        filled(after, src, layer::actual_size(t)),
        kept(before, after, layer::actual_size(t)),
{
    let p = plan_of(t, src, before)->Ok_0;
    let places = p.places();
    lemma_plan_is_natural(t, src, before);
    lemma_plan_reach(p);
    lemma_copy_reach(before, after, src, p.piece(), places, Ok(()));
    assert(ended(places, Ok(()), places.len() as int));
    if p.x_dim > 0 {
        assert forall|c: int| 0 <= c < places.len() implies 0 <= (#[trigger] places[c])->Ok_0
            && places[c]->Ok_0 + p.piece() <= src.len() by {
            lemma_piece_is_inside(p, c);
        }
        if places.len() > 0 {
            lemma_piece_is_inside(p, places.len() - 1);
        }
        lemma_copy_sources(before, after, src, p.piece(), places);
    }
    lemma_tensor_size(t, p, before.len() as int);
}

/// The pieces of a plan that has room for them are the tensor.
proof fn lemma_tensor_size(t: TableView, p: Plan, room: int)
    requires
        !is_vector(t),
        p.is_natural(),
        p.x_dim == layer::x_of(t),
        p.y_dim == layer::y_of(t),
        p.executions == layer::executions_of(t),
        p.z_bytes == z_bytes_of(t),
        p.places().len() * p.piece() <= room <= usize::MAX || p.x_dim == 0,
    ensures
        p.places().len() * p.piece() == layer::actual_size(t),
{
    let (x, y, z) = (layer::x_of(t), layer::y_of(t), layer::z_of(t));
    let n = layer::executions_of(t);
    let dts = layer::type_of(t).size();
    let z_bytes = z_bytes_of(t);
    let total = n * (y * x);
    lemma_plan_reach(p);
    lemma_z_bytes_is_natural(t);
    assert(x * y * z * dts * n == total * (z * dts)) by (nonlinear_arith)
        requires
            total == n * (y * x),
    ;
    assert(0 <= total && (total == 0 || (x > 0 && total >= 2))) by (nonlinear_arith)
        requires
            total == n * (y * x),
            0 <= n,
            0 <= y,
            0 <= x,
            x != 1 || y != 1,
    ;
    if total == 0 {
        assert(total * (z * dts) == 0 && total * z_bytes == 0) by (nonlinear_arith)
            requires
                total == 0,
        ;
    } else {
        assert(total * z_bytes >= 2 * z_bytes) by (nonlinear_arith)
            requires
                total >= 2,
                z_bytes >= 0,
        ;
    }
}

/// Law: a relayout that succeeded has filled the tensor, all executions of it.
/// Each of the first `actual_size` bytes is one of the source's, and what lies
/// behind them is as it was.
pub proof fn law_relayout_fills_the_tensor(
    t: TableView,
    src: Seq<u8>,
    before: Seq<u8>,
    after: Seq<u8>,
)
    requires
        did_relayout(t, src, before, after, Ok(())),
        before.len() <= usize::MAX,
    ensures
        layer::actual_size(t) <= before.len(),
        after.len() == before.len(),
        forall|j: int| 0 <= j < layer::actual_size(t) ==> src.contains(#[trigger] after[j]),
        forall|j: int|
            layer::actual_size(t) <= j < before.len() ==> #[trigger] after[j] == before[j],
{
    if is_vector(t) {
        lemma_vector_is_filled(t, src, before, after);
    } else {
        lemma_tiles_are_filled(t, src, before, after);
    }
}

/// Law: executions lie end to end. In the relayout of a layer with more than
/// one coordinate, byte `b` of the coordinate `(y, x)` of execution `k` comes
/// from where the maps put it in the first execution, `k` padded sizes further
/// on.
pub proof fn law_executions_lie_end_to_end(
    t: TableView,
    src: Seq<u8>,
    before: Seq<u8>,
    after: Seq<u8>,
    k: int,
    y: int,
    x: int,
    b: int,
)
    requires
        did_relayout(t, src, before, after, Ok(())),
        !is_vector(t),
        src.len() <= usize::MAX,
        0 <= k < layer::executions_of(t),
        0 <= y < layer::y_of(t),
        0 <= x < layer::x_of(t),
        0 <= b < z_bytes_of(t),
    ensures
        plan_of(t, src, before) matches Ok(p) && p.source(y, x) matches Ok(first)
            && after[spot(p.number(k, y, x), z_bytes_of(t), b)] == src[first + k
            * layer::extent(t, layer::LAYER_SIZE_BYTES, 0) + b],
{
    let p = plan_of(t, src, before)->Ok_0;
    assert(did_relayout_tiles(t, src, before, after, Ok(())));
    lemma_plan_is_natural(t, src, before);
    lemma_executions_lie_end_to_end(p, src, before, after, k, y, x, b);
}

proof fn lemma_executions_lie_end_to_end(
    p: Plan,
    src: Seq<u8>,
    before: Seq<u8>,
    after: Seq<u8>,
    k: int,
    y: int,
    x: int,
    b: int,
)
    requires
        did_copy(before, after, src, p.piece(), p.places(), Ok(())),
        p.is_natural(),
        p.src_len == src.len(),
        src.len() <= usize::MAX,
        0 <= k < p.executions,
        0 <= y < p.y_dim,
        0 <= x < p.x_dim,
        0 <= b < p.z_bytes,
    ensures
        p.source(y, x) matches Ok(first) && after[spot(p.number(k, y, x), p.z_bytes, b)]
            == src[first + k * p.size_bytes + b],
{
    let c = p.number(k, y, x);
    let places = p.places();
    law_pieces_are_numbered_in_order(p, k, y, x);
    assert(copied(before, after, src, p.z_bytes, places, places.len() as int));
    assert(places[c] is Ok);
    lemma_place_is_inside(p, k, y, x);
    lemma_source_is_natural(p, y, x);
    assert(after[spot(c, p.z_bytes, b)] == src[places[c]->Ok_0 + b]);
}

// ---------------------------------------------------------------------------
// Laws: bounded walks
// ---------------------------------------------------------------------------

/// Law: whatever dimensions a layer claims, only rows and columns that the
/// buffer has bytes for can be looked up.
pub proof fn law_lookups_past_the_buffer_fail(t: TableView, i: int)
    requires
        t.buf.len() <= i,
        maps_of(t) is Some,
    ensures
        maps_of(t)->0.row(i) is Err,
        maps_of(t)->0.x_to_tile_id.i32(i) is None,
{
}

/// Law: whatever dimensions a layer claims, the walk over its rows and columns
/// is bounded by the length of the executable. Every piece that is dealt with
/// belongs to a row and a column with a number below that length, and so does
/// every row that is looked up where there are no columns; the first one
/// beyond ends the walk.
pub proof fn law_rows_and_columns_are_bounded(
    t: TableView,
    src: Seq<u8>,
    before: Seq<u8>,
    after: Seq<u8>,
    res: Result<(), LayoutError>,
)
    requires
        did_relayout(t, src, before, after, res),
        layer::type_of(t).size() != 0,
        !is_vector(t),
        plan_of(t, src, before) is Ok,
        layer::actual_size(t) <= before.len(),
    ensures
        ({
            let p = plan_of(t, src, before)->Ok_0;
            exists|n: int|
                {
                    &&& #[trigger] ended(p.places(), res, n)
                    &&& copied(before, after, src, p.piece(), p.places(), n)
                    &&& p.x_dim == 0 ==> n <= t.buf.len()
                    &&& p.x_dim > 0 ==> forall|c: int|
                        0 <= c < n ==> (#[trigger] p.row_at(c)) < t.buf.len() && p.column_at(c)
                            < t.buf.len()
                }
        }),
{
    let p = plan_of(t, src, before)->Ok_0;
    let places = p.places();
    let n = choose|n: int|
        #[trigger] ended(places, res, n) && copied(before, after, src, p.piece(), places, n);
    lemma_plan_is_natural(t, src, before);
    if p.x_dim == 0 {
        if n > t.buf.len() {
            assert(places[t.buf.len() as int] is Ok);
            law_lookups_past_the_buffer_fail(t, t.buf.len() as int);
        }
    } else {
        assert forall|c: int| 0 <= c < n implies (#[trigger] p.row_at(c)) < t.buf.len()
            && p.column_at(c) < t.buf.len() by {
            assert(places[c] is Ok);
            lemma_piece_is_looked_up(p, c);
            if p.row_at(c) >= t.buf.len() {
                law_lookups_past_the_buffer_fail(t, p.row_at(c));
            }
            if p.column_at(c) >= t.buf.len() {
                law_lookups_past_the_buffer_fail(t, p.column_at(c));
            }
        }
    }
}

/// A piece that has a place has had its row and its column looked up.
proof fn lemma_piece_is_looked_up(p: Plan, c: int)
    requires
        p.is_natural(),
        0 < p.x_dim,
        0 <= c < p.places().len(),
        p.places()[c] is Ok,
    ensures
        p.maps.row(p.row_at(c)) is Ok,
        p.maps.x_to_tile_id.i32(p.column_at(c)) is Some,
{
    law_every_piece_has_a_coordinate(p, c);
    law_pieces_are_numbered_in_order(p, p.round_at(c), p.row_at(c), p.column_at(c));
}

/// Law: however often a layer claims to run, the walk over its executions is
/// bounded by the destination. Every piece that is dealt with belongs to an
/// execution whose number is below the destination's length, or to the first.
pub proof fn law_executions_are_bounded(
    t: TableView,
    src: Seq<u8>,
    before: Seq<u8>,
    after: Seq<u8>,
    res: Result<(), LayoutError>,
)
    requires
        did_relayout(t, src, before, after, res),
        layer::type_of(t).size() != 0,
        !is_vector(t),
        0 < layer::x_of(t),
        plan_of(t, src, before) is Ok,
        layer::actual_size(t) <= before.len() <= usize::MAX,
    ensures
        ({
            let p = plan_of(t, src, before)->Ok_0;
            exists|n: int|
                {
                    &&& #[trigger] ended(p.places(), res, n)
                    &&& copied(before, after, src, p.piece(), p.places(), n)
                    &&& forall|c: int|
                        0 <= c < n ==> (#[trigger] p.round_at(c)) == 0 || p.round_at(c)
                            < before.len()
                }
        }),
{
    let p = plan_of(t, src, before)->Ok_0;
    let places = p.places();
    let n = choose|n: int|
        #[trigger] ended(places, res, n) && copied(before, after, src, p.piece(), places, n);
    lemma_plan_is_natural(t, src, before);
    assert forall|c: int| 0 <= c < n implies (#[trigger] p.round_at(c)) == 0 || p.round_at(c)
        < before.len() by {
        assert(places[c] is Ok);
        lemma_round_is_bounded(p, c);
    }
}

proof fn lemma_round_is_bounded(p: Plan, c: int)
    requires
        p.is_natural(),
        0 < p.x_dim,
        0 <= c < p.places().len(),
        p.places()[c] is Ok,
    ensures
        p.round_at(c) == 0 || p.round_at(c) < p.dst_len,
{
    law_every_piece_has_a_coordinate(p, c);
    lemma_piece_is_inside(p, c);
    let (k, y, x) = (p.round_at(c), p.row_at(c), p.column_at(c));
    if p.piece() > 0 {
        assert(c + 1 <= p.dst_len) by (nonlinear_arith)
            requires
                (c + 1) * p.piece() <= p.dst_len,
                0 < p.piece(),
                0 <= c,
        ;
        assert(k <= c) by (nonlinear_arith)
            requires
                c == k * (p.y_dim * p.x_dim) + y * p.x_dim + x,
                0 <= k,
                0 <= y < p.y_dim,
                0 <= x < p.x_dim,
        ;
    }
}

/// Law: however often a padded vector claims to run, the walk over its
/// executions is bounded by source and destination together.
pub proof fn law_stripped_executions_are_bounded(
    t: TableView,
    src: Seq<u8>,
    before: Seq<u8>,
    after: Seq<u8>,
    res: Result<(), LayoutError>,
)
    requires
        did_relayout(t, src, before, after, res),
        layer::type_of(t).size() != 0,
        is_vector(t),
        !is_unpadded(t),
        total_of(t) <= before.len() <= usize::MAX,
        src.len() <= usize::MAX,
    ensures
        ({
            let places = vector_places(t, src, before);
            exists|n: int|
                {
                    &&& #[trigger] ended(places, res, n)
                    &&& copied(before, after, src, z_bytes_of(t), places, n)
                    &&& n <= src.len() + before.len() + 1
                }
        }),
{
    let places = vector_places(t, src, before);
    let (z_bytes, pad) = (z_bytes_of(t), padding_of(t));
    let n = choose|n: int|
        #[trigger] ended(places, res, n) && copied(before, after, src, z_bytes, places, n);
    lemma_z_bytes_is_natural(t);
    lemma_padding(t);
    if n > 0 {
        assert(places[n - 1] is Ok);
        if z_bytes > 0 {
            assert(n <= before.len()) by (nonlinear_arith)
                requires
                    n * z_bytes <= before.len(),
                    0 < z_bytes,
                    0 < n,
            ;
        } else {
            assert(n - 1 <= (n - 1) * (z_bytes + pad)) by (nonlinear_arith)
                requires
                    1 <= z_bytes + pad,
                    0 < n,
            ;
        }
    }
}

/// Law: pieces that lie in the source one right behind the other are simply
/// copied.
pub proof fn law_contiguous_pieces_are_copied(
    before: Seq<u8>,
    after: Seq<u8>,
    src: Seq<u8>,
    size: int,
    places: Seq<Result<int, LayoutError>>,
)
    requires
        0 < size,
        did_copy(before, after, src, size, places, Ok(())),
        forall|c: int|
            0 <= c < places.len() ==> #[trigger] places[c] == Ok::<int, LayoutError>(c * size),
        places.len() * size <= src.len(),
        places.len() * size <= before.len(),
    ensures
        after == src.take(places.len() * size) + before.skip(places.len() * size),
{
    let n = places.len() as int;
    assert forall|j: int| 0 <= j < n * size implies #[trigger] after[j] == src[j] by {
        let c = j / size;
        let k = j % size;
        vstd::arithmetic::div_mod::lemma_fundamental_div_mod(j, size);
        assert(size * c == c * size) by (nonlinear_arith);
        assert(0 <= c < n) by (nonlinear_arith)
            requires
                0 <= j < n * size,
                j == c * size + k,
                0 <= k < size,
        ;
        assert(places[c] == Ok::<int, LayoutError>(c * size));
        assert(after[spot(c, size, k)] == src[places[c]->Ok_0 + k]);
    }
    assert(n * size >= 0) by (nonlinear_arith)
        requires
            n >= 0,
            size > 0,
    ;
    assert(after =~= src.take(n * size) + before.skip(n * size));
}

// ---------------------------------------------------------------------------
// OutputLayout
// ---------------------------------------------------------------------------

/// The six parallel `[int32]` tile maps of an `OutputLayout`.
#[derive(Clone, Copy, Debug)]
struct OutputLayout<'a> {
    y_to_tile_id: Vector<'a>,
    x_to_tile_id: Vector<'a>,
    tile_byte_offset: Vector<'a>,
    x_to_local_byte_offset: Vector<'a>,
    y_to_local_y_offset: Vector<'a>,
    x_to_local_y_row_size: Vector<'a>,
}

/// The `(tile id, local y)` pair of a row.
struct YBufferIndex {
    linearized_tile_id: i64,
    local_y_coordinate: i64,
}

impl<'a> View for OutputLayout<'a> {
    type V = Maps;

    closed spec fn view(&self) -> Maps {
        Maps {
            y_to_tile_id: self.y_to_tile_id@,
            x_to_tile_id: self.x_to_tile_id@,
            tile_byte_offset: self.tile_byte_offset@,
            x_to_local_byte_offset: self.x_to_local_byte_offset@,
            y_to_local_y_offset: self.y_to_local_y_offset@,
            x_to_local_y_row_size: self.x_to_local_y_row_size@,
        }
    }
}

impl YBufferIndex {
    /// Tile ID and local y.
    spec fn pair(self) -> (int, int) {
        (self.linearized_tile_id as int, self.local_y_coordinate as int)
    }

    /// Both halves are 32-bit values.
    spec fn fits(self) -> bool {
        &&& i32::MIN <= self.linearized_tile_id <= i32::MAX
        &&& i32::MIN <= self.local_y_coordinate <= i32::MAX
    }
}

impl<'a> OutputLayout<'a> {
    fn y_index(&self, y: usize) -> (r: Result<YBufferIndex, LayoutError>)
        ensures
            match r {
                Ok(i) => i.fits() && self@.row(y as int) == Ok::<(int, int), LayoutError>(i.pair()),
                Err(e) => self@.row(y as int) == Err::<(int, int), LayoutError>(e),
            },
    {
        let tile: i32 = match self.y_to_tile_id.i32(y) {
            Some(v) => v,
            None => {
                return Err(LayoutError::Malformed("y_coordinate_to_linear_tile_id_map"));
            },
        };
        let local: i32 = match self.y_to_local_y_offset.i32(y) {
            Some(v) => v,
            None => {
                return Err(LayoutError::Malformed("y_coordinate_to_local_y_offset"));
            },
        };
        Ok(YBufferIndex { linearized_tile_id: tile as i64, local_y_coordinate: local as i64 })
    }

    fn x_tile_id(&self, x: usize) -> (r: Result<i32, LayoutError>)
        ensures
            match r {
                Ok(v) => self@.x_to_tile_id.i32(x as int) == Some(v),
                Err(e) => self@.x_to_tile_id.i32(x as int) is None && e == LayoutError::Malformed(
                    "x_coordinate_to_linear_tile_id_map",
                ),
            },
    {
        match self.x_to_tile_id.i32(x) {
            Some(v) => Ok(v),
            None => Err(LayoutError::Malformed("x_coordinate_to_linear_tile_id_map")),
        }
    }

    /// The `OutputLayout` fields are named "byte offset", but every caller
    /// multiplies the result by the element size, so the units are elements.
    fn buffer_index(&self, y: &YBufferIndex, x: usize) -> (r: Result<usize, LayoutError>)
        requires
            y.fits(),
        ensures
            match r {
                Ok(at) => self@.index(y.pair(), x as int) == Ok::<int, LayoutError>(at as int),
                Err(e) => self@.index(y.pair(), x as int) == Err::<int, LayoutError>(e),
            },
    {
        let tile: i64 = y.linearized_tile_id + self.x_tile_id(x)? as i64;
        if tile < 0 {
            return Err(LayoutError::Malformed("negative tile id"));
        }
        let global: i32 = match self.tile_byte_offset.i32(tile as usize) {
            Some(v) => v,
            None => {
                return Err(LayoutError::Malformed("linearized_tile_byte_offset"));
            },
        };
        let local_x: i32 = match self.x_to_local_byte_offset.i32(x) {
            Some(v) => v,
            None => {
                return Err(LayoutError::Malformed("x_coordinate_to_local_byte_offset"));
            },
        };
        let row_size: i32 = match self.x_to_local_y_row_size.i32(x) {
            Some(v) => v,
            None => {
                return Err(LayoutError::Malformed("x_coordinate_to_local_y_row_size"));
            },
        };
        proof {
            let (a, b) = (y.local_y_coordinate as int, row_size as int);
            assert(-0x4000_0000_0000_0000 <= a * b <= 0x4000_0000_0000_0000) by (nonlinear_arith)
                requires
                    -0x8000_0000 <= a <= 0x8000_0000,
                    -0x8000_0000 <= b <= 0x8000_0000,
            ;
        }
        let local_y: i64 = y.local_y_coordinate * row_size as i64;
        match usize::try_from(global as i64 + local_y + local_x as i64) {
            Ok(at) => Ok(at),
            Err(_) => Err(LayoutError::Malformed("negative buffer index")),
        }
    }

    /// Length of the run of equal tile IDs that starts at column `s`.
    fn run_length(&self, s: usize, x_dim: usize) -> (r: Result<usize, LayoutError>)
        requires
            s < x_dim,
        ensures
            match r {
                Ok(n) => {
                    &&& 0 < n <= x_dim - s
                    &&& self@.x_to_tile_id.i32(s as int) is Some
                    &&& is_run(self@, s as int, s + n)
                    &&& s + n < x_dim ==> {
                        &&& self@.x_to_tile_id.i32(s + n) is Some
                        &&& self@.x_to_tile_id.i32(s + n) != self@.x_to_tile_id.i32(s as int)
                    }
                },
                Err(e) => {
                    &&& e == LayoutError::Malformed("x_coordinate_to_linear_tile_id_map")
                    &&& self@.x_to_tile_id.i32(s as int) is None || exists|u: int|
                        s < u < x_dim && #[trigger] is_run(self@, s as int, u)
                            && self@.x_to_tile_id.i32(u) is None
                },
            },
    {
        let tile_id: i32 = self.x_tile_id(s)?;
        let mut n: usize = 1;
        while n < x_dim - s
            invariant
                s < x_dim,
                0 < n <= x_dim - s,
                self@.x_to_tile_id.i32(s as int) == Some(tile_id),
                is_run(self@, s as int, s + n),
            decreases x_dim - s - n,
        {
            let id: i32 = match self.x_tile_id(s + n) {
                Ok(id) => id,
                Err(e) => {
                    assert(self@.x_to_tile_id.i32(s + n) is None);
                    return Err(e);
                },
            };
            if id != tile_id {
                return Ok(n);
            }
            n = n + 1;
        }
        Ok(n)
    }
}

/// Columns `s` up to `e` share one tile ID.
pub open spec fn is_run(m: Maps, s: int, e: int) -> bool {
    forall|j: int| s <= j < e ==> #[trigger] m.x_to_tile_id.i32(j) == m.x_to_tile_id.i32(s)
}

/// Columns `s` up to `e` are a whole run of equal tile IDs, all of them readable
/// and so is the one after them, unless the row ends there.
spec fn is_tile(m: Maps, s: int, e: int, x_dim: int) -> bool {
    &&& m.run_start(s) == s
    &&& m.x_to_tile_id.i32(s) is Some
    &&& is_run(m, s, e)
    &&& e < x_dim ==> {
        &&& m.x_to_tile_id.i32(e) is Some
        &&& m.x_to_tile_id.i32(e) != m.x_to_tile_id.i32(s)
    }
}

proof fn lemma_run_start(m: Maps, s: int, x: int)
    requires
        0 <= s <= x,
        m.run_start(s) == s,
        is_run(m, s, x + 1),
    ensures
        m.run_start(x) == s,
    decreases x,
{
    if s < x {
        assert(m.x_to_tile_id.i32(x) == m.x_to_tile_id.i32(s));
        assert(m.x_to_tile_id.i32(x - 1) == m.x_to_tile_id.i32(s));
        lemma_run_start(m, s, x - 1);
    }
}

proof fn lemma_run_end(m: Maps, s: int, e: int, x: int, x_dim: int)
    requires
        s <= x < e <= x_dim,
        is_run(m, s, e),
        e < x_dim ==> m.x_to_tile_id.i32(e) != m.x_to_tile_id.i32(s),
    ensures
        m.run_end(x, x_dim) == e,
    decreases e - x,
{
    assert(m.x_to_tile_id.i32(x) == m.x_to_tile_id.i32(s));
    if x + 1 < e {
        assert(m.x_to_tile_id.i32(x + 1) == m.x_to_tile_id.i32(s));
        lemma_run_end(m, s, e, x + 1, x_dim);
    }
}

// ---------------------------------------------------------------------------
// Copying
// ---------------------------------------------------------------------------

/// Copies `n` bytes.
fn copy_piece(src: &[u8], from: usize, dst: &mut [u8], to: usize, n: usize)
    requires
        from + n <= src@.len(),
        to + n <= old(dst)@.len(),
    ensures
        final(dst)@.len() == old(dst)@.len(),
        forall|j: int|
            0 <= j < old(dst)@.len() ==> #[trigger] final(dst)@[j] == if to <= j < to + n {
                src@[from + (j - to)]
            } else {
                old(dst)@[j]
            },
{
    let ghost before = dst@;
    let mut k: usize = 0;
    assert(src.len() == src@.len() && dst.len() == dst@.len());
    while k < n
        invariant
            k <= n,
            from + n <= src@.len(),
            to + n <= before.len(),
            src@.len() <= usize::MAX,
            before.len() <= usize::MAX,
            dst@.len() == before.len(),
            before == old(dst)@,
            forall|j: int|
                0 <= j < before.len() ==> #[trigger] dst@[j] == if to <= j < to + k {
                    src@[from + (j - to)]
                } else {
                    before[j]
                },
        decreases n - k,
    {
        let v: u8 = src[from + k];
        dst[to + k] = v;
        k = k + 1;
    }
}

/// A copy that is under way: pieces of `size` bytes go from their places in
/// `src` to a destination that was `before`.
struct Copying {
    before: Seq<u8>,
    src: Seq<u8>,
    size: int,
    places: Seq<Result<int, LayoutError>>,
}

impl Copying {
    /// The first `c` pieces are copied, and the next one goes to `out`.
    #[verifier::opaque]
    spec fn reached(self, now: Seq<u8>, c: int, out: int) -> bool {
        &&& 0 <= self.size
        &&& 0 <= c <= self.places.len()
        &&& forall|i: int| 0 <= i < c ==> #[trigger] self.places[i] is Ok
        &&& out == c * self.size
        &&& 0 <= out <= self.before.len()
        &&& copied(self.before, now, self.src, self.size, self.places, c)
    }

    /// The copy came to its end with the result `res`.
    spec fn did(self, now: Seq<u8>, res: Result<(), LayoutError>) -> bool {
        did_copy(self.before, now, self.src, self.size, self.places, res)
    }

    proof fn lemma_start(self)
        requires
            0 <= self.size,
        ensures
            self.reached(self.before, 0, 0),
    {
        reveal(Copying::reached);
        assert(0 * self.size == 0);
    }

    proof fn lemma_under_way(self, now: Seq<u8>, c: int, out: int)
        requires
            self.reached(now, c, out),
        ensures
            now.len() == self.before.len(),
            out == c * self.size,
            0 <= out <= now.len(),
            0 <= c <= self.places.len(),
    {
        reveal(Copying::reached);
    }

    /// A place that is an error ends the copy.
    proof fn lemma_stop(self, now: Seq<u8>, c: int, out: int, e: LayoutError)
        requires
            self.reached(now, c, out),
            c < self.places.len(),
            self.places[c] == Err::<int, LayoutError>(e),
        ensures
            self.did(now, Err(e)),
    {
        reveal(Copying::reached);
        assert(ended(self.places, Err(e), c));
    }

    /// So does the last place.
    proof fn lemma_finish(self, now: Seq<u8>, c: int, out: int)
        requires
            self.reached(now, c, out),
            c == self.places.len(),
        ensures
            self.did(now, Ok(())),
    {
        reveal(Copying::reached);
        assert(ended(self.places, Ok(()), c));
    }

    /// One more piece.
    proof fn lemma_step(self, mid: Seq<u8>, now: Seq<u8>, c: int, out: int)
        requires
            self.reached(mid, c, out),
            c < self.places.len(),
            self.places[c] is Ok,
            out + self.size <= mid.len(),
            now.len() == mid.len(),
            forall|j: int|
                0 <= j < mid.len() ==> #[trigger] now[j] == if out <= j < out + self.size {
                    self.src[self.places[c]->Ok_0 + (j - out)]
                } else {
                    mid[j]
                },
        ensures
            self.reached(now, c + 1, out + self.size),
    {
        reveal(Copying::reached);
        let size = self.size;
        assert((c + 1) * size == c * size + size) by (nonlinear_arith);
        assert forall|i: int, k: int| 0 <= i < c + 1 && 0 <= k < size implies #[trigger] now[spot(
            i,
            size,
            k,
        )] == self.src[self.places[i]->Ok_0 + k] by {
            if i < c {
                assert(0 <= i * size + k < c * size) by (nonlinear_arith)
                    requires
                        0 <= i < c,
                        0 <= k < size,
                ;
                assert(mid[spot(i, size, k)] == self.src[self.places[i]->Ok_0 + k]);
            }
        }
    }
}

/// Copies piece `c` and moves on to the next.
fn put(
    src: &[u8],
    from: usize,
    dst: &mut [u8],
    out: &mut usize,
    size: usize,
    Ghost(job): Ghost<Copying>,
    Ghost(c): Ghost<int>,
)
    requires
        job.src == src@,
        job.size == size,
        job.reached(old(dst)@, c, *old(out) as int),
        0 <= c < job.places.len(),
        job.places[c] == Ok::<int, LayoutError>(from as int),
        from + size <= src@.len(),
        *old(out) + size <= old(dst)@.len(),
    ensures
        final(dst)@.len() == old(dst)@.len(),
        *final(out) == *old(out) + size,
        job.reached(final(dst)@, c + 1, *final(out) as int),
{
    let ghost mid = dst@;
    assert(dst.len() == dst@.len());
    copy_piece(src, from, dst, *out, size);
    proof {
        job.lemma_step(mid, dst@, c, *out as int);
    }
    *out = *out + size;
}

// ---------------------------------------------------------------------------
// The walk over the coordinates
// ---------------------------------------------------------------------------

/// A walk over the coordinates of a layer with columns.
struct Walk<'a, 'b> {
    layout: OutputLayout<'a>,
    x_dim: usize,
    y_dim: usize,
    executions: usize,
    size_bytes: usize,
    dts: usize,
    z_bytes: usize,
    stride: usize,
    needed: usize,
    src: &'b [u8],
    given: usize,
}

impl<'a, 'b> View for Walk<'a, 'b> {
    type V = Plan;

    closed spec fn view(&self) -> Plan {
        Plan {
            maps: self.layout@,
            x_dim: self.x_dim as int,
            y_dim: self.y_dim as int,
            executions: self.executions as int,
            size_bytes: self.size_bytes as int,
            dts: self.dts as int,
            z_bytes: self.z_bytes as int,
            stride: self.stride as int,
            src_len: self.src@.len() as int,
            dst_len: self.given,
            needed: self.needed,
        }
    }
}

impl<'a, 'b> Walk<'a, 'b> {
    /// What the walk copies into a destination that was `before`.
    spec fn job(&self, before: Seq<u8>) -> Copying {
        Copying { before, src: self.src@, size: self@.piece(), places: self@.places() }
    }

    /// The walk of round `k` has come to `(y, x)`, and what is in front of it
    /// has been copied.
    spec fn came_to(
        &self,
        before: Seq<u8>,
        now: Seq<u8>,
        k: int,
        y: int,
        x: int,
        out: usize,
    ) -> bool {
        &&& before.len() == self.given
        &&& self.job(before).reached(now, self@.number(k, y, x), out as int)
    }

    /// How much the destination receives per coordinate.
    fn piece(&self) -> (r: usize)
        ensures
            r == self@.piece(),
    {
        if self.x_dim == 0 || self.executions == 0 {
            0
        } else {
            self.z_bytes
        }
    }

    /// Copies the run of `n` columns that starts at `first`, in row `y` of
    /// round `k`. `shift` is where the round's execution starts in the source.
    fn walk_run(
        &self,
        y_index: &YBufferIndex,
        first: usize,
        n: usize,
        shift: usize,
        dst: &mut [u8],
        out: &mut usize,
        Ghost(k): Ghost<int>,
        Ghost(y): Ghost<int>,
        Ghost(before): Ghost<Seq<u8>>,
    ) -> (r: Result<(), LayoutError>)
        requires
            0 <= k < self@.rounds(),
            0 <= y < self.y_dim,
            0 < n,
            first + n <= self.x_dim,
            y_index.fits(),
            self.layout@.row(y) == Ok::<(int, int), LayoutError>(y_index.pair()),
            is_tile(self.layout@, first as int, first + n, self.x_dim as int),
            shift == bytes::sat(k * self.size_bytes),
            self.came_to(before, old(dst)@, k, y, first as int, *old(out)),
        ensures
            match r {
                Ok(()) => self.came_to(before, final(dst)@, k, y, first + n, *final(out)),
                Err(_) => self.job(before).did(final(dst)@, r),
            },
    {
        let ghost p = self@;
        let ghost job = self.job(before);
        proof {
            law_pieces_are_numbered_in_order(p, k, y, first as int);
            lemma_run_end(self.layout@, first as int, first + n, first as int, self.x_dim as int);
            assert(0 <= k * self.size_bytes) by (nonlinear_arith)
                requires
                    0 <= k,
            ;
        }
        let base: usize = match self.layout.buffer_index(y_index, first) {
            Ok(b) => b,
            Err(e) => {
                proof {
                    job.lemma_stop(dst@, p.number(k, y, first as int), *out as int, e);
                }
                return Err(e);
            },
        };
        let piece: usize = self.piece();
        let mut source: usize = bytes::sat_mul(base, self.dts).saturating_add(shift);
        let mut j: usize = 0;
        assert(0 * self.stride as int == 0);
        while j < n
            invariant
                p == self@,
                job == self.job(before),
                piece == p.piece(),
                0 <= k < p.rounds(),
                0 <= k * self.size_bytes,
                0 <= y < self.y_dim,
                j <= n,
                first + n <= self.x_dim,
                self.layout@.row(y) == Ok::<(int, int), LayoutError>(y_index.pair()),
                is_tile(self.layout@, first as int, first + n, self.x_dim as int),
                self.layout@.index(y_index.pair(), first as int) == Ok::<int, LayoutError>(
                    base as int,
                ),
                source == bytes::sat(
                    bytes::sat(base * self.dts) + k * self.size_bytes + j * self.stride,
                ),
                self.came_to(before, dst@, k, y, first + j, *out),
            decreases n - j,
        {
            let ghost x = first + j;
            let ghost c = p.number(k, y, x);
            proof {
                self.lemma_source(y_index.pair(), first as int, first + n, base as int, y, x);
                law_pieces_are_numbered_in_order(p, k, y, x);
                job.lemma_under_way(dst@, c, *out as int);
                assert((c + 1) * piece == c * piece + piece) by (nonlinear_arith);
                assert((j + 1) * self.stride == j * self.stride + self.stride)
                    by (nonlinear_arith);
                assert(0 <= j * self.stride) by (nonlinear_arith);
                assert(self.src.len() == self.src@.len());
            }
            if self.z_bytes > self.src.len() || source > self.src.len() - self.z_bytes {
                let e = LayoutError::Malformed("relayout source out of range");
                proof {
                    job.lemma_stop(dst@, c, *out as int, e);
                }
                return Err(e);
            }
            if piece > self.given - *out {
                let e = LayoutError::BufferTooSmall { needed: self.needed, given: self.given };
                proof {
                    job.lemma_stop(dst@, c, *out as int, e);
                }
                return Err(e);
            }
            put(self.src, source, dst, out, piece, Ghost(job), Ghost(c));
            source = source.saturating_add(self.stride);
            j = j + 1;
        }
        Ok(())
    }

    /// Where the coordinates of a run are in the source.
    proof fn lemma_source(
        &self,
        row: (int, int),
        first: int,
        end: int,
        base: int,
        y: int,
        x: int,
    )
        requires
            0 <= first <= x < end <= self.x_dim,
            self.layout@.row(y) == Ok::<(int, int), LayoutError>(row),
            self.layout@.index(row, first) == Ok::<int, LayoutError>(base),
            is_tile(self.layout@, first, end, self.x_dim as int),
        ensures
            self@.source(y, x) == Ok::<int, LayoutError>(
                bytes::sat(bytes::sat(base * self.dts) + (x - first) * self.stride),
            ),
    {
        lemma_run_start(self.layout@, first, x);
        lemma_run_end(self.layout@, first, end, x, self.x_dim as int);
        assert(self.layout@.x_to_tile_id.i32(x) == self.layout@.x_to_tile_id.i32(first));
    }

    /// Walks row `y` of round `k`, run by run.
    fn walk_row(
        &self,
        y: usize,
        shift: usize,
        dst: &mut [u8],
        out: &mut usize,
        Ghost(k): Ghost<int>,
        Ghost(before): Ghost<Seq<u8>>,
    ) -> (r: Result<(), LayoutError>)
        requires
            0 <= k < self@.rounds(),
            y < self.y_dim,
            0 < self.x_dim,
            shift == bytes::sat(k * self.size_bytes),
            self.came_to(before, old(dst)@, k, y as int, 0, *old(out)),
        ensures
            match r {
                Ok(()) => self.came_to(before, final(dst)@, k, y + 1, 0, *final(out)),
                Err(_) => self.job(before).did(final(dst)@, r),
            },
    {
        let ghost p = self@;
        let ghost job = self.job(before);
        let ghost m = self.layout@;
        let y_index = match self.layout.y_index(y) {
            Ok(i) => i,
            Err(e) => {
                proof {
                    law_pieces_are_numbered_in_order(p, k, y as int, 0);
                    job.lemma_stop(dst@, p.number(k, y as int, 0), *out as int, e);
                }
                return Err(e);
            },
        };
        let mut tile_start_x: usize = 0;
        while tile_start_x < self.x_dim
            invariant
                p == self@,
                m == self.layout@,
                job == self.job(before),
                0 <= k < p.rounds(),
                y < self.y_dim,
                shift == bytes::sat(k * self.size_bytes),
                y_index.fits(),
                m.row(y as int) == Ok::<(int, int), LayoutError>(y_index.pair()),
                tile_start_x <= self.x_dim,
                tile_start_x < self.x_dim ==> m.run_start(tile_start_x as int) == tile_start_x,
                self.came_to(before, dst@, k, y as int, tile_start_x as int, *out),
            decreases self.x_dim - tile_start_x,
        {
            let ghost first = tile_start_x as int;
            // Run length of the tile that column tile_start_x belongs to.
            let tile_x_size: usize = match self.layout.run_length(tile_start_x, self.x_dim) {
                Ok(n) => n,
                Err(e) => {
                    proof {
                        if m.x_to_tile_id.i32(first) is Some {
                            let u = choose|u: int|
                                first < u < self.x_dim && #[trigger] is_run(m, first, u)
                                    && m.x_to_tile_id.i32(u) is None;
                            lemma_run_end(m, first, u, first, self.x_dim as int);
                        }
                        law_pieces_are_numbered_in_order(p, k, y as int, first);
                        job.lemma_stop(dst@, p.number(k, y as int, first), *out as int, e);
                    }
                    return Err(e);
                },
            };
            self.walk_run(
                &y_index,
                tile_start_x,
                tile_x_size,
                shift,
                dst,
                out,
                Ghost(k),
                Ghost(y as int),
                Ghost(before),
            )?;
            tile_start_x = tile_start_x + tile_x_size;
            assert(m.x_to_tile_id.i32(tile_start_x - 1) == m.x_to_tile_id.i32(first));
        }
        proof {
            p.lemma_next_row(k, y as int);
        }
        Ok(())
    }

    /// Walks the coordinates of round `k`, row by row.
    fn walk_round(
        &self,
        k: usize,
        dst: &mut [u8],
        out: &mut usize,
        Ghost(before): Ghost<Seq<u8>>,
    ) -> (r: Result<(), LayoutError>)
        requires
            k < self@.rounds(),
            0 < self.x_dim,
            self.came_to(before, old(dst)@, k as int, 0, 0, *old(out)),
        ensures
            match r {
                Ok(()) => self.came_to(before, final(dst)@, k + 1, 0, 0, *final(out)),
                Err(_) => self.job(before).did(final(dst)@, r),
            },
    {
        let shift: usize = bytes::sat_mul(k, self.size_bytes);
        let mut y: usize = 0;
        while y < self.y_dim
            invariant
                k < self@.rounds(),
                0 < self.x_dim,
                shift == bytes::sat(k * self.size_bytes),
                y <= self.y_dim,
                self.came_to(before, dst@, k as int, y as int, 0, *out),
            decreases self.y_dim - y,
        {
            self.walk_row(y, shift, dst, out, Ghost(k as int), Ghost(before))?;
            y = y + 1;
        }
        proof {
            self@.lemma_next_round(k as int);
        }
        Ok(())
    }

    /// Walks all rounds.
    fn walk(&self, dst: &mut [u8]) -> (r: Result<(), LayoutError>)
        requires
            0 < self.x_dim,
            self.given == old(dst)@.len(),
        ensures
            did_copy(old(dst)@, final(dst)@, self.src@, self@.piece(), self@.places(), r),
    {
        let ghost before = dst@;
        let ghost job = self.job(before);
        let mut out: usize = 0;
        proof {
            job.lemma_start();
            assert(self@.number(0, 0, 0) == 0);
            assert(self@.rounds() * 0 == 0);
        }
        if self.y_dim == 0 {
            proof {
                job.lemma_finish(dst@, 0, 0);
            }
            return Ok(());
        }
        let rounds: usize = if self.piece() == 0 {
            1
        } else {
            self.executions
        };
        let mut k: usize = 0;
        while k < rounds
            invariant
                0 < self.x_dim,
                rounds == self@.rounds(),
                k <= rounds,
                before == old(dst)@,
                job == self.job(before),
                self.came_to(before, dst@, k as int, 0, 0, out),
            decreases rounds - k,
        {
            self.walk_round(k, dst, &mut out, Ghost(before))?;
            k = k + 1;
        }
        proof {
            job.lemma_under_way(dst@, self@.number(k as int, 0, 0), out as int);
            job.lemma_finish(dst@, self@.number(k as int, 0, 0), out as int);
        }
        Ok(())
    }
}

impl<'a> OutputLayout<'a> {
    /// The walk where rows have no columns: each row is looked up and nothing
    /// is copied.
    fn walk_rows(&self, y_dim: usize, Ghost(p): Ghost<Plan>, Ghost(src): Ghost<Seq<u8>>, Ghost(
        dst,
    ): Ghost<Seq<u8>>) -> (r: Result<(), LayoutError>)
        requires
            p.maps == self@,
            p.x_dim == 0,
            p.y_dim == y_dim,
        ensures
            did_copy(dst, dst, src, p.piece(), p.places(), r),
    {
        let ghost places = p.places();
        let mut y: usize = 0;
        while y < y_dim
            invariant
                p.maps == self@,
                p.x_dim == 0,
                p.y_dim == y_dim,
                y <= y_dim,
                places == p.places(),
                forall|c: int| 0 <= c < y ==> #[trigger] places[c] is Ok,
            decreases y_dim - y,
        {
            match self.y_index(y) {
                Ok(_) => {
                    assert(places[y as int] is Ok);
                },
                Err(e) => {
                    proof {
                        assert(ended(places, Err(e), y as int));
                        assert(copied(dst, dst, src, 0, places, y as int));
                    }
                    return Err(e);
                },
            }
            y = y + 1;
        }
        proof {
            assert(ended(places, Ok(()), y as int));
            assert(copied(dst, dst, src, 0, places, y as int));
        }
        Ok(())
    }
}

// ---------------------------------------------------------------------------
// Relayout
// ---------------------------------------------------------------------------

impl<'a> Layer<'a> {
    /// The `OutputLayout` tile maps, when this layer carries an `OutputLayer`
    /// union variant.
    fn layout(&self) -> (r: Option<OutputLayout<'a>>)
        ensures
            bytes::agrees(r, maps_of(self@)),
    {
        let table = self.table();
        if table.u8(LAYER_ANY_LAYER_TYPE, 0) != ANY_LAYER_OUTPUT_LAYER {
            return None;
        }
        let output = table.union(LAYER_ANY_LAYER)?;
        let layout = output.table(OUTPUT_LAYER_LAYOUT)?;
        let y_to_tile_id = layout.vector(LAYOUT_Y_TO_TILE_ID)?;
        let x_to_tile_id = layout.vector(LAYOUT_X_TO_TILE_ID)?;
        let tile_byte_offset = layout.vector(LAYOUT_TILE_BYTE_OFFSET)?;
        let x_to_local_byte_offset = layout.vector(LAYOUT_X_TO_LOCAL_BYTE_OFFSET)?;
        let y_to_local_y_offset = layout.vector(LAYOUT_Y_TO_LOCAL_Y_OFFSET)?;
        let x_to_local_y_row_size = layout.vector(LAYOUT_X_TO_LOCAL_Y_ROW_SIZE)?;
        Some(
            OutputLayout {
                y_to_tile_id,
                x_to_tile_id,
                tile_byte_offset,
                x_to_local_byte_offset,
                y_to_local_y_offset,
                x_to_local_y_row_size,
            },
        )
    }

    /// De-interleaves the device's tile-scattered output into the flat
    /// `(y, x, z)` row-major buffer a caller expects.
    ///
    /// `src` is the staging buffer that [`crate::Driver::invoke`] filled;
    /// `dst` receives [`Self::actual_size_bytes`] bytes.
    ///
    /// Two shapes are handled:
    ///
    /// * `x_dim == 1 && y_dim == 1`: a plain vector. The only work is
    ///   stripping per-execution padding when
    ///   `execution_count_per_inference > 1`.
    /// * anything else: walk `(y, x)`, resolve each coordinate to a tile and
    ///   a local byte offset through the six `OutputLayout` maps, and copy
    ///   `z_dim * element_size` bytes per column. The executions lie end to
    ///   end in `src`, [`Self::size_bytes`] apart, and each is walked in turn.
    ///   Where there is nothing to receive, because the layer does not run or
    ///   its coordinates are empty, the coordinates are still resolved, once.
    ///
    /// The padded z stride is *derived*, not read from the executable: the
    /// difference between the buffer index of `(0, 1, 0)` and `(0, 0, 0)`, or
    /// the y equivalent when `x_dim == 1`. A `z_bytes` of 1 or 3 overrides that
    /// with a hardcoded stride of 4, which covers the grayscale and RGB cases.
    /// The override changes which bytes are read, so it is not a fast path.
    pub fn relayout_into(&self, src: &[u8], dst: &mut [u8]) -> (r: Result<(), LayoutError>)
        ensures
            final(dst)@.len() == old(dst)@.len(),
            did_relayout(self@, src@, old(dst)@, final(dst)@, r),
    {
        let dts: usize = self.data_type().size_bytes();
        if dts == 0 {
            return Err(LayoutError::Malformed("unknown layer data type"));
        }
        let x_dim: usize = self.x_dim();
        let y_dim: usize = self.y_dim();
        let z_dim: usize = self.z_dim();
        let z_bytes: usize = bytes::sat_mul(z_dim, dts);
        let executions: usize = self.execution_count_per_inference();

        if y_dim == 1 && x_dim == 1 {
            return self.relayout_vector(src, dst, z_bytes, executions);
        }
        let layout = match self.layout() {
            Some(l) => l,
            None => {
                return Err(LayoutError::Malformed("output layer has no layout maps"));
            },
        };
        let stride: usize = layout.z_stride(x_dim, dts, z_bytes)?;

        let needed: usize = self.actual_size_bytes();
        let given: usize = dst.len();
        if given < needed {
            return Err(LayoutError::BufferTooSmall { needed, given });
        }
        if x_dim == 0 {
            let ghost p = plan(self@, layout@, stride as int, src@, dst@);
            return layout.walk_rows(y_dim, Ghost(p), Ghost(src@), Ghost(dst@));
        }
        let walk = Walk {
            layout,
            x_dim,
            y_dim,
            executions,
            size_bytes: self.size_bytes(),
            dts,
            z_bytes,
            stride,
            needed,
            src,
            given,
        };
        assert(walk@ == plan(self@, layout@, stride as int, src@, dst@));
        walk.walk(dst)
    }

    /// The `x_dim == 1 && y_dim == 1` branch of the relayout.
    fn relayout_vector(
        &self,
        src: &[u8],
        dst: &mut [u8],
        z_bytes: usize,
        executions: usize,
    ) -> (r: Result<(), LayoutError>)
        requires
            z_bytes == bytes::sat(layer::z_of(self@) * layer::type_of(self@).size()),
            executions == layer::executions_of(self@),
        ensures
            final(dst)@.len() == old(dst)@.len(),
            did_relayout_vector(self@, src@, old(dst)@, final(dst)@, r),
    {
        let padded: usize = self.padded_size_bytes();
        let actual: usize = self.actual_size_bytes();
        let total: usize = bytes::sat_mul(z_bytes, executions);
        let given: usize = dst.len();
        let ghost before = dst@;
        if given < total {
            return Err(LayoutError::BufferTooSmall { needed: total, given });
        }
        if executions == 1 || padded == actual {
            if src.len() < total {
                return Err(LayoutError::Malformed("relayout source too short"));
            }
            copy_piece(src, 0, dst, 0, total);
            assert(dst@ =~= src@.take(total as int) + before.skip(total as int));
            return Ok(());
        }
        proof {
            if executions == 0 {
                let t = self@;
                assert(layer::extent(t, layer::LAYER_SIZE_BYTES, 0) * 0 == 0);
                assert(layer::x_of(t) * layer::y_of(t) * layer::z_of(t) * layer::type_of(t).size()
                    * 0 == 0);
            }
        }
        // Strip the padding at the end of each execution.
        let pad: usize = padded.saturating_sub(actual) / executions;
        Self::strip(src, dst, z_bytes, executions, pad, total)
    }

    /// Copies the data of each execution and leaves the padding behind it out.
    fn strip(
        src: &[u8],
        dst: &mut [u8],
        z_bytes: usize,
        executions: usize,
        pad: usize,
        total: usize,
    ) -> (r: Result<(), LayoutError>)
        ensures
            final(dst)@.len() == old(dst)@.len(),
            did_copy(
                old(dst)@,
                final(dst)@,
                src@,
                z_bytes as int,
                strip_places(
                    executions as int,
                    z_bytes as int,
                    pad as int,
                    src@.len() as int,
                    old(dst)@.len() as usize,
                    total,
                ),
                r,
            ),
    {
        let given: usize = dst.len();
        let ghost before = dst@;
        let ghost places = strip_places(
            executions as int,
            z_bytes as int,
            pad as int,
            src@.len() as int,
            before.len() as usize,
            total,
        );
        let ghost job = Copying { before, src: src@, size: z_bytes as int, places };
        let mut si: usize = 0;
        let mut di: usize = 0;
        let mut i: usize = 0;
        proof {
            job.lemma_start();
        }
        while i < executions
            invariant
                i <= executions,
                given == before.len(),
                before == old(dst)@,
                places == strip_places(
                    executions as int,
                    z_bytes as int,
                    pad as int,
                    src@.len() as int,
                    before.len() as usize,
                    total,
                ),
                job == (Copying { before, src: src@, size: z_bytes as int, places }),
                si == bytes::sat(i * (z_bytes + pad)),
                job.reached(dst@, i as int, di as int),
            decreases executions - i,
        {
            proof {
                job.lemma_under_way(dst@, i as int, di as int);
                assert((i + 1) * z_bytes == i * z_bytes + z_bytes) by (nonlinear_arith);
                assert((i + 1) * (z_bytes + pad) == i * (z_bytes + pad) + z_bytes + pad)
                    by (nonlinear_arith);
                assert(i * (z_bytes + pad) >= 0) by (nonlinear_arith);
                assert(src.len() == src@.len());
            }
            if z_bytes > src.len() || si > src.len() - z_bytes {
                let e = LayoutError::Malformed("relayout source too short");
                proof {
                    job.lemma_stop(dst@, i as int, di as int, e);
                }
                return Err(e);
            }
            if z_bytes > given - di {
                let e = LayoutError::BufferTooSmall { needed: total, given };
                proof {
                    job.lemma_stop(dst@, i as int, di as int, e);
                }
                return Err(e);
            }
            put(src, si, dst, &mut di, z_bytes, Ghost(job), Ghost(i as int));
            si = si.saturating_add(z_bytes).saturating_add(pad);
            i = i + 1;
        }
        proof {
            job.lemma_finish(dst@, i as int, di as int);
        }
        Ok(())
    }
}

impl<'a> OutputLayout<'a> {
    /// The padded distance between two neighbouring coordinates.
    fn z_stride(&self, x_dim: usize, dts: usize, z_bytes: usize) -> (r: Result<
        usize,
        LayoutError,
    >)
        ensures
            match r {
                Ok(n) => stride(self@, x_dim as int, dts as int, z_bytes as int) == Ok::<
                    int,
                    LayoutError,
                >(n as int),
                Err(e) => stride(self@, x_dim as int, dts as int, z_bytes as int) == Err::<
                    int,
                    LayoutError,
                >(e),
            },
    {
        // The 1- and 3-byte cases override the derivation entirely.
        if z_bytes == 1 || z_bytes == 3 {
            return Ok(4);
        }
        let y0 = self.y_index(0)?;
        let base: usize = self.buffer_index(&y0, 0)?;
        let next: usize = if x_dim > 1 {
            self.buffer_index(&y0, 1)?
        } else {
            let y1 = self.y_index(1)?;
            self.buffer_index(&y1, 0)?
        };
        if next < base {
            return Err(LayoutError::Malformed("negative z stride"));
        }
        Ok(bytes::sat_mul(next - base, dts))
    }
}

} // verus!
