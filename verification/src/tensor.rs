//! Where the bytes of a tensor come from.
//!
//! The laws of this module say, over the entries of a layer's tile maps and
//! the bytes of the two buffers, what [`crate::Layer::relayout_into`] copies
//! and when it succeeds.
use vstd::prelude::*;

use crate::bytes;
use crate::executable::LayoutError;
use crate::fb::TableView;
use crate::layout;
use crate::layer;
use crate::relayout;
use crate::relayout::{Maps, Plan};

verus! {

// ---------------------------------------------------------------------------
// Places
// ---------------------------------------------------------------------------

/// Law: where a layer keeps its tile maps. Its field 18 says that it is an
/// output layer and its field 20 refers to one, whose field 4 refers to the
/// six maps.
pub proof fn law_maps_of_a_layer(t: TableView)
    ensures
        t.u8_or(18, 0) != 1 ==> relayout::maps_of(t) is None,
        t.table(20) is None ==> relayout::maps_of(t) is None,
        t.table(20) matches Some(o) ==> (o.table(4) is None ==> relayout::maps_of(t) is None),
        t.u8_or(18, 0) == 1 ==> (t.table(20) matches Some(o) ==> (o.table(4) matches Some(l) ==> {
            match relayout::maps_of(t) {
                Some(m) => {
                    &&& l.vector(4) == Some(m.y_to_tile_id)
                    &&& l.vector(6) == Some(m.x_to_tile_id)
                    &&& l.vector(8) == Some(m.tile_byte_offset)
                    &&& l.vector(10) == Some(m.x_to_local_byte_offset)
                    &&& l.vector(12) == Some(m.y_to_local_y_offset)
                    &&& l.vector(14) == Some(m.x_to_local_y_row_size)
                },
                None => l.vector(4) is None || l.vector(6) is None || l.vector(8) is None
                    || l.vector(10) is None || l.vector(12) is None || l.vector(14) is None,
            }
        })),
{
}

/// The tile that row `y` and column `x` are in.
pub open spec fn tile(m: Maps, y: int, x: int) -> int {
    layout::entry(m.y_to_tile_id, y) + layout::entry(m.x_to_tile_id, x)
}

/// The element of the source at row `y` and column `x`, by the maps alone.
pub open spec fn spot_of(m: Maps, y: int, x: int) -> int {
    layout::entry(m.tile_byte_offset, tile(m, y, x)) + layout::entry(m.y_to_local_y_offset, y)
        * layout::entry(m.x_to_local_y_row_size, x) + layout::entry(m.x_to_local_byte_offset, x)
}

/// The maps have all that row `y` and column `x` need.
pub open spec fn is_mapped(m: Maps, y: int, x: int) -> bool {
    &&& layout::has_entry(m.y_to_tile_id, y)
    &&& layout::has_entry(m.y_to_local_y_offset, y)
    &&& layout::has_entry(m.x_to_tile_id, x)
    &&& layout::has_entry(m.x_to_local_byte_offset, x)
    &&& layout::has_entry(m.x_to_local_y_row_size, x)
    &&& layout::has_entry(m.tile_byte_offset, tile(m, y, x))
    &&& 0 <= spot_of(m, y, x)
}

/// How far apart two neighbouring coordinates of one tile are in the source:
/// four bytes where a coordinate has one or three, else as far as the first
/// two coordinates are.
pub open spec fn step_of(m: Maps, x_dim: int, size: int, z_bytes: int) -> int {
    if z_bytes == 1 || z_bytes == 3 {
        4
    } else if x_dim > 1 {
        (spot_of(m, 0, 1) - spot_of(m, 0, 0)) * size
    } else {
        (spot_of(m, 1, 0) - spot_of(m, 0, 0)) * size
    }
}

/// Column `s` is the first of the run of equal tile IDs that column `x` is in.
pub open spec fn starts_run(m: Maps, s: int, x: int) -> bool {
    &&& 0 <= s <= x
    &&& forall|j: int|
        s <= j <= x ==> #[trigger] layout::entry(m.x_to_tile_id, j) == layout::entry(
            m.x_to_tile_id,
            s,
        )
    &&& s > 0 ==> layout::entry(m.x_to_tile_id, s - 1) != layout::entry(m.x_to_tile_id, s)
}

/// What the maps yield where an element can be placed.
proof fn lemma_index(m: Maps, y: int, x: int)
    ensures
        match m.index_of(y, x) {
            Ok(at) => {
                &&& is_mapped(m, y, x)
                &&& at == spot_of(m, y, x)
            },
            Err(_) => is_mapped(m, y, x) ==> spot_of(m, y, x) > usize::MAX,
        },
{
    layout::law_elements(m.y_to_tile_id, y);
    layout::law_elements(m.y_to_local_y_offset, y);
    layout::law_elements(m.x_to_tile_id, x);
    layout::law_elements(m.x_to_local_byte_offset, x);
    layout::law_elements(m.x_to_local_y_row_size, x);
    if m.row(y) is Ok && m.x_to_tile_id.i32(x) is Some {
        layout::law_elements(m.tile_byte_offset, tile(m, y, x));
    } else {
        layout::law_elements(m.tile_byte_offset, tile(m, y, x));
    }
}

/// The distance between two coordinates, where it can be derived.
proof fn lemma_step(m: Maps, x_dim: int, size: int, z_bytes: int)
    requires
        0 <= size,
    ensures
        match relayout::stride(m, x_dim, size, z_bytes) {
            Ok(st) => 0 <= step_of(m, x_dim, size, z_bytes) && st == bytes::sat(
                step_of(m, x_dim, size, z_bytes),
            ),
            Err(_) => true,
        },
{
    lemma_index(m, 0, 0);
    lemma_index(m, 0, 1);
    lemma_index(m, 1, 0);
    if z_bytes != 1 && z_bytes != 3 {
        let base = spot_of(m, 0, 0);
        let next = if x_dim > 1 {
            spot_of(m, 0, 1)
        } else {
            spot_of(m, 1, 0)
        };
        if base <= next {
            assert(0 <= (next - base) * size) by (nonlinear_arith)
                requires
                    base <= next,
                    0 <= size,
            ;
        }
    }
}

/// The first column of a run is where the maps' own search ends.
proof fn lemma_run(m: Maps, s: int, x: int)
    requires
        starts_run(m, s, x),
        forall|j: int| 0 <= j <= x ==> (#[trigger] m.x_to_tile_id.i32(j)) is Some,
    ensures
        m.run_start(x) == s,
    decreases x - s,
{
    assert(m.x_to_tile_id.i32(x) is Some);
    layout::law_elements(m.x_to_tile_id, x);
    if x > 0 {
        assert(m.x_to_tile_id.i32(x - 1) is Some);
        layout::law_elements(m.x_to_tile_id, x - 1);
    }
    if s < x {
        assert(layout::entry(m.x_to_tile_id, x) == layout::entry(m.x_to_tile_id, s));
        assert(layout::entry(m.x_to_tile_id, x - 1) == layout::entry(m.x_to_tile_id, s));
        lemma_run(m, s, x - 1);
    }
}

/// The other way round: where the search ends, a run starts.
proof fn lemma_run_found(m: Maps, x: int)
    requires
        0 <= x,
        forall|j: int| 0 <= j <= x ==> (#[trigger] m.x_to_tile_id.i32(j)) is Some,
    ensures
        starts_run(m, m.run_start(x), x),
    decreases x,
{
    assert(m.x_to_tile_id.i32(x) is Some);
    layout::law_elements(m.x_to_tile_id, x);
    if x > 0 {
        assert(m.x_to_tile_id.i32(x - 1) is Some);
        layout::law_elements(m.x_to_tile_id, x - 1);
        if m.x_to_tile_id.i32(x) == m.x_to_tile_id.i32(x - 1) {
            lemma_run_found(m, x - 1);
            let s = m.run_start(x);
            assert forall|j: int| s <= j <= x implies #[trigger] layout::entry(m.x_to_tile_id, j)
                == layout::entry(m.x_to_tile_id, s) by {
                if j == x {
                    assert(layout::entry(m.x_to_tile_id, x - 1) == layout::entry(
                        m.x_to_tile_id,
                        s,
                    ));
                }
            }
        }
    }
}

// ---------------------------------------------------------------------------
// Tiled layers
// ---------------------------------------------------------------------------

/// What a relayout that succeeded knows of each coordinate.
proof fn lemma_all_placed(
    t: TableView,
    src: Seq<u8>,
    before: Seq<u8>,
    after: Seq<u8>,
    k: int,
    y: int,
    x: int,
) -> (p: Plan)
    requires
        relayout::did_relayout(t, src, before, after, Ok(())),
        !relayout::is_vector(t),
        0 <= k < layer::executions_of(t),
        0 <= y < layer::y_of(t),
        0 <= x < layer::x_of(t),
        0 < layer::z_of(t),
    ensures
        relayout::plan_of(t, src, before) == Ok::<Plan, LayoutError>(p),
        relayout::maps_of(t) == Some(p.maps),
        p.place_at(k, y, x) is Ok,
        p.z_bytes == p.piece(),
        0 < p.z_bytes,
        p.is_natural(),
{
    let p = relayout::plan_of(t, src, before)->Ok_0;
    relayout::lemma_plan_is_natural(t, src, before);
    let size = layer::type_of(t).size();
    assert(0 < layer::z_of(t) * size) by (nonlinear_arith)
        requires
            0 < layer::z_of(t),
            0 < size,
    ;
    relayout::law_pieces_are_numbered_in_order(p, k, y, x);
    assert(p.places()[p.number(k, y, x)] is Ok);
    p
}

/// A layer with more than one coordinate that was laid out has coordinates
/// that a `usize` can count.
proof fn lemma_z_bytes(t: TableView, src: Seq<u8>, before: Seq<u8>, after: Seq<u8>)
    requires
        relayout::did_relayout(t, src, before, after, Ok(())),
        !relayout::is_vector(t),
        before.len() <= usize::MAX,
        0 < layer::executions_of(t),
        0 < layer::y_of(t),
        0 < layer::x_of(t),
        0 < layer::z_of(t),
    ensures
        relayout::z_bytes_of(t) == layer::z_of(t) * layer::type_of(t).size(),
{
    let (x, y, n) = (layer::x_of(t), layer::y_of(t), layer::executions_of(t));
    let size = layer::type_of(t).size();
    let z = layer::z_of(t) * size;
    relayout::law_relayout_fills_the_tensor(t, src, before, after);
    let actual = layer::actual_size(t);
    assert(x * y * layer::z_of(t) * size * n == (n * (y * x)) * z) by (nonlinear_arith)
        requires
            z == layer::z_of(t) * size,
    ;
    let p = lemma_all_placed(t, src, before, after, n - 1, y - 1, x - 1);
    relayout::lemma_place_is_inside(p, n - 1, y - 1, x - 1);
    let c = p.number(n - 1, y - 1, x - 1);
    assert(c + 1 >= 2) by (nonlinear_arith)
        requires
            c == (n - 1) * (y * x) + (y - 1) * x + (x - 1),
            n >= 1,
            y >= 1,
            x >= 1,
            x != 1 || y != 1,
    ;
    assert(2 * p.z_bytes <= (c + 1) * p.z_bytes) by (nonlinear_arith)
        requires
            c + 1 >= 2,
            0 < p.z_bytes,
    ;
}

/// Law: where each byte of a tensor comes from. In the relayout of a layer with
/// more than one coordinate, the maps place the first column `s` of each run of
/// equal tile IDs; the columns behind it follow a step apart, and the
/// executions a padded size apart.
pub proof fn law_where_each_byte_comes_from(
    t: TableView,
    src: Seq<u8>,
    before: Seq<u8>,
    after: Seq<u8>,
    m: Maps,
    k: int,
    y: int,
    s: int,
    x: int,
    b: int,
)
    requires
        relayout::did_relayout(t, src, before, after, Ok(())),
        src.len() <= usize::MAX,
        before.len() <= usize::MAX,
        layer::x_of(t) != 1 || layer::y_of(t) != 1,
        relayout::maps_of(t) == Some(m),
        0 <= k < layer::executions_of(t),
        0 <= y < layer::y_of(t),
        0 <= x < layer::x_of(t),
        0 <= b < layer::z_of(t) * layer::type_of(t).size(),
        starts_run(m, s, x),
    ensures
        ({
            let size = layer::type_of(t).size();
            let z_bytes = layer::z_of(t) * size;
            let from = spot_of(m, y, s) * size + (x - s) * step_of(m, layer::x_of(t), size, z_bytes)
                + k * layer::extent(t, 6, 0) + b;
            let to = ((k * layer::y_of(t) + y) * layer::x_of(t) + x) * z_bytes + b;
            &&& 0 <= from < src.len()
            &&& 0 <= to < after.len()
            &&& after[to] == src[from]
        }),
{
    let size = layer::type_of(t).size();
    let z_bytes = layer::z_of(t) * size;
    let (x_dim, y_dim) = (layer::x_of(t), layer::y_of(t));
    assert(0 < layer::z_of(t) && 0 < size) by (nonlinear_arith)
        requires
            0 < layer::z_of(t) * size,
            0 <= layer::z_of(t),
            0 <= size,
    ;
    lemma_z_bytes(t, src, before, after);
    let p = lemma_all_placed(t, src, before, after, k, y, x);
    assert forall|j: int| 0 <= j <= x implies (#[trigger] m.x_to_tile_id.i32(j)) is Some by {
        let q = lemma_all_placed(t, src, before, after, k, y, j);
        assert(q.source(y, j) is Ok);
    }
    lemma_run(m, s, x);
    lemma_index(m, y, s);
    lemma_step(m, x_dim, size, z_bytes);
    relayout::law_executions_lie_end_to_end(t, src, before, after, k, y, x, b);
    relayout::lemma_place_is_inside(p, k, y, x);
    relayout::lemma_source_is_natural(p, y, x);
    let step = step_of(m, x_dim, size, z_bytes);
    let a = spot_of(m, y, s) * size;
    assert(0 <= a) by (nonlinear_arith)
        requires
            0 <= spot_of(m, y, s),
            0 < size,
            a == spot_of(m, y, s) * size,
    ;
    let st = p.stride;
    assert(p.source(y, x) == Ok::<int, LayoutError>(bytes::sat(bytes::sat(a) + (x - s) * st)));
    if x == s {
        assert((x - s) * st == 0 && (x - s) * step == 0) by (nonlinear_arith)
            requires
                x == s,
        ;
    } else {
        assert((x - s) * st >= st) by (nonlinear_arith)
            requires
                x - s >= 1,
                st >= 0,
        ;
    }
    let n = p.number(k, y, x);
    assert(n == (k * y_dim + y) * x_dim + x) by (nonlinear_arith)
        requires
            n == k * (y_dim * x_dim) + y * x_dim + x,
    ;
    let first = p.source(y, x)->Ok_0;
    assert(0 <= k * p.size_bytes) by (nonlinear_arith)
        requires
            0 <= k,
            0 <= p.size_bytes,
    ;
    assert(first + k * p.size_bytes + z_bytes <= src.len());
    assert(first == a + (x - s) * step);
    relayout::law_relayout_stays_inside(t, src, before, after, Ok(()));
    assert((n + 1) * z_bytes == n * z_bytes + z_bytes && 0 <= n * z_bytes) by (nonlinear_arith)
        requires
            0 <= n,
            0 < z_bytes,
    ;
}

/// Law: pixels of one or three bytes are read four bytes apart. Where two
/// neighbouring columns are in one tile, every byte of the right one is taken
/// from four bytes behind where the same byte of the left one is taken from.
pub proof fn law_small_pixels_lie_four_apart(
    t: TableView,
    src: Seq<u8>,
    before: Seq<u8>,
    after: Seq<u8>,
    m: Maps,
    k: int,
    y: int,
    x: int,
    b: int,
) -> (i: int)
    requires
        relayout::did_relayout(t, src, before, after, Ok(())),
        src.len() <= usize::MAX,
        before.len() <= usize::MAX,
        relayout::maps_of(t) == Some(m),
        layer::z_of(t) * layer::type_of(t).size() == 1 || layer::z_of(t) * layer::type_of(t).size()
            == 3,
        0 <= k < layer::executions_of(t),
        0 <= y < layer::y_of(t),
        0 <= x,
        x + 1 < layer::x_of(t),
        0 <= b < layer::z_of(t) * layer::type_of(t).size(),
        layout::entry(m.x_to_tile_id, x + 1) == layout::entry(m.x_to_tile_id, x),
    ensures
        ({
            let z_bytes = layer::z_of(t) * layer::type_of(t).size();
            let c = (k * layer::y_of(t) + y) * layer::x_of(t) + x;
            &&& 0 <= i
            &&& i + 4 < src.len()
            &&& after[c * z_bytes + b] == src[i]
            &&& after[(c + 1) * z_bytes + b] == src[i + 4]
            &&& x == 0 ==> i == spot_of(m, y, 0) * layer::type_of(t).size() + k * layer::extent(
                t,
                6,
                0,
            ) + b
        }),
{
    let size = layer::type_of(t).size();
    let z_bytes = layer::z_of(t) * size;
    assert(0 < layer::z_of(t)) by (nonlinear_arith)
        requires
            0 < layer::z_of(t) * size,
            0 <= layer::z_of(t),
            0 <= size,
    ;
    assert forall|j: int| 0 <= j <= x + 1 implies (#[trigger] m.x_to_tile_id.i32(j)) is Some by {
        let q = lemma_all_placed(t, src, before, after, k, y, j);
        assert(q.source(y, j) is Ok);
    }
    let s = m.run_start(x);
    lemma_run_found(m, x);
    assert(starts_run(m, s, x + 1)) by {
        assert forall|j: int| s <= j <= x + 1 implies #[trigger] layout::entry(m.x_to_tile_id, j)
            == layout::entry(m.x_to_tile_id, s) by {
            assert(layout::entry(m.x_to_tile_id, x) == layout::entry(m.x_to_tile_id, s));
        }
    }
    law_where_each_byte_comes_from(t, src, before, after, m, k, y, s, x, b);
    law_where_each_byte_comes_from(t, src, before, after, m, k, y, s, x + 1, b);
    spot_of(m, y, s) * size + (x - s) * 4 + k * layer::extent(t, 6, 0) + b
}

/// How often the coordinates of a layer are gone through: once per execution,
/// and once where there is nothing to copy.
pub open spec fn rounds_of(t: TableView) -> int {
    if layer::executions_of(t) > 1 && layer::z_of(t) > 0 {
        layer::executions_of(t)
    } else {
        1
    }
}

/// The coordinates of a layer can all be placed, and the source holds them.
pub open spec fn is_laid_out(t: TableView, m: Maps, src: Seq<u8>) -> bool {
    let size = layer::type_of(t).size();
    let z_bytes = layer::z_of(t) * size;
    let step = step_of(m, layer::x_of(t), size, z_bytes);
    &&& 0 <= step
    &&& forall|y: int, x: int|
        0 <= y < layer::y_of(t) && 0 <= x < layer::x_of(t) ==> #[trigger] is_mapped(m, y, x)
            && spot_of(m, y, x) <= usize::MAX
    &&& forall|k: int, y: int, s: int, x: int|
        0 <= k < rounds_of(t) && 0 <= y < layer::y_of(t) && 0 <= x < layer::x_of(t)
            && starts_run(m, s, x) ==> #[trigger] lands(m, size, step, k, layer::extent(t, 6, 0), y,
            s, x) + z_bytes <= src.len()
}

/// Where the coordinate `(y, x)` of execution `k` is in the source, where its
/// run starts at column `s`.
pub open spec fn lands(
    m: Maps,
    size: int,
    step: int,
    k: int,
    padded: int,
    y: int,
    s: int,
    x: int,
) -> int {
    spot_of(m, y, s) * size + (x - s) * step + k * padded
}

/// One coordinate of a layer that is laid out has a place.
proof fn lemma_has_place(t: TableView, m: Maps, src: Seq<u8>, p: Plan, k: int, y: int, x: int)
    requires
        is_laid_out(t, m, src),
        src.len() <= usize::MAX,
        p.is_natural(),
        p.maps == m,
        p.x_dim == layer::x_of(t),
        p.y_dim == layer::y_of(t),
        p.executions == layer::executions_of(t),
        p.size_bytes == layer::extent(t, 6, 0),
        p.dts == layer::type_of(t).size(),
        p.z_bytes == layer::z_of(t) * p.dts,
        p.stride == bytes::sat(step_of(m, p.x_dim, p.dts, p.z_bytes)),
        p.src_len == src.len(),
        0 < p.dts,
        0 <= k < rounds_of(t),
        0 <= y < p.y_dim,
        0 <= x < p.x_dim,
        (p.number(k, y, x) + 1) * p.piece() <= p.dst_len,
    ensures
        p.place_at(k, y, x) is Ok,
{
    let step = step_of(m, p.x_dim, p.dts, p.z_bytes);
    assert forall|j: int| 0 <= j < p.x_dim implies (#[trigger] m.x_to_tile_id.i32(j)) is Some by {
        assert(is_mapped(m, y, j));
        layout::law_elements(m.x_to_tile_id, j);
    }
    let s = m.run_start(x);
    lemma_run_found(m, x);
    assert(is_mapped(m, y, s));
    lemma_index(m, y, s);
    let at = lands(m, p.dts, step, k, p.size_bytes, y, s, x);
    assert(at + p.z_bytes <= src.len());
    let a = spot_of(m, y, s) * p.dts;
    assert(spot_of(m, y, s) <= a) by (nonlinear_arith)
        requires
            0 <= spot_of(m, y, s),
            0 < p.dts,
            a == spot_of(m, y, s) * p.dts,
    ;
    assert(0 <= (x - s) * step && 0 <= k * p.size_bytes) by (nonlinear_arith)
        requires
            s <= x,
            0 <= step,
            0 <= k,
            0 <= p.size_bytes,
    ;
    if x == s {
        assert((x - s) * p.stride == 0 && (x - s) * step == 0) by (nonlinear_arith)
            requires
                x == s,
        ;
    } else {
        assert((x - s) * step >= step) by (nonlinear_arith)
            requires
                x - s >= 1,
                step >= 0,
        ;
    }
    let end = m.run_end(x, p.x_dim);
    lemma_run_end_bounds(m, x, p.x_dim);
    if end < p.x_dim {
        assert(m.x_to_tile_id.i32(end) is Some);
    }
    assert(m.x_to_tile_id.i32(x) is Some);
    assert(m.index_of(y, s) is Ok);
    assert(p.source(y, x) == Ok::<int, LayoutError>(a + (x - s) * step));
}

proof fn lemma_run_end_bounds(m: Maps, x: int, x_dim: int)
    requires
        0 <= x < x_dim,
    ensures
        x < m.run_end(x, x_dim) <= x_dim,
    decreases x_dim - x,
{
    if x + 1 < x_dim {
        lemma_run_end_bounds(m, x + 1, x_dim);
    }
}

/// Law: a relayout that can succeed does. Where the element type is known, the
/// maps place every coordinate, the source holds them all and the destination
/// has room for the tensor, the result is success.
pub proof fn law_relayout_succeeds(
    t: TableView,
    src: Seq<u8>,
    before: Seq<u8>,
    after: Seq<u8>,
    m: Maps,
    res: Result<(), LayoutError>,
)
    requires
        relayout::did_relayout(t, src, before, after, res),
        src.len() <= usize::MAX,
        before.len() <= usize::MAX,
        layer::x_of(t) != 1 || layer::y_of(t) != 1,
        0 < layer::x_of(t),
        0 < layer::y_of(t),
        0 < layer::type_of(t).size(),
        layer::z_of(t) * layer::type_of(t).size() <= usize::MAX,
        relayout::maps_of(t) == Some(m),
        is_laid_out(t, m, src),
        layer::x_of(t) * layer::y_of(t) * layer::z_of(t) * layer::type_of(t).size()
            * layer::executions_of(t) <= before.len(),
    ensures
        res is Ok,
{
    let (x_dim, y_dim, n) = (layer::x_of(t), layer::y_of(t), layer::executions_of(t));
    let size = layer::type_of(t).size();
    let z_bytes = layer::z_of(t) * size;
    let total = n * (y_dim * x_dim);
    assert(x_dim * y_dim * layer::z_of(t) * size * n == total * z_bytes) by (nonlinear_arith)
        requires
            total == n * (y_dim * x_dim),
            z_bytes == layer::z_of(t) * size,
    ;
    assert(0 <= z_bytes && 0 <= total && (z_bytes == 0 <==> layer::z_of(t) == 0)
        && 0 < y_dim * x_dim) by (nonlinear_arith)
        requires
            0 <= layer::z_of(t),
            0 < size,
            0 <= n,
            0 < y_dim,
            0 < x_dim,
            z_bytes == layer::z_of(t) * size,
            total == n * (y_dim * x_dim),
    ;
    lemma_stride_is_known(t, m, src);
    let p = relayout::plan_of(t, src, before)->Ok_0;
    relayout::lemma_plan_is_natural(t, src, before);
    let places = p.places();
    if res is Err {
        let e = res->Err_0;
        let c = choose|c: int|
            #[trigger] relayout::ended(places, res, c) && relayout::copied(
                before,
                after,
                src,
                p.piece(),
                places,
                c,
            );
        relayout::law_every_piece_has_a_coordinate(p, c);
        let (k, y, x) = (p.round_at(c), p.row_at(c), p.column_at(c));
        relayout::law_pieces_are_numbered_in_order(p, k, y, x);
        relayout::lemma_plan_reach(p);
        if p.piece() == 0 {
            assert((c + 1) * p.piece() == 0) by (nonlinear_arith)
                requires
                    p.piece() == 0,
            ;
        } else {
            assert((c + 1) * z_bytes <= total * z_bytes) by (nonlinear_arith)
                requires
                    c + 1 <= total,
                    0 <= z_bytes,
            ;
        }
        lemma_has_place(t, m, src, p, k, y, x);
    }
}

/// A layer that is laid out has a distance between its coordinates.
proof fn lemma_stride_is_known(t: TableView, m: Maps, src: Seq<u8>)
    requires
        is_laid_out(t, m, src),
        src.len() <= usize::MAX,
        layer::x_of(t) != 1 || layer::y_of(t) != 1,
        0 < layer::x_of(t),
        0 < layer::y_of(t),
        0 < layer::type_of(t).size(),
        0 <= layer::z_of(t) * layer::type_of(t).size() <= usize::MAX,
    ensures
        relayout::z_bytes_of(t) == layer::z_of(t) * layer::type_of(t).size(),
        relayout::stride(
            m,
            layer::x_of(t),
            layer::type_of(t).size(),
            relayout::z_bytes_of(t),
        ) is Ok,
        relayout::stride(
            m,
            layer::x_of(t),
            layer::type_of(t).size(),
            relayout::z_bytes_of(t),
        )->Ok_0 == bytes::sat(
            step_of(
                m,
                layer::x_of(t),
                layer::type_of(t).size(),
                layer::z_of(t) * layer::type_of(t).size(),
            ),
        ),
{
    let (x_dim, y_dim) = (layer::x_of(t), layer::y_of(t));
    let size = layer::type_of(t).size();
    let z_bytes = layer::z_of(t) * size;
    let step = step_of(m, x_dim, size, z_bytes);
    lemma_step(m, x_dim, size, z_bytes);
    if z_bytes != 1 && z_bytes != 3 {
        let (y1, x1) = if x_dim > 1 {
            (0int, 1int)
        } else {
            (1int, 0int)
        };
        assert(is_mapped(m, 0, 0));
        assert(is_mapped(m, y1, x1));
        lemma_index(m, 0, 0);
        lemma_index(m, y1, x1);
        let (base, next) = (spot_of(m, 0, 0), spot_of(m, y1, x1));
        assert(base <= next) by (nonlinear_arith)
            requires
                0 <= (next - base) * size,
                0 < size,
        ;
    }
}

/// Why coordinate `(y, x)` of round `k` could not be copied: an entry that the
/// maps lack, a tile or an element that cannot be, or a source or a destination
/// that is too short. Each reason has its own error.
pub open spec fn is_reason(
    t: TableView,
    m: Maps,
    src: Seq<u8>,
    before: Seq<u8>,
    k: int,
    y: int,
    x: int,
    e: LayoutError,
) -> bool {
    let size = layer::type_of(t).size();
    let z_bytes = layer::z_of(t) * size;
    let step = step_of(m, layer::x_of(t), size, z_bytes);
    ||| !layout::has_entry(m.y_to_tile_id, y) && e == LayoutError::Malformed(
        "y_coordinate_to_linear_tile_id_map",
    )
    ||| !layout::has_entry(m.y_to_local_y_offset, y) && e == LayoutError::Malformed(
        "y_coordinate_to_local_y_offset",
    )
    ||| e == LayoutError::Malformed("x_coordinate_to_linear_tile_id_map") && exists|u: int|
        x <= u < layer::x_of(t) && !#[trigger] layout::has_entry(m.x_to_tile_id, u)
    ||| exists|s: int| #[trigger]
        starts_run(m, s, x) && {
            ||| tile(m, y, s) < 0 && e == LayoutError::Malformed("negative tile id")
            ||| !layout::has_entry(m.tile_byte_offset, tile(m, y, s)) && e
                == LayoutError::Malformed("linearized_tile_byte_offset")
            ||| !layout::has_entry(m.x_to_local_byte_offset, s) && e == LayoutError::Malformed(
                "x_coordinate_to_local_byte_offset",
            )
            ||| !layout::has_entry(m.x_to_local_y_row_size, s) && e == LayoutError::Malformed(
                "x_coordinate_to_local_y_row_size",
            )
            ||| !(0 <= spot_of(m, y, s) <= usize::MAX) && e == LayoutError::Malformed(
                "negative buffer index",
            )
            ||| lands(m, size, step, k, layer::extent(t, 6, 0), y, s, x) + z_bytes > src.len() && e
                == LayoutError::Malformed("relayout source out of range")
        }
    ||| e == (LayoutError::BufferTooSmall {
        needed: layer::actual_size(t) as usize,
        given: before.len() as usize,
    }) && before.len() < ((k * layer::y_of(t) + y) * layer::x_of(t) + x + 1) * z_bytes
}

/// A coordinate whose run starts at a known column.
proof fn lemma_placed(
    t: TableView,
    m: Maps,
    src: Seq<u8>,
    before: Seq<u8>,
    k: int,
    y: int,
    s: int,
    x: int,
)
    requires
        relayout::plan_of(t, src, before) is Ok,
        relayout::maps_of(t) == Some(m),
        src.len() <= usize::MAX,
        layer::z_of(t) * layer::type_of(t).size() <= usize::MAX,
        0 <= k,
        0 <= x < layer::x_of(t),
        forall|j: int| 0 <= j <= x ==> (#[trigger] m.x_to_tile_id.i32(j)) is Some,
        starts_run(m, s, x),
    ensures
        ({
            let p = relayout::plan_of(t, src, before)->Ok_0;
            let size = layer::type_of(t).size();
            let z_bytes = layer::z_of(t) * size;
            let at = lands(
                m,
                size,
                step_of(m, layer::x_of(t), size, z_bytes),
                k,
                layer::extent(t, 6, 0),
                y,
                s,
                x,
            );
            &&& p.z_bytes == z_bytes
            &&& p.place_at(k, y, x) is Ok && 0 < z_bytes ==> p.place_at(k, y, x) == Ok::<
                int,
                LayoutError,
            >(at) && 0 <= at && at + z_bytes <= src.len()
            &&& p.source(y, x) is Ok && bytes::sat(
                p.source(y, x)->Ok_0 + k * p.size_bytes,
            ) + z_bytes > src.len() ==> at + z_bytes > src.len()
            &&& p.source(y, x) is Ok ==> is_mapped(m, y, s)
        }),
{
    let p = relayout::plan_of(t, src, before)->Ok_0;
    let size = layer::type_of(t).size();
    let z_bytes = layer::z_of(t) * size;
    let (x_dim, y_dim) = (layer::x_of(t), layer::y_of(t));
    let step = step_of(m, x_dim, size, z_bytes);
    relayout::lemma_plan_is_natural(t, src, before);
    lemma_run(m, s, x);
    lemma_index(m, y, s);
    lemma_step(m, x_dim, size, z_bytes);
    assert(0 <= k * p.size_bytes) by (nonlinear_arith)
        requires
            0 <= k,
            0 <= p.size_bytes,
    ;
    if p.source(y, x) is Ok {
        let a = spot_of(m, y, s) * size;
        let st = p.stride;
        assert(0 <= a && 0 <= (x - s) * step && 0 <= (x - s) * st) by (nonlinear_arith)
            requires
                0 <= spot_of(m, y, s),
                0 <= size,
                a == spot_of(m, y, s) * size,
                0 <= step,
                0 <= st,
                s <= x,
        ;
        assert(p.source(y, x) == Ok::<int, LayoutError>(bytes::sat(bytes::sat(a) + (x - s) * st)));
        if x == s {
            assert((x - s) * st == 0 && (x - s) * step == 0) by (nonlinear_arith)
                requires
                    x == s,
            ;
        } else {
            assert((x - s) * st >= st && (x - s) * step >= step && (step >= st ==> (x - s) * step
                >= (x - s) * st)) by (nonlinear_arith)
                requires
                    x - s >= 1,
                    st >= 0,
                    step >= 0,
            ;
        }
    }
}

/// Law: a relayout that began to copy and failed has a reason, at the first
/// coordinate that could not be copied. What the coordinates in front of it
/// bring has been copied; nothing behind has changed. The law gives the
/// coordinate, and is told of one in front of it.
pub proof fn law_relayout_fails_for_a_reason(
    t: TableView,
    src: Seq<u8>,
    before: Seq<u8>,
    after: Seq<u8>,
    m: Maps,
    e: LayoutError,
    k0: int,
    y0: int,
    s0: int,
    x0: int,
    b: int,
) -> (at: (int, int, int))
    requires
        relayout::did_relayout(t, src, before, after, Err(e)),
        src.len() <= usize::MAX,
        before.len() <= usize::MAX,
        layer::x_of(t) != 1 || layer::y_of(t) != 1,
        0 < layer::x_of(t),
        0 < layer::executions_of(t),
        0 < layer::type_of(t).size(),
        layer::z_of(t) * layer::type_of(t).size() <= usize::MAX,
        relayout::maps_of(t) == Some(m),
        relayout::plan_of(t, src, before) is Ok,
        layer::actual_size(t) <= before.len(),
    ensures
        ({
            let (k, y, x) = at;
            let size = layer::type_of(t).size();
            let z_bytes = layer::z_of(t) * size;
            let (x_dim, y_dim) = (layer::x_of(t), layer::y_of(t));
            let c = (k * y_dim + y) * x_dim + x;
            let c0 = (k0 * y_dim + y0) * x_dim + x0;
            &&& 0 <= k < layer::executions_of(t)
            &&& 0 <= y < y_dim
            &&& 0 <= x < x_dim
            &&& is_reason(t, m, src, before, k, y, x, e)
            &&& after.len() == before.len()
            &&& forall|j: int| c * z_bytes <= j < before.len() ==> #[trigger] after[j] == before[j]
            &&& 0 <= k0 && 0 <= y0 < y_dim && 0 <= x0 < x_dim && 0 <= b < z_bytes && c0 < c
                && starts_run(m, s0, x0) ==> after[c0 * z_bytes + b] == src[lands(
                m,
                size,
                step_of(m, x_dim, size, z_bytes),
                k0,
                layer::extent(t, 6, 0),
                y0,
                s0,
                x0,
            ) + b]
        }),
{
    let p = relayout::plan_of(t, src, before)->Ok_0;
    let places = p.places();
    let res = Err::<(), LayoutError>(e);
    let (x_dim, y_dim) = (layer::x_of(t), layer::y_of(t));
    let z_bytes = layer::z_of(t) * layer::type_of(t).size();
    relayout::lemma_plan_is_natural(t, src, before);
    assert(relayout::did_copy(before, after, src, p.piece(), places, res));
    let c = choose|c: int|
        #[trigger] relayout::ended(places, res, c) && relayout::copied(
            before,
            after,
            src,
            p.piece(),
            places,
            c,
        );
    relayout::law_every_piece_has_a_coordinate(p, c);
    let (k, y, x) = (p.round_at(c), p.row_at(c), p.column_at(c));
    relayout::law_pieces_are_numbered_in_order(p, k, y, x);
    lemma_number(p, k, y, x);
    lemma_number(p, k0, y0, x0);
    assert(p.z_bytes == z_bytes);
    assert(p.piece() == z_bytes);
    lemma_reason(t, m, src, before, p, c, k, y, x, e);
    let c0 = p.number(k0, y0, x0);
    if 0 <= k0 && 0 <= y0 < y_dim && 0 <= x0 < x_dim && 0 <= b < z_bytes && c0 < c && starts_run(
        m,
        s0,
        x0,
    ) {
        assert(k0 < p.rounds()) by (nonlinear_arith)
            requires
                k0 * (y_dim * x_dim) + y0 * x_dim + x0 < k * (y_dim * x_dim) + y * x_dim + x,
                0 <= y0,
                0 <= x0 < x_dim,
                0 <= y < y_dim,
                0 <= x < x_dim,
                k < p.rounds(),
        ;
        lemma_columns_read(p, places, res, c, k0, y0, x0);
        relayout::law_pieces_are_numbered_in_order(p, k0, y0, x0);
        assert(places[c0] is Ok);
        lemma_placed(t, m, src, before, k0, y0, s0, x0);
        assert(after[relayout::spot(c0, z_bytes, b)] == src[places[c0]->Ok_0 + b]);
    }
    (k, y, x)
}

proof fn lemma_number(p: Plan, k: int, y: int, x: int)
    ensures
        p.number(k, y, x) == (k * p.y_dim + y) * p.x_dim + x,
{
    let (x_dim, y_dim) = (p.x_dim, p.y_dim);
    let n = p.number(k, y, x);
    assert(n == (k * y_dim + y) * x_dim + x) by (nonlinear_arith)
        requires
            n == k * (y_dim * x_dim) + y * x_dim + x,
    ;
}

/// The columns up to one that was copied have been read.
proof fn lemma_columns_read(
    p: Plan,
    places: Seq<Result<int, LayoutError>>,
    res: Result<(), LayoutError>,
    c: int,
    k: int,
    y: int,
    x: int,
)
    requires
        relayout::ended(places, res, c),
        places == p.places(),
        0 <= k < p.rounds(),
        0 <= y < p.y_dim,
        0 <= x < p.x_dim,
        p.number(k, y, x) < c,
    ensures
        forall|j: int| 0 <= j <= x ==> (#[trigger] p.maps.x_to_tile_id.i32(j)) is Some,
{
    assert forall|j: int| 0 <= j <= x implies (#[trigger] p.maps.x_to_tile_id.i32(j)) is Some by {
        relayout::law_pieces_are_numbered_in_order(p, k, y, j);
        assert(places[p.number(k, y, j)] is Ok);
        assert(p.source(y, j) is Ok);
    }
}

/// The place that is an error has a reason to be.
proof fn lemma_reason(
    t: TableView,
    m: Maps,
    src: Seq<u8>,
    before: Seq<u8>,
    p: Plan,
    c: int,
    k: int,
    y: int,
    x: int,
    e: LayoutError,
)
    requires
        relayout::plan_of(t, src, before) == Ok::<Plan, LayoutError>(p),
        relayout::maps_of(t) == Some(m),
        relayout::ended(p.places(), Err::<(), LayoutError>(e), c),
        p.is_natural(),
        p.piece() == p.z_bytes,
        p.z_bytes == layer::z_of(t) * layer::type_of(t).size(),
        p.z_bytes <= usize::MAX,
        src.len() <= usize::MAX,
        before.len() <= usize::MAX,
        0 <= k < p.rounds(),
        0 <= y < p.y_dim,
        0 <= x < p.x_dim,
        c == p.number(k, y, x),
        p.place_at(k, y, x) == Err::<int, LayoutError>(e),
    ensures
        is_reason(t, m, src, before, k, y, x, e),
{
    layout::law_elements(m.y_to_tile_id, y);
    layout::law_elements(m.y_to_local_y_offset, y);
    lemma_number(p, k, y, x);
    if x > 0 {
        lemma_columns_read(p, p.places(), Err(e), c, k, y, x - 1);
    }
    if m.row(y) is Ok {
        let end = m.run_end(x, p.x_dim);
        lemma_run_end_bounds(m, x, p.x_dim);
        layout::law_elements(m.x_to_tile_id, x);
        layout::law_elements(m.x_to_tile_id, end);
        if m.x_to_tile_id.i32(x) is None {
            assert(!layout::has_entry(m.x_to_tile_id, x));
        } else if end < p.x_dim && m.x_to_tile_id.i32(end) is None {
            assert(!layout::has_entry(m.x_to_tile_id, end));
        } else {
            lemma_reason_in_a_run(t, m, src, before, p, k, y, x, e);
        }
    }
}

/// The same where row and columns can be read.
proof fn lemma_reason_in_a_run(
    t: TableView,
    m: Maps,
    src: Seq<u8>,
    before: Seq<u8>,
    p: Plan,
    k: int,
    y: int,
    x: int,
    e: LayoutError,
)
    requires
        relayout::plan_of(t, src, before) == Ok::<Plan, LayoutError>(p),
        relayout::maps_of(t) == Some(m),
        p.piece() == p.z_bytes,
        p.z_bytes == layer::z_of(t) * layer::type_of(t).size(),
        p.z_bytes <= usize::MAX,
        src.len() <= usize::MAX,
        before.len() <= usize::MAX,
        0 <= k,
        0 <= x < p.x_dim,
        p.place_at(k, y, x) == Err::<int, LayoutError>(e),
        m.row(y) is Ok,
        forall|j: int| 0 <= j <= x ==> (#[trigger] m.x_to_tile_id.i32(j)) is Some,
        ({
            let end = m.run_end(x, p.x_dim);
            end < p.x_dim ==> m.x_to_tile_id.i32(end) is Some
        }),
    ensures
        is_reason(t, m, src, before, k, y, x, e),
{
    let s = m.run_start(x);
    lemma_number(p, k, y, x);
    lemma_run_found(m, x);
    assert(m.x_to_tile_id.i32(x) is Some);
    assert(starts_run(m, s, x));
    assert(m.x_to_tile_id.i32(s) is Some);
    lemma_index_reason(m, y, s);
    lemma_placed(t, m, src, before, k, y, s, x);
}

/// Why the maps do not place an element.
proof fn lemma_index_reason(m: Maps, y: int, s: int)
    requires
        m.row(y) is Ok,
        m.x_to_tile_id.i32(s) is Some,
    ensures
        match m.index(m.row(y)->Ok_0, s) {
            Ok(_) => true,
            Err(e) => {
                ||| tile(m, y, s) < 0 && e == LayoutError::Malformed("negative tile id")
                ||| !layout::has_entry(m.tile_byte_offset, tile(m, y, s)) && e
                    == LayoutError::Malformed("linearized_tile_byte_offset")
                ||| !layout::has_entry(m.x_to_local_byte_offset, s) && e == LayoutError::Malformed(
                    "x_coordinate_to_local_byte_offset",
                )
                ||| !layout::has_entry(m.x_to_local_y_row_size, s) && e == LayoutError::Malformed(
                    "x_coordinate_to_local_y_row_size",
                )
                ||| !(0 <= spot_of(m, y, s) <= usize::MAX) && e == LayoutError::Malformed(
                    "negative buffer index",
                )
            },
        },
{
    layout::law_elements(m.y_to_tile_id, y);
    layout::law_elements(m.y_to_local_y_offset, y);
    layout::law_elements(m.x_to_tile_id, s);
    layout::law_elements(m.tile_byte_offset, tile(m, y, s));
    layout::law_elements(m.x_to_local_byte_offset, s);
    layout::law_elements(m.x_to_local_y_row_size, s);
}

/// Why the maps do not place coordinate `(y, x)`.
pub open spec fn is_unmapped(m: Maps, y: int, x: int, e: LayoutError) -> bool {
    ||| !layout::has_entry(m.y_to_tile_id, y) && e == LayoutError::Malformed(
        "y_coordinate_to_linear_tile_id_map",
    )
    ||| !layout::has_entry(m.y_to_local_y_offset, y) && e == LayoutError::Malformed(
        "y_coordinate_to_local_y_offset",
    )
    ||| !layout::has_entry(m.x_to_tile_id, x) && e == LayoutError::Malformed(
        "x_coordinate_to_linear_tile_id_map",
    )
    ||| tile(m, y, x) < 0 && e == LayoutError::Malformed("negative tile id")
    ||| !layout::has_entry(m.tile_byte_offset, tile(m, y, x)) && e == LayoutError::Malformed(
        "linearized_tile_byte_offset",
    )
    ||| !layout::has_entry(m.x_to_local_byte_offset, x) && e == LayoutError::Malformed(
        "x_coordinate_to_local_byte_offset",
    )
    ||| !layout::has_entry(m.x_to_local_y_row_size, x) && e == LayoutError::Malformed(
        "x_coordinate_to_local_y_row_size",
    )
    ||| !(0 <= spot_of(m, y, x) <= usize::MAX) && e == LayoutError::Malformed(
        "negative buffer index",
    )
}

proof fn lemma_unmapped(m: Maps, y: int, x: int)
    ensures
        m.index_of(y, x) matches Err(e) ==> is_unmapped(m, y, x, e),
{
    layout::law_elements(m.y_to_tile_id, y);
    layout::law_elements(m.y_to_local_y_offset, y);
    layout::law_elements(m.x_to_tile_id, x);
    if m.row(y) is Ok && m.x_to_tile_id.i32(x) is Some {
        lemma_index_reason(m, y, x);
    }
}

/// Law: where a layer with more than one coordinate has maps but nothing could
/// be begun, that is because the distance between its coordinates could not be
/// derived: the maps do not place one of the first two, or place the second
/// in front of the first. The destination is as it was.
pub proof fn law_distance_cannot_be_derived(
    t: TableView,
    src: Seq<u8>,
    before: Seq<u8>,
    after: Seq<u8>,
    m: Maps,
    res: Result<(), LayoutError>,
)
    requires
        relayout::did_relayout(t, src, before, after, res),
        layer::x_of(t) != 1 || layer::y_of(t) != 1,
        0 < layer::type_of(t).size(),
        layer::z_of(t) * layer::type_of(t).size() <= usize::MAX,
        relayout::maps_of(t) == Some(m),
        relayout::plan_of(t, src, before) is Err,
    ensures
        ({
            let z_bytes = layer::z_of(t) * layer::type_of(t).size();
            let (y1, x1) = if layer::x_of(t) > 1 {
                (0int, 1int)
            } else {
                (1int, 0int)
            };
            &&& after == before
            &&& z_bytes != 1
            &&& z_bytes != 3
            &&& res matches Err(e) && {
                ||| is_unmapped(m, 0, 0, e)
                ||| is_unmapped(m, y1, x1, e)
                ||| spot_of(m, y1, x1) < spot_of(m, 0, 0) && e == LayoutError::Malformed(
                    "negative z stride",
                )
            }
        }),
{
    lemma_unmapped(m, 0, 0);
    lemma_unmapped(m, 0, 1);
    lemma_unmapped(m, 1, 0);
    lemma_index(m, 0, 0);
    lemma_index(m, 0, 1);
    lemma_index(m, 1, 0);
}

/// Law: a layer without columns, or without rows, has nothing to copy. Where it
/// has rows, they are looked up all the same, and one that is not in the maps
/// is an error.
pub proof fn law_nothing_to_copy(
    t: TableView,
    src: Seq<u8>,
    before: Seq<u8>,
    after: Seq<u8>,
    m: Maps,
    res: Result<(), LayoutError>,
)
    requires
        relayout::did_relayout(t, src, before, after, res),
        layer::x_of(t) == 0 || layer::y_of(t) == 0,
        0 < layer::type_of(t).size(),
        relayout::maps_of(t) == Some(m),
        relayout::plan_of(t, src, before) is Ok,
    ensures
        after == before,
        layer::y_of(t) == 0 ==> res is Ok,
        res is Ok <==> forall|y: int|
            0 <= y < layer::y_of(t) ==> #[trigger] layout::has_entry(m.y_to_tile_id, y)
                && layout::has_entry(m.y_to_local_y_offset, y),
{
    let p = relayout::plan_of(t, src, before)->Ok_0;
    let (x, y) = (layer::x_of(t), layer::y_of(t));
    let places = p.places();
    relayout::lemma_plan_is_natural(t, src, before);
    relayout::law_relayout_stays_inside(t, src, before, after, res);
    let (z, dts, n) = (layer::z_of(t), layer::type_of(t).size(), layer::executions_of(t));
    assert(x * y * z * dts * n == 0 && n * (y * x) * relayout::z_bytes_of(t) == 0 && p.rounds() * (y
        * x) == 0) by (nonlinear_arith)
        requires
            x == 0 || y == 0,
    ;
    assert(after =~= before);
    assert(relayout::did_copy(before, after, src, p.piece(), places, res));
    let c = choose|c: int|
        #[trigger] relayout::ended(places, res, c) && relayout::copied(
            before,
            after,
            src,
            p.piece(),
            places,
            c,
        );
    if x == 0 {
        assert forall|i: int| 0 <= i < y implies ((#[trigger] places[i]) is Ok) == (
        layout::has_entry(m.y_to_tile_id, i) && layout::has_entry(m.y_to_local_y_offset, i)) by {
            layout::law_elements(m.y_to_tile_id, i);
            layout::law_elements(m.y_to_local_y_offset, i);
        }
        if res is Ok {
            assert forall|i: int| 0 <= i < y implies #[trigger] layout::has_entry(
                m.y_to_tile_id,
                i,
            ) && layout::has_entry(m.y_to_local_y_offset, i) by {
                assert(places[i] is Ok);
            }
        } else {
            assert(places[c] is Err);
        }
    }
}

// ---------------------------------------------------------------------------
// Plain vectors
// ---------------------------------------------------------------------------

/// How far apart the executions of a plain vector are in the source: a padded
/// size, or the size of the data where that is larger.
pub open spec fn apart(t: TableView) -> int {
    let z_bytes = layer::z_of(t) * layer::type_of(t).size();
    if layer::extent(t, 6, 0) > z_bytes {
        layer::extent(t, 6, 0)
    } else {
        z_bytes
    }
}

proof fn lemma_vector_sizes(t: TableView)
    requires
        layer::x_of(t) == 1,
        layer::y_of(t) == 1,
        0 < layer::executions_of(t),
        layer::z_of(t) * layer::type_of(t).size() * layer::executions_of(t) <= usize::MAX,
        layer::extent(t, 6, 0) * layer::executions_of(t) <= usize::MAX,
    ensures
        ({
            let z_bytes = layer::z_of(t) * layer::type_of(t).size();
            let n = layer::executions_of(t);
            &&& 0 <= z_bytes
            &&& relayout::z_bytes_of(t) == z_bytes
            &&& relayout::total_of(t) == z_bytes * n
            &&& relayout::is_unpadded(t) ==> n == 1 || apart(t) == z_bytes
            &&& !relayout::is_unpadded(t) ==> z_bytes + relayout::padding_of(t) == apart(t)
        }),
{
    let size = layer::type_of(t).size();
    let z = layer::z_of(t);
    let z_bytes = z * size;
    let n = layer::executions_of(t);
    let padded = layer::extent(t, 6, 0);
    assert(0 <= z_bytes && z_bytes <= z_bytes * n) by (nonlinear_arith)
        requires
            0 <= z,
            0 <= size,
            1 <= n,
            z_bytes == z * size,
    ;
    assert(1 * 1 * z * size * n == z_bytes * n) by (nonlinear_arith)
        requires
            z_bytes == z * size,
    ;
    assert(padded * n - z_bytes * n == (padded - z_bytes) * n) by (nonlinear_arith);
    if padded > z_bytes {
        vstd::arithmetic::div_mod::lemma_div_multiples_vanish(padded - z_bytes, n);
        assert(n * (padded - z_bytes) == (padded - z_bytes) * n) by (nonlinear_arith);
        assert((padded - z_bytes) * n > 0) by (nonlinear_arith)
            requires
                padded > z_bytes,
                n >= 1,
        ;
    } else {
        assert((padded - z_bytes) * n <= 0) by (nonlinear_arith)
            requires
                padded <= z_bytes,
                n >= 1,
        ;
        if padded * n == z_bytes * n {
            assert(padded == z_bytes) by (nonlinear_arith)
                requires
                    (padded - z_bytes) * n == 0,
                    n >= 1,
            ;
        }
    }
}

/// Law: where each byte of a plain vector comes from. The executions lie a
/// padded size apart in the source and end to end in the tensor.
pub proof fn law_where_vectors_come_from(
    t: TableView,
    src: Seq<u8>,
    before: Seq<u8>,
    after: Seq<u8>,
    k: int,
    b: int,
)
    requires
        relayout::did_relayout(t, src, before, after, Ok(())),
        src.len() <= usize::MAX,
        before.len() <= usize::MAX,
        layer::x_of(t) == 1,
        layer::y_of(t) == 1,
        layer::z_of(t) * layer::type_of(t).size() * layer::executions_of(t) <= usize::MAX,
        layer::extent(t, 6, 0) * layer::executions_of(t) <= usize::MAX,
        0 <= k < layer::executions_of(t),
        0 <= b < layer::z_of(t) * layer::type_of(t).size(),
    ensures
        ({
            let z_bytes = layer::z_of(t) * layer::type_of(t).size();
            &&& 0 <= k * apart(t) + b < src.len()
            &&& 0 <= k * z_bytes + b < after.len()
            &&& after[k * z_bytes + b] == src[k * apart(t) + b]
        }),
{
    let z_bytes = layer::z_of(t) * layer::type_of(t).size();
    let n = layer::executions_of(t);
    lemma_vector_sizes(t);
    assert(0 <= k * z_bytes && k * z_bytes + z_bytes <= z_bytes * n) by (nonlinear_arith)
        requires
            0 <= k,
            k + 1 <= n,
            0 <= z_bytes,
    ;
    if relayout::is_unpadded(t) {
        if n == 1 {
            assert(k * apart(t) == 0 && k * z_bytes == 0) by (nonlinear_arith)
                requires
                    k == 0,
            ;
        }
        assert(after[k * z_bytes + b] == src[k * z_bytes + b]);
    } else {
        let places = relayout::vector_places(t, src, before);
        assert(relayout::copied(before, after, src, z_bytes, places, n));
        assert(places[k] is Ok);
        assert(0 <= k * apart(t)) by (nonlinear_arith)
            requires
                0 <= k,
                0 <= apart(t),
        ;
        assert(after[relayout::spot(k, z_bytes, b)] == src[places[k]->Ok_0 + b]);
    }
}

/// Law: the relayout of a plain vector that can succeed does.
pub proof fn law_vector_relayout_succeeds(
    t: TableView,
    src: Seq<u8>,
    before: Seq<u8>,
    after: Seq<u8>,
    res: Result<(), LayoutError>,
)
    requires
        relayout::did_relayout(t, src, before, after, res),
        src.len() <= usize::MAX,
        before.len() <= usize::MAX,
        layer::x_of(t) == 1,
        layer::y_of(t) == 1,
        0 < layer::executions_of(t),
        0 < layer::type_of(t).size(),
        layer::z_of(t) * layer::type_of(t).size() * layer::executions_of(t) <= before.len(),
        layer::extent(t, 6, 0) * layer::executions_of(t) <= usize::MAX,
        (layer::executions_of(t) - 1) * apart(t) + layer::z_of(t) * layer::type_of(t).size()
            <= src.len(),
    ensures
        res is Ok,
{
    let z_bytes = layer::z_of(t) * layer::type_of(t).size();
    let n = layer::executions_of(t);
    lemma_vector_sizes(t);
    assert((n - 1) * z_bytes + z_bytes == z_bytes * n) by (nonlinear_arith);
    if relayout::is_unpadded(t) {
        if n == 1 {
            assert((n - 1) * apart(t) == 0 && (n - 1) * z_bytes == 0) by (nonlinear_arith)
                requires
                    n == 1,
            ;
        }
    } else if res is Err {
        let places = relayout::vector_places(t, src, before);
        let c = choose|c: int|
            #[trigger] relayout::ended(places, res, c) && relayout::copied(
                before,
                after,
                src,
                z_bytes,
                places,
                c,
            );
        assert(0 <= c * apart(t) <= (n - 1) * apart(t) && (c + 1) * z_bytes <= z_bytes * n)
            by (nonlinear_arith)
            requires
                0 <= c <= n - 1,
                0 <= apart(t),
                0 <= z_bytes,
        ;
        assert(places[c] is Err);
    }
}

/// Law: a plain vector that does not run has nothing to copy, and that
/// succeeds.
pub proof fn law_vector_that_does_not_run(
    t: TableView,
    src: Seq<u8>,
    before: Seq<u8>,
    after: Seq<u8>,
    res: Result<(), LayoutError>,
)
    requires
        relayout::did_relayout(t, src, before, after, res),
        layer::x_of(t) == 1,
        layer::y_of(t) == 1,
        layer::executions_of(t) == 0,
        0 < layer::type_of(t).size(),
    ensures
        res is Ok,
        after == before,
{
    let z = layer::z_of(t) * layer::type_of(t).size();
    assert(relayout::z_bytes_of(t) * 0 == 0);
    assert(layer::extent(t, 6, 0) * 0 == 0);
    assert(layer::x_of(t) * layer::y_of(t) * layer::z_of(t) * layer::type_of(t).size() * 0 == 0);
    assert(after =~= before);
}

/// Law: what is refused before anything is copied. An element type that is not
/// known, a layer with more than one coordinate but without maps, and a
/// destination that is too small leave the destination as it was.
pub proof fn law_relayout_refusals(
    t: TableView,
    src: Seq<u8>,
    before: Seq<u8>,
    after: Seq<u8>,
    res: Result<(), LayoutError>,
)
    requires
        relayout::did_relayout(t, src, before, after, res),
        before.len() <= usize::MAX,
    ensures
        layer::type_of(t).size() == 0 ==> after == before && res == Err::<(), LayoutError>(
            LayoutError::Malformed("unknown layer data type"),
        ),
        layer::type_of(t).size() > 0 && !(layer::x_of(t) == 1 && layer::y_of(t) == 1)
            && relayout::maps_of(t) is None ==> after == before && res == Err::<(), LayoutError>(
            LayoutError::Malformed("output layer has no layout maps"),
        ),
        before.len() < layer::actual_size(t) ==> after == before && res is Err,
        before.len() < layer::actual_size(t) && (res matches Err(
            LayoutError::BufferTooSmall { needed, given },
        )) ==> (res matches Err(LayoutError::BufferTooSmall { needed, given }) && needed
            == layer::actual_size(t) && given == before.len()),
        layer::type_of(t).size() > 0 && layer::x_of(t) == 1 && layer::y_of(t) == 1 && before.len()
            < layer::actual_size(t) ==> (res matches Err(e) && e is BufferTooSmall),
{
    if layer::type_of(t).size() > 0 && relayout::is_vector(t) {
        relayout::lemma_vector_total(t);
    }
}

} // verus!
