use vstd::prelude::*;

use std::collections::HashMap;
use std::collections::HashSet;
use std::collections::VecDeque;

use crate::blueprint::{Chunk, Gid, TerrainParams};
use crate::ring::RingVec;

verus! {

pub type PolyLineId = u32;

pub type Vertex = (i32, i32);

pub type Edge = (Vertex, Vertex);

pub type TilePosition = (i32, i32);

pub open spec fn min_int(a: int, b: int) -> int {
    if a <= b { a } else { b }
}

pub open spec fn max_int(a: int, b: int) -> int {
    if a >= b { a } else { b }
}

/// Integer division rounding toward zero, for a positive divisor.
pub open spec fn trunc_div_pos(a: int, b: int) -> int
    recommends
        b > 0,
{
    if a >= 0 { a / b } else { -((-a) / b) }
}

/// Integer division rounding toward zero, as machine division computes it.
pub open spec fn trunc_div(a: int, b: int) -> int
    recommends
        b != 0,
{
    if b < 0 { trunc_div_pos(-a, -b) } else { trunc_div_pos(a, b) }
}

/// The x coordinate, rounded toward zero, at which the horizontal line at
/// height `y` crosses the line through `p1` and `p2`.
pub open spec fn crossing_x(p1: Vertex, p2: Vertex, y: int) -> int {
    trunc_div((y - p1.1) * (p2.0 - p1.0), p2.1 - p1.1) + p1.0
}

/// What one edge of the scan decides: either the answer is settled, or the
/// scan goes on with the given parity.
pub enum ScanStep {
    Answer(bool),
    Next(bool),
}

/// How the edge from `p1` to `p2` acts on a ray cast from `(x, y)` toward
/// growing x, given the parity `inside` gathered so far.
pub open spec fn edge_step(p1: Vertex, p2: Vertex, x: int, y: int, inside: bool) -> ScanStep {
    if min_int(p1.1 as int, p2.1 as int) <= y && y <= max_int(p1.1 as int, p2.1 as int) && x
        <= max_int(p1.0 as int, p2.0 as int) {
        if p2.1 == p1.1 && y == p1.1 {
            ScanStep::Answer(
                min_int(p1.0 as int, p2.0 as int) <= x && x <= max_int(p1.0 as int, p2.0 as int),
            )
        } else if x == crossing_x(p1, p2, y) {
            ScanStep::Answer(true)
        } else if p1.0 == p2.0 || x < crossing_x(p1, p2, y) {
            ScanStep::Next(!inside)
        } else {
            ScanStep::Next(inside)
        }
    } else {
        ScanStep::Next(inside)
    }
}

/// The ray scan over the edges ending at `vs[i]`, `vs[i + 1]`, ..., with the
/// closing edge from the last vertex back to the first.
pub open spec fn ray_scan(vs: Seq<Vertex>, x: int, y: int, i: int, inside: bool) -> bool
    decreases vs.len() + 1 - i,
{
    if i < 1 || i > vs.len() {
        inside
    } else {
        match edge_step(vs[i - 1], vs[i % (vs.len() as int)], x, y, inside) {
            ScanStep::Answer(b) => b,
            ScanStep::Next(b) => ray_scan(vs, x, y, i + 1, b),
        }
    }
}

/// `x` lies between the smallest and the largest x coordinate of `vs`.
pub open spec fn within_x_range(vs: Seq<Vertex>, x: int) -> bool {
    &&& exists|i: int| 0 <= i < vs.len() && vs[i].0 <= x
    &&& exists|j: int| 0 <= j < vs.len() && x <= vs[j].0
}

/// The polygon test of the terrain: a point outside the x range of the
/// polygon is outside, otherwise the ray scan decides.
pub open spec fn point_in_polygon(vs: Seq<Vertex>, p: Vertex) -> bool {
    within_x_range(vs, p.0 as int) && ray_scan(vs, p.0 as int, p.1 as int, 1, false)
}


/// One edge acts on a translated ray as the untranslated edge acts on the
/// untranslated ray.
proof fn lemma_edge_step_translation(
    p1: Vertex,
    p2: Vertex,
    w1: Vertex,
    w2: Vertex,
    x: int,
    y: int,
    dx: int,
    dy: int,
    inside: bool,
)
    requires
        w1.0 == p1.0 + dx,
        w1.1 == p1.1 + dy,
        w2.0 == p2.0 + dx,
        w2.1 == p2.1 + dy,
    ensures
        edge_step(w1, w2, x + dx, y + dy, inside) == edge_step(p1, p2, x, y, inside),
{
    assert((y + dy) - w1.1 == y - p1.1);
    assert(w2.0 - w1.0 == p2.0 - p1.0);
    assert(w2.1 - w1.1 == p2.1 - p1.1);
    assert(crossing_x(w1, w2, y + dy) == crossing_x(p1, p2, y) + dx);
}

proof fn lemma_ray_scan_translation(
    vs: Seq<Vertex>,
    ws: Seq<Vertex>,
    x: int,
    y: int,
    dx: int,
    dy: int,
    i: int,
    inside: bool,
)
    requires
        ws.len() == vs.len(),
        forall|k: int|
            0 <= k < vs.len() ==> (#[trigger] ws[k]).0 == vs[k].0 + dx && ws[k].1 == vs[k].1 + dy,
    ensures
        ray_scan(ws, x + dx, y + dy, i, inside) == ray_scan(vs, x, y, i, inside),
    decreases vs.len() + 1 - i,
{
    if 1 <= i <= vs.len() {
        let n = vs.len() as int;
        vstd::arithmetic::div_mod::lemma_mod_bound(i, n);
        let a = ws[i - 1];
        let b = ws[i % n];
        lemma_edge_step_translation(vs[i - 1], vs[i % n], a, b, x, y, dx, dy, inside);
        match edge_step(vs[i - 1], vs[i % n], x, y, inside) {
            ScanStep::Answer(r) => {},
            ScanStep::Next(r) => {
                lemma_ray_scan_translation(vs, ws, x, y, dx, dy, i + 1, r);
            },
        }
    }
}

/// Moving a polygon and a point by the same offset does not change whether
/// the point lies in the polygon.
pub proof fn lemma_point_in_polygon_translation(
    vs: Seq<Vertex>,
    ws: Seq<Vertex>,
    p: Vertex,
    q: Vertex,
    dx: int,
    dy: int,
)
    requires
        ws.len() == vs.len(),
        forall|k: int|
            0 <= k < vs.len() ==> (#[trigger] ws[k]).0 == vs[k].0 + dx && ws[k].1 == vs[k].1 + dy,
        q.0 == p.0 + dx,
        q.1 == p.1 + dy,
    ensures
        point_in_polygon(ws, q) == point_in_polygon(vs, p),
{
    lemma_ray_scan_translation(vs, ws, p.0 as int, p.1 as int, dx, dy, 1, false);
    if within_x_range(vs, p.0 as int) {
        let i = choose|i: int| 0 <= i < vs.len() && vs[i].0 <= p.0;
        let j = choose|j: int| 0 <= j < vs.len() && p.0 <= vs[j].0;
        assert(ws[i].0 <= q.0);
        assert(q.0 <= ws[j].0);
    }
    if within_x_range(ws, q.0 as int) {
        let i = choose|i: int| 0 <= i < ws.len() && ws[i].0 <= q.0;
        let j = choose|j: int| 0 <= j < ws.len() && q.0 <= ws[j].0;
        assert(vs[i].0 <= p.0);
        assert(p.0 <= vs[j].0);
    }
}

/// Machine division of `num` by a nonzero `den`, both far from the bounds of
/// `i128`.
fn div_toward_zero(num: i128, den: i128) -> (q: i128)
    requires
        den != 0,
        -0x1_0000_0000_0000_0000_0000 < num < 0x1_0000_0000_0000_0000_0000,
        -0x1_0000_0000 < den < 0x1_0000_0000,
    ensures
        q == trunc_div(num as int, den as int),
{
    let (n, d) = if den < 0 { (-num, -den) } else { (num, den) };
    if n >= 0 {
        n / d
    } else {
        let m = -n;
        let q = m / d;
        -q
    }
}

/// One step of the ray scan, on machine integers.
fn scan_edge(p1: Vertex, p2: Vertex, x: i32, y: i32, inside: bool) -> (step: ScanStep)
    ensures
        step == edge_step(p1, p2, x as int, y as int, inside),
{
    let (p1_x, p1_y) = p1;
    let (p2_x, p2_y) = p2;
    let lo_y = if p1_y <= p2_y { p1_y } else { p2_y };
    let hi_y = if p1_y >= p2_y { p1_y } else { p2_y };
    let hi_x = if p1_x >= p2_x { p1_x } else { p2_x };
    if y >= lo_y && y <= hi_y && x <= hi_x {
        if p2_y == p1_y && y == p1_y {
            let lo_x = if p1_x <= p2_x { p1_x } else { p2_x };
            return ScanStep::Answer(x >= lo_x && x <= hi_x);
        }
        let dy = y as i128 - p1_y as i128;
        let dx = p2_x as i128 - p1_x as i128;
        assert(-0x1_0000_0000_0000_0000 <= dy * dx <= 0x1_0000_0000_0000_0000) by (nonlinear_arith)
            requires
                -0x1_0000_0000 < dy < 0x1_0000_0000,
                -0x1_0000_0000 < dx < 0x1_0000_0000,
        ;
        let den = p2_y as i128 - p1_y as i128;
        let x_intersection = div_toward_zero(dy * dx, den) + p1_x as i128;
        if x as i128 == x_intersection {
            return ScanStep::Answer(true);
        }
        if p1_x == p2_x || (x as i128) < x_intersection {
            return ScanStep::Next(!inside);
        }
    }
    ScanStep::Next(inside)
}

/// A Cantor-pair number that identifies a chunk.
pub type CantorPair = u32;

/// The position of tile `tile_i` of the chunk at `(chunk_x, chunk_y)`, tiles
/// counted row by row, as machine division and remainder compute it.
pub open spec fn tile_position(chunk_x: i32, chunk_y: i32, chunk_size: i32, tile_i: i32) -> (int, int) {
    let y = trunc_div(tile_i as int, chunk_size as int);
    let x = tile_i - chunk_size * y;
    (chunk_x * chunk_size + x, chunk_y * chunk_size + y)
}

/// The position of a tile of a chunk in the terrain grid.
pub fn get_tile_position(chunk_x: i32, chunk_y: i32, chunk_size: i32, tile_i: i32) -> (position: TilePosition)
    requires
        chunk_size != 0,
        !(tile_i == i32::MIN && chunk_size == -1),
        i32::MIN <= chunk_x * chunk_size <= i32::MAX,
        i32::MIN <= chunk_y * chunk_size <= i32::MAX,
        i32::MIN <= tile_position(chunk_x, chunk_y, chunk_size, tile_i).0 <= i32::MAX,
        i32::MIN <= tile_position(chunk_x, chunk_y, chunk_size, tile_i).1 <= i32::MAX,
    ensures
        position.0 == tile_position(chunk_x, chunk_y, chunk_size, tile_i).0,
        position.1 == tile_position(chunk_x, chunk_y, chunk_size, tile_i).1,
{
    let q = div_toward_zero(tile_i as i128, chunk_size as i128);
    let x = tile_i as i128 - chunk_size as i128 * q;
    let px = chunk_x as i128 * chunk_size as i128 + x;
    let py = chunk_y as i128 * chunk_size as i128 + q;
    (px as i32, py as i32)
}

/// Within a chunk of positive size, tile `i` lies in column `i % size` and
/// row `i / size` of the chunk, so that distinct tiles of the chunk lie at
/// distinct positions inside the chunk's square.
pub proof fn lemma_tile_positions_distinct(chunk_x: i32, chunk_y: i32, chunk_size: i32, i: i32, j: i32)
    requires
        chunk_size > 0,
        0 <= i < chunk_size * chunk_size,
        0 <= j < chunk_size * chunk_size,
        i != j,
    ensures
        tile_position(chunk_x, chunk_y, chunk_size, i) != tile_position(chunk_x, chunk_y, chunk_size, j),
        chunk_x * chunk_size <= tile_position(chunk_x, chunk_y, chunk_size, i).0 < chunk_x * chunk_size
            + chunk_size,
        chunk_y * chunk_size <= tile_position(chunk_x, chunk_y, chunk_size, i).1 < chunk_y * chunk_size
            + chunk_size,
{
    let n = chunk_size as int;
    vstd::arithmetic::div_mod::lemma_fundamental_div_mod(i as int, n);
    vstd::arithmetic::div_mod::lemma_fundamental_div_mod(j as int, n);
    vstd::arithmetic::div_mod::lemma_mod_bound(i as int, n);
    vstd::arithmetic::div_mod::lemma_mod_bound(j as int, n);
    vstd::arithmetic::div_mod::lemma_div_pos_is_pos(i as int, n);
    assert((i as int) / n < n) by {
        vstd::arithmetic::div_mod::lemma_div_by_multiple_is_strongly_ordered(i as int, n * n, n, n);
        vstd::arithmetic::div_mod::lemma_div_multiples_vanish(n, n);
        vstd::arithmetic::mul::lemma_mul_is_commutative(n, n);
    }
    if (i as int) / n == (j as int) / n {
        assert((i as int) % n != (j as int) % n);
    }
}

/// The edges of a closed outline: from each vertex to the next, and from the
/// last back to the first.
pub fn get_edges_from_vertices(vertices: &RingVec<Vertex>) -> (edges: RingVec<Edge>)
    requires
        vertices.data@.len() > 0,
    ensures
        edges.data@.len() == vertices.data@.len(),
        forall|i: int|
            0 <= i < vertices.data@.len() - 1 ==> #[trigger] edges.data@[i] == (
                vertices.data@[i],
                vertices.data@[i + 1],
            ),
        edges.data@[vertices.data@.len() - 1] == (
            vertices.data@[vertices.data@.len() - 1],
            vertices.data@[0],
        ),
{
    let n = vertices.data.len();
    let mut edge_list: RingVec<Edge> = RingVec::new(100);
    let mut i: usize = 0;
    while i + 1 < n
        invariant
            n == vertices.data@.len(),
            n > 0,
            i + 1 <= n,
            edge_list.data@.len() == i,
            forall|k: int|
                0 <= k < i ==> #[trigger] edge_list.data@[k] == (
                    vertices.data@[k],
                    vertices.data@[k + 1],
                ),
        decreases n - i,
    {
        edge_list.data.push((vertices.data[i], vertices.data[i + 1]));
        i = i + 1;
    }
    edge_list.data.push((*vertices.last(), *vertices.first()));
    edge_list
}

/// The outline of a tile: the corners of the tile when it has no collision
/// shape, otherwise the shape's vertices, given relative to the tile's top
/// left corner, moved onto the tile.
pub open spec fn tile_outline(
    tile_x: i32,
    tile_y: i32,
    params: TerrainParams,
    shape: Option<Seq<Vertex>>,
) -> Seq<(int, int)> {
    let w = params.tile_width as i32;
    let h = params.tile_height as i32;
    let (sx, sy) = (tile_x * w, tile_y * h);
    match shape {
        Some(offsets) => offsets.map_values(|v: Vertex| (sx + v.0, sy + v.1)),
        None => seq![(sx, sy), (sx + w, sy), (sx + w, sy + h), (sx, sy + h)],
    }
}

/// The outline of a tile whose collision shape, if any, has the given
/// vertex offsets.
pub open spec fn outline_of(
    tile_x: i32,
    tile_y: i32,
    params: TerrainParams,
    shape_offsets: Option<&Vec<Vertex>>,
) -> Seq<(int, int)> {
    tile_outline(
        tile_x,
        tile_y,
        params,
        match shape_offsets {
            Some(o) => Some(o@),
            None => None,
        },
    )
}

/// The vertices of a tile's outline, in grid coordinates.
pub fn get_vertices_from_collision_shape(
    tile_x: i32,
    tile_y: i32,
    params: &TerrainParams,
    shape_offsets: Option<&Vec<Vertex>>,
) -> (vertices: RingVec<Vertex>)
    requires
        i32::MIN <= tile_x * (params.tile_width as i32) <= i32::MAX,
        i32::MIN <= tile_y * (params.tile_height as i32) <= i32::MAX,
        forall|k: int|
            0 <= k < outline_of(tile_x, tile_y, *params, shape_offsets).len() ==> {
                let v = #[trigger] outline_of(tile_x, tile_y, *params, shape_offsets)[k];
                i32::MIN <= v.0 <= i32::MAX && i32::MIN <= v.1 <= i32::MAX
            },
    ensures
        vertices.data@.len() == outline_of(tile_x, tile_y, *params, shape_offsets).len(),
        forall|k: int|
            0 <= k < vertices.data@.len() ==> (#[trigger] vertices.data@[k]).0 == outline_of(tile_x, tile_y, *params, shape_offsets)[k].0 && vertices.data@[k].1 == outline_of(tile_x, tile_y, *params, shape_offsets)[k].1,
{
    let ghost outline = outline_of(tile_x, tile_y, *params, shape_offsets);
    let w = params.tile_width as i32;
    let h = params.tile_height as i32;
    let start_x = tile_x * w;
    let start_y = tile_y * h;
    let mut vertices: RingVec<Vertex> = RingVec::new(10);
    match shape_offsets {
        Some(offsets) => {
            let mut i: usize = 0;
            while i < offsets.len()
                invariant
                    outline == outline_of(tile_x, tile_y, *params, shape_offsets),
                    shape_offsets == Some(offsets),
                    start_x == tile_x * w,
                    start_y == tile_y * h,
                    w == params.tile_width as i32,
                    h == params.tile_height as i32,
                    outline.len() == offsets@.len(),
                    i <= offsets@.len(),
                    forall|k: int|
                        0 <= k < outline.len() ==> {
                            let v = #[trigger] outline[k];
                            i32::MIN <= v.0 <= i32::MAX && i32::MIN <= v.1 <= i32::MAX
                        },
                    vertices.data@.len() == i,
                    forall|k: int|
                        0 <= k < i ==> (#[trigger] vertices.data@[k]).0 == outline[k].0
                            && vertices.data@[k].1 == outline[k].1,
                decreases offsets@.len() - i,
            {
                let (x, y) = offsets[i];
                proof {
                    let v = outline[i as int];
                    assert(v == (start_x + x, start_y + y));
                }
                vertices.data.push((start_x + x, start_y + y));
                i = i + 1;
            }
        },
        None => {
            proof {
                assert(outline[1] == (start_x + w, start_y as int));
                assert(outline[2] == (start_x + w, start_y + h));
                assert(outline[3] == (start_x as int, start_y + h));
            }
            vertices.data.push((start_x, start_y));
            vertices.data.push((start_x + w, start_y));
            vertices.data.push((start_x + w, start_y + h));
            vertices.data.push((start_x, start_y + h));
        },
    }
    vertices
}

/// Whether both ends of the edge lie in the tile's outline, so that the tile
/// covers the edge.
pub fn is_surface_touching_polygon(edge: Edge, tile: &TerrainGridTile) -> (touching: bool)
    requires
        tile.vertices.data@.len() > 0,
    ensures
        touching == (point_in_polygon(tile.vertices.data@, edge.0) && point_in_polygon(
            tile.vertices.data@,
            edge.1,
        )),
{
    let (v1, v2) = edge;
    TerrainGridTile::vertex_in_polygon(&tile.vertices, v1) && TerrainGridTile::vertex_in_polygon(
        &tile.vertices,
        v2,
    )
}

/// Whether a neighbour tile, if there is one, covers the edge.
pub open spec fn covered_by(edge: Edge, neighbour: Option<&TerrainGridTile>) -> bool {
    match neighbour {
        Some(t) => point_in_polygon(t.vertices.data@, edge.0) && point_in_polygon(
            t.vertices.data@,
            edge.1,
        ),
        None => false,
    }
}

/// Whether an edge of a tile lies on the surface: none of the four
/// neighbouring tiles (left, right, above, below) covers it.
pub fn is_edge_on_surface(
    edge: Edge,
    left: Option<&TerrainGridTile>,
    right: Option<&TerrainGridTile>,
    top: Option<&TerrainGridTile>,
    bottom: Option<&TerrainGridTile>,
) -> (on_surface: bool)
    requires
        left matches Some(t) ==> t.vertices.data@.len() > 0,
        right matches Some(t) ==> t.vertices.data@.len() > 0,
        top matches Some(t) ==> t.vertices.data@.len() > 0,
        bottom matches Some(t) ==> t.vertices.data@.len() > 0,
    ensures
        on_surface == !(covered_by(edge, left) || covered_by(edge, right) || covered_by(edge, top)
            || covered_by(edge, bottom)),
{
    let left_touching = match left {
        Some(tile) => is_surface_touching_polygon(edge, tile),
        None => false,
    };
    let right_touching = match right {
        Some(tile) => is_surface_touching_polygon(edge, tile),
        None => false,
    };
    let top_touching = match top {
        Some(tile) => is_surface_touching_polygon(edge, tile),
        None => false,
    };
    let bottom_touching = match bottom {
        Some(tile) => is_surface_touching_polygon(edge, tile),
        None => false,
    };
    !left_touching && !right_touching && !top_touching && !bottom_touching
}

/// A polyline being traced along the terrain surface.
pub struct TerrainPolyLineBuilder {
    pub id: PolyLineId,
    pub vertices: VecDeque<Vertex>,
    pub tiles: Vec<TilePosition>,
}

impl TerrainPolyLineBuilder {
    /// An empty polyline with the given id.
    pub fn new(id: PolyLineId) -> (builder: TerrainPolyLineBuilder)
        ensures
            builder.id == id,
            builder.vertices@.len() == 0,
            builder.tiles@.len() == 0,
    {
        TerrainPolyLineBuilder { id, tiles: Vec::new(), vertices: VecDeque::new() }
    }
}

/// Which chunks use which gid and which gids each chunk uses, and the
/// counter that names new polylines.
pub struct PolylineBookkeeping {
    pub gid_to_cantor_pair_map: HashMap<Gid, HashSet<CantorPair>>,
    pub chunk_to_cantor_pair_map: HashMap<CantorPair, HashSet<Gid>>,
    pub id_gen: PolyLineId,
}

/// The chunk, if there is one, has a tile of gid `g`.
pub open spec fn chunk_uses(chunk_option: Option<&Chunk>, g: u32) -> bool {
    match chunk_option {
        Some(chunk) => chunk.data@.contains(g),
        None => false,
    }
}

/// `a` is related to `b` in the map of sets `m`.
pub open spec fn related(m: Map<u32, HashSet<u32>>, a: u32, b: u32) -> bool {
    m.contains_key(a) && m[a]@.contains(b)
}

/// The pairs related in the map of sets.
pub open spec fn relation_pairs(m: Map<u32, HashSet<u32>>) -> Set<(u32, u32)> {
    Set::new(|p: (u32, u32)| related(m, p.0, p.1))
}

/// The pairs of a gid used by the chunk and the chunk's id.
pub open spec fn gid_chunk_pairs(chunk_id: CantorPair, chunk_option: Option<&Chunk>) -> Set<(u32, u32)> {
    Set::new(|p: (u32, u32)| p.1 == chunk_id && chunk_uses(chunk_option, p.0))
}

/// The pairs of the chunk's id and a gid used by the chunk.
pub open spec fn chunk_gid_pairs(chunk_id: CantorPair, chunk_option: Option<&Chunk>) -> Set<(u32, u32)> {
    Set::new(|p: (u32, u32)| p.0 == chunk_id && chunk_uses(chunk_option, p.1))
}

/// Clearing the relations of a chunk undoes adding them: what is left is
/// what was there before, less the chunk's own pairs, and exactly what was
/// there before when none of those pairs was.
pub proof fn lemma_add_then_clear_relations(before: Set<(u32, u32)>, pairs: Set<(u32, u32)>)
    ensures
        before.union(pairs).difference(pairs) == before.difference(pairs),
        before.disjoint(pairs) ==> before.union(pairs).difference(pairs) == before,
{
    assert(before.union(pairs).difference(pairs) =~= before.difference(pairs));
    if before.disjoint(pairs) {
        assert(before.difference(pairs) =~= before);
    }
}

impl PolylineBookkeeping {
    /// No relations yet, and no polyline named.
    pub fn new() -> (bookkeeping: PolylineBookkeeping)
        ensures
            bookkeeping.gid_to_cantor_pair_map@ == Map::<Gid, HashSet<CantorPair>>::empty(),
            bookkeeping.chunk_to_cantor_pair_map@ == Map::<CantorPair, HashSet<Gid>>::empty(),
            bookkeeping.id_gen == 0,
    {
        PolylineBookkeeping {
            gid_to_cantor_pair_map: HashMap::new(),
            chunk_to_cantor_pair_map: HashMap::new(),
            id_gen: 0,
        }
    }

    /// A fresh polyline id: one more than the last one handed out.
    pub fn get_polyline_id(&mut self) -> (id: PolyLineId)
        requires
            old(self).id_gen < u32::MAX,
        ensures
            id == old(self).id_gen + 1,
            final(self).id_gen == id,
            final(self).gid_to_cantor_pair_map == old(self).gid_to_cantor_pair_map,
            final(self).chunk_to_cantor_pair_map == old(self).chunk_to_cantor_pair_map,
    {
        self.id_gen = self.id_gen + 1;
        self.id_gen
    }
}

/// Puts `b` into the set of `a`, creating the set when `a` has none.
pub fn relate(m: &mut HashMap<u32, HashSet<u32>>, a: u32, b: u32)
    ensures
        forall|x: u32, y: u32| related(final(m)@, x, y) <==> related(old(m)@, x, y) || (x == a && y == b),
        final(m)@.dom() == old(m)@.dom().insert(a),
{
    let ghost before = m@;
    let set = m.entry(a).or_insert(HashSet::new());
    set.insert(b);
    proof {
        assert forall|x: u32, y: u32| related(m@, x, y) <==> related(before, x, y) || (x == a && y == b) by {
            if x != a {
                assert(m@[x] == before[x]);
            }
        }
        assert(m@.dom() =~= before.dom().insert(a));
    }
}

/// Takes `b` out of the set of `a`, creating an empty set when `a` has none.
fn unrelate(m: &mut HashMap<u32, HashSet<u32>>, a: u32, b: u32)
    ensures
        forall|x: u32, y: u32| related(final(m)@, x, y) <==> related(old(m)@, x, y) && !(x == a && y == b),
        final(m)@.dom() == old(m)@.dom().insert(a),
{
    let ghost before = m@;
    let set = m.entry(a).or_insert(HashSet::new());
    set.remove(&b);
    proof {
        assert forall|x: u32, y: u32| related(m@, x, y) <==> related(before, x, y) && !(x == a && y == b) by {
            if x != a {
                assert(m@[x] == before[x]);
            }
        }
        assert(m@.dom() =~= before.dom().insert(a));
    }
}

impl PolylineBookkeeping {
    /// Records that the chunk uses each gid of its data, both ways.
    pub fn add_gid_cantor_pair_relations(&mut self, chunk_id: &CantorPair, chunk_option: Option<&Chunk>)
        ensures
            final(self).id_gen == old(self).id_gen,
            forall|g: u32, c: u32|
                related(final(self).gid_to_cantor_pair_map@, g, c) <==> related(
                    old(self).gid_to_cantor_pair_map@,
                    g,
                    c,
                ) || (c == *chunk_id && chunk_uses(chunk_option, g)),
            forall|c: u32, g: u32|
                related(final(self).chunk_to_cantor_pair_map@, c, g) <==> related(
                    old(self).chunk_to_cantor_pair_map@,
                    c,
                    g,
                ) || (c == *chunk_id && chunk_uses(chunk_option, g)),
            relation_pairs(final(self).gid_to_cantor_pair_map@) == relation_pairs(
                old(self).gid_to_cantor_pair_map@,
            ).union(gid_chunk_pairs(*chunk_id, chunk_option)),
            relation_pairs(final(self).chunk_to_cantor_pair_map@) == relation_pairs(
                old(self).chunk_to_cantor_pair_map@,
            ).union(chunk_gid_pairs(*chunk_id, chunk_option)),
    {
        self.add_relations_loop(chunk_id, chunk_option);
        assert(relation_pairs(self.gid_to_cantor_pair_map@) =~= relation_pairs(
            old(self).gid_to_cantor_pair_map@,
        ).union(gid_chunk_pairs(*chunk_id, chunk_option)));
        assert(relation_pairs(self.chunk_to_cantor_pair_map@) =~= relation_pairs(
            old(self).chunk_to_cantor_pair_map@,
        ).union(chunk_gid_pairs(*chunk_id, chunk_option)));
    }

    fn add_relations_loop(&mut self, chunk_id: &CantorPair, chunk_option: Option<&Chunk>)
        ensures
            final(self).id_gen == old(self).id_gen,
            forall|g: u32, c: u32|
                related(final(self).gid_to_cantor_pair_map@, g, c) <==> related(
                    old(self).gid_to_cantor_pair_map@,
                    g,
                    c,
                ) || (c == *chunk_id && chunk_uses(chunk_option, g)),
            forall|c: u32, g: u32|
                related(final(self).chunk_to_cantor_pair_map@, c, g) <==> related(
                    old(self).chunk_to_cantor_pair_map@,
                    c,
                    g,
                ) || (c == *chunk_id && chunk_uses(chunk_option, g)),
    {
        if let Some(chunk) = chunk_option {
            let mut i: usize = 0;
            while i < chunk.data.len()
                invariant
                    self.id_gen == old(self).id_gen,
                    i <= chunk.data@.len(),
                    forall|g: u32, c: u32|
                        related(self.gid_to_cantor_pair_map@, g, c) <==> related(
                            old(self).gid_to_cantor_pair_map@,
                            g,
                            c,
                        ) || (c == *chunk_id && chunk.data@.take(i as int).contains(g)),
                    forall|c: u32, g: u32|
                        related(self.chunk_to_cantor_pair_map@, c, g) <==> related(
                            old(self).chunk_to_cantor_pair_map@,
                            c,
                            g,
                        ) || (c == *chunk_id && chunk.data@.take(i as int).contains(g)),
                decreases chunk.data@.len() - i,
            {
                let gid = chunk.data[i];
                relate(&mut self.gid_to_cantor_pair_map, gid, *chunk_id);
                relate(&mut self.chunk_to_cantor_pair_map, *chunk_id, gid);
                proof {
                    let next = chunk.data@.take(i + 1);
                    let prev = chunk.data@.take(i as int);
                    assert(next =~= prev.push(gid));
                    assert forall|g: u32| next.contains(g) <==> prev.contains(g) || g == gid by {
                        if next.contains(g) && g != gid {
                            let w = choose|w: int| 0 <= w < next.len() && #[trigger] next[w] == g;
                            assert(prev[w] == g);
                        }
                        if g == gid {
                            assert(next[i as int] == g);
                        }
                        if prev.contains(g) {
                            let w = choose|w: int| 0 <= w < prev.len() && #[trigger] prev[w] == g;
                            assert(next[w] == g);
                        }
                    }
                }
                i = i + 1;
            }
            proof {
                assert(chunk.data@.take(chunk.data@.len() as int) =~= chunk.data@);
            }
        }
    }

    /// Forgets that the chunk uses each gid of its data, both ways.
    pub fn clear_gid_cantor_pair_relations(
        &mut self,
        chunk_id: &CantorPair,
        chunk_option: Option<&Chunk>,
    )
        ensures
            final(self).id_gen == old(self).id_gen,
            forall|g: u32, c: u32|
                related(final(self).gid_to_cantor_pair_map@, g, c) <==> related(
                    old(self).gid_to_cantor_pair_map@,
                    g,
                    c,
                ) && !(c == *chunk_id && chunk_uses(chunk_option, g)),
            forall|c: u32, g: u32|
                related(final(self).chunk_to_cantor_pair_map@, c, g) <==> related(
                    old(self).chunk_to_cantor_pair_map@,
                    c,
                    g,
                ) && !(c == *chunk_id && chunk_uses(chunk_option, g)),
            relation_pairs(final(self).gid_to_cantor_pair_map@) == relation_pairs(
                old(self).gid_to_cantor_pair_map@,
            ).difference(gid_chunk_pairs(*chunk_id, chunk_option)),
            relation_pairs(final(self).chunk_to_cantor_pair_map@) == relation_pairs(
                old(self).chunk_to_cantor_pair_map@,
            ).difference(chunk_gid_pairs(*chunk_id, chunk_option)),
    {
        self.clear_relations_loop(chunk_id, chunk_option);
        assert(relation_pairs(self.gid_to_cantor_pair_map@) =~= relation_pairs(
            old(self).gid_to_cantor_pair_map@,
        ).difference(gid_chunk_pairs(*chunk_id, chunk_option)));
        assert(relation_pairs(self.chunk_to_cantor_pair_map@) =~= relation_pairs(
            old(self).chunk_to_cantor_pair_map@,
        ).difference(chunk_gid_pairs(*chunk_id, chunk_option)));
    }

    fn clear_relations_loop(&mut self, chunk_id: &CantorPair, chunk_option: Option<&Chunk>)
        ensures
            final(self).id_gen == old(self).id_gen,
            forall|g: u32, c: u32|
                related(final(self).gid_to_cantor_pair_map@, g, c) <==> related(
                    old(self).gid_to_cantor_pair_map@,
                    g,
                    c,
                ) && !(c == *chunk_id && chunk_uses(chunk_option, g)),
            forall|c: u32, g: u32|
                related(final(self).chunk_to_cantor_pair_map@, c, g) <==> related(
                    old(self).chunk_to_cantor_pair_map@,
                    c,
                    g,
                ) && !(c == *chunk_id && chunk_uses(chunk_option, g)),
    {
        if let Some(chunk) = chunk_option {
            let mut i: usize = 0;
            while i < chunk.data.len()
                invariant
                    self.id_gen == old(self).id_gen,
                    i <= chunk.data@.len(),
                    forall|g: u32, c: u32|
                        related(self.gid_to_cantor_pair_map@, g, c) <==> related(
                            old(self).gid_to_cantor_pair_map@,
                            g,
                            c,
                        ) && !(c == *chunk_id && chunk.data@.take(i as int).contains(g)),
                    forall|c: u32, g: u32|
                        related(self.chunk_to_cantor_pair_map@, c, g) <==> related(
                            old(self).chunk_to_cantor_pair_map@,
                            c,
                            g,
                        ) && !(c == *chunk_id && chunk.data@.take(i as int).contains(g)),
                decreases chunk.data@.len() - i,
            {
                let gid = chunk.data[i];
                unrelate(&mut self.gid_to_cantor_pair_map, gid, *chunk_id);
                unrelate(&mut self.chunk_to_cantor_pair_map, *chunk_id, gid);
                proof {
                    let next = chunk.data@.take(i + 1);
                    let prev = chunk.data@.take(i as int);
                    assert(next =~= prev.push(gid));
                    assert forall|g: u32| next.contains(g) <==> prev.contains(g) || g == gid by {
                        if next.contains(g) && g != gid {
                            let w = choose|w: int| 0 <= w < next.len() && #[trigger] next[w] == g;
                            assert(prev[w] == g);
                        }
                        if g == gid {
                            assert(next[i as int] == g);
                        }
                        if prev.contains(g) {
                            let w = choose|w: int| 0 <= w < prev.len() && #[trigger] prev[w] == g;
                            assert(next[w] == g);
                        }
                    }
                }
                i = i + 1;
            }
            proof {
                assert(chunk.data@.take(chunk.data@.len() as int) =~= chunk.data@);
            }
        }
    }
}

/// A tile of the terrain grid: its gid, where it lies, the outline of its
/// collision shape, the edges of that outline that lie on the surface, and
/// the polyline each traced edge belongs to.
pub struct TerrainGridTile {
    pub gid: u32,
    pub position: TilePosition,
    pub vertices: RingVec<Vertex>,
    pub surface_edges: RingVec<Edge>,
    pub edge_polylines: Vec<(Edge, PolyLineId)>,
}

impl TerrainGridTile {
    /// Whether the point lies inside the polygon `vertices` or on its border,
    /// as the terrain decides which edges are covered by neighbouring tiles.
    pub fn vertex_in_polygon(vertices: &RingVec<Vertex>, point: Vertex) -> (inside: bool)
        requires
            vertices.data@.len() > 0,
        ensures
            inside == point_in_polygon(vertices.data@, point),
    {
        let (x, y) = point;
        let n = vertices.data.len();
        let ghost vs = vertices.data@;
        let mut min_x = vertices.data[0].0;
        let mut max_x = vertices.data[0].0;
        let mut k: usize = 1;
        while k < n
            invariant
                n == vs.len(),
                vs == vertices.data@,
                1 <= k <= n,
                exists|i: int| 0 <= i < k && vs[i].0 == min_x,
                exists|i: int| 0 <= i < k && vs[i].0 == max_x,
                forall|i: int| 0 <= i < k ==> min_x <= #[trigger] vs[i].0 <= max_x,
            decreases n - k,
        {
            let vx = vertices.data[k].0;
            if vx < min_x {
                min_x = vx;
            }
            if vx > max_x {
                max_x = vx;
            }
            k = k + 1;
        }
        if x < min_x || x > max_x {
            assert(!within_x_range(vs, x as int));
            return false;
        }
        assert(within_x_range(vs, x as int));
        let mut inside = false;
        let mut i: usize = 1;
        while i < n
            invariant
                n == vs.len(),
                vs == vertices.data@,
                1 <= i <= n,
                within_x_range(vs, x as int),
                ray_scan(vs, x as int, y as int, i as int, inside) == point_in_polygon(vs, point),
            decreases n - i,
        {
            assert((i as int) % (n as int) == i) by {
                vstd::arithmetic::div_mod::lemma_small_mod(i as nat, n as nat);
            }
            match scan_edge(vertices.data[i - 1], vertices.data[i], x, y, inside) {
                ScanStep::Answer(b) => {
                    return b;
                },
                ScanStep::Next(b) => {
                    inside = b;
                },
            }
            i = i + 1;
        }
        assert((n as int) % (n as int) == 0) by {
            vstd::arithmetic::div_mod::lemma_mod_self_0(n as int);
        }
        match scan_edge(vertices.data[n - 1], vertices.data[0], x, y, inside) {
            ScanStep::Answer(b) => b,
            ScanStep::Next(b) => {
                assert(ray_scan(vs, x as int, y as int, n as int + 1, b) == b);
                b
            },
        }
    }
}

/// Rounding toward zero stays less than one divisor away: `q * b` lies
/// strictly within `|b|` of `a`.
proof fn lemma_trunc_div_close(a: int, b: int)
    requires
        b != 0,
    ensures
        b > 0 ==> trunc_div(a, b) * b - b < a < trunc_div(a, b) * b + b,
        b < 0 ==> trunc_div(a, b) * b + b < a < trunc_div(a, b) * b - b,
{
    let a1 = if b < 0 { -a } else { a };
    let b1 = if b < 0 { -b } else { b };
    let q = trunc_div_pos(a1, b1);
    assert(trunc_div(a, b) == q);
    if a1 >= 0 {
        vstd::arithmetic::div_mod::lemma_fundamental_div_mod(a1, b1);
        vstd::arithmetic::div_mod::lemma_mod_pos_bound(a1, b1);
        let r = a1 % b1;
        assert(q * b1 - b1 < a1 < q * b1 + b1) by (nonlinear_arith)
            requires
                q == a1 / b1,
                a1 == b1 * (a1 / b1) + r,
                0 <= r < b1,
        ;
    } else {
        vstd::arithmetic::div_mod::lemma_fundamental_div_mod(-a1, b1);
        vstd::arithmetic::div_mod::lemma_mod_pos_bound(-a1, b1);
        let f = (-a1) / b1;
        let r = (-a1) % b1;
        assert(q * b1 - b1 < a1 < q * b1 + b1) by (nonlinear_arith)
            requires
                q == -f,
                -a1 == b1 * f + r,
                0 <= r < b1,
        ;
    }
    if b < 0 {
        assert(q * b + b < a < q * b - b) by (nonlinear_arith)
            requires
                q * b1 - b1 < a1 < q * b1 + b1,
                a1 == -a,
                b1 == -b,
        ;
    }
}

/// The point lies strictly on the left of the line through `p1` and `p2`:
/// left of where that line crosses the point's height.
pub open spec fn left_of_line(p1: Vertex, p2: Vertex, x: int, y: int) -> bool {
    let lhs = (x - p1.0) * (p2.1 - p1.1);
    let rhs = (y - p1.1) * (p2.0 - p1.0);
    if p2.1 > p1.1 {
        lhs < rhs
    } else {
        lhs > rhs
    }
}

/// The point lies on the line through `p1` and `p2`.
pub open spec fn on_line(p1: Vertex, p2: Vertex, x: int, y: int) -> bool {
    (x - p1.0) * (p2.1 - p1.1) == (y - p1.1) * (p2.0 - p1.0)
}

/// The point lies right of the line through `p1` and `p2` by at least one
/// whole column.
pub open spec fn clearly_right_of_line(p1: Vertex, p2: Vertex, x: int, y: int) -> bool {
    let lhs = (x - p1.0) * (p2.1 - p1.1);
    let rhs = (y - p1.1) * (p2.0 - p1.0);
    if p2.1 > p1.1 {
        lhs - rhs >= p2.1 - p1.1
    } else {
        rhs - lhs >= p1.1 - p2.1
    }
}

/// The point lies left of the line through `p1` and `p2` by at least one
/// whole column.
pub open spec fn clearly_left_of_line(p1: Vertex, p2: Vertex, x: int, y: int) -> bool {
    let lhs = (x - p1.0) * (p2.1 - p1.1);
    let rhs = (y - p1.1) * (p2.0 - p1.0);
    if p2.1 > p1.1 {
        rhs - lhs >= p2.1 - p1.1
    } else {
        lhs - rhs >= p1.1 - p2.1
    }
}

/// How one edge that is not horizontal and spans the point's height acts on
/// the ray cast from the point toward growing x: the parity flips only for
/// a point left of the edge's line, stays only for a point not left of it,
/// and a point on the edge is inside. A point right of the line by a whole
/// column leaves the parity as it was.
pub proof fn lemma_edge_step_side(p1: Vertex, p2: Vertex, x: int, y: int, inside: bool)
    requires
        p1.1 != p2.1,
        min_int(p1.1 as int, p2.1 as int) <= y <= max_int(p1.1 as int, p2.1 as int),
    ensures
        edge_step(p1, p2, x, y, inside) == ScanStep::Next(!inside) ==> left_of_line(p1, p2, x, y),
        edge_step(p1, p2, x, y, inside) == ScanStep::Next(inside) ==> !left_of_line(p1, p2, x, y),
        on_line(p1, p2, x, y) ==> edge_step(p1, p2, x, y, inside) == ScanStep::Answer(true),
        clearly_right_of_line(p1, p2, x, y) ==> edge_step(p1, p2, x, y, inside) == ScanStep::Next(inside),
        clearly_left_of_line(p1, p2, x, y) ==> edge_step(p1, p2, x, y, inside) == ScanStep::Next(!inside),
{
    let d = p2.1 - p1.1;
    let dx = p2.0 - p1.0;
    let t = y - p1.1;
    let a = t * dx;
    let xx = x - p1.0;
    let q = trunc_div(a, d);
    lemma_trunc_div_close(a, d);
    assert(crossing_x(p1, p2, y) == q + p1.0);
    let hi = max_int(p1.0 as int, p2.0 as int);
    // where the point stands against the crossing decides the side
    if xx < q {
        assert(left_of_line(p1, p2, x, y)) by (nonlinear_arith)
            requires
                xx < q,
                d > 0 ==> q * d - d < a < q * d + d,
                d < 0 ==> q * d + d < a < q * d - d,
                d != 0,
                left_of_line(p1, p2, x, y) == (if d > 0 { xx * d < a } else { xx * d > a }),
        ;
    }
    if xx > q {
        assert(!left_of_line(p1, p2, x, y)) by (nonlinear_arith)
            requires
                xx > q,
                d > 0 ==> q * d - d < a < q * d + d,
                d < 0 ==> q * d + d < a < q * d - d,
                d != 0,
                left_of_line(p1, p2, x, y) == (if d > 0 { xx * d < a } else { xx * d > a }),
        ;
    }
    // a point beyond both ends in x is not left of the line
    if x > hi {
        assert(!left_of_line(p1, p2, x, y)) by (nonlinear_arith)
            requires
                xx > 0,
                xx > dx,
                d > 0 ==> 0 <= t <= d,
                d < 0 ==> d <= t <= 0,
                d != 0,
                a == t * dx,
                left_of_line(p1, p2, x, y) == (if d > 0 { xx * d < a } else { xx * d > a }),
        ;
    }
    if dx == 0 {
        assert(a == 0) by (nonlinear_arith)
            requires
                dx == 0,
                a == t * dx,
        ;
        assert(q == 0) by (nonlinear_arith)
            requires
                a == 0,
                d > 0 ==> q * d - d < a < q * d + d,
                d < 0 ==> q * d + d < a < q * d - d,
                d != 0,
        ;
    }
    if on_line(p1, p2, x, y) {
        assert(xx * d == a);
        assert(q == xx) by (nonlinear_arith)
            requires
                xx * d == a,
                d > 0 ==> q * d - d < a < q * d + d,
                d < 0 ==> q * d + d < a < q * d - d,
                d != 0,
        ;
        assert(xx <= 0 || xx <= dx) by (nonlinear_arith)
            requires
                xx * d == a,
                a == t * dx,
                d > 0 ==> 0 <= t <= d,
                d < 0 ==> d <= t <= 0,
                d != 0,
        {
            if d > 0 {
                if dx >= 0 {
                    assert(t * dx <= d * dx);
                } else {
                    assert(t * dx <= 0);
                }
            } else {
                if dx >= 0 {
                    assert(t * dx >= d * dx);
                } else {
                    assert(t * dx >= 0);
                }
            }
        }
        assert(x <= hi);
    }
    if clearly_right_of_line(p1, p2, x, y) {
        assert(xx > q) by (nonlinear_arith)
            requires
                d > 0 ==> xx * d - a >= d,
                d < 0 ==> a - xx * d >= -d,
                d > 0 ==> q * d - d < a < q * d + d,
                d < 0 ==> q * d + d < a < q * d - d,
                d != 0,
        ;
        if dx == 0 {
            assert(x > hi);
        }
    }
    if clearly_left_of_line(p1, p2, x, y) {
        assert(xx < q) by (nonlinear_arith)
            requires
                d > 0 ==> a - xx * d >= d,
                d < 0 ==> xx * d - a >= -d,
                d > 0 ==> q * d - d < a < q * d + d,
                d < 0 ==> q * d + d < a < q * d - d,
                d != 0,
        ;
        assert(xx < 0 || xx < dx) by (nonlinear_arith)
            requires
                d > 0 ==> a - xx * d >= d,
                d < 0 ==> xx * d - a >= -d,
                a == t * dx,
                d > 0 ==> 0 <= t <= d,
                d < 0 ==> d <= t <= 0,
                d != 0,
        {
            if d > 0 {
                if dx >= 0 {
                    assert(t * dx <= d * dx);
                } else {
                    assert(t * dx <= 0);
                }
            } else {
                if dx >= 0 {
                    assert(t * dx >= d * dx);
                } else {
                    assert(t * dx >= 0);
                }
            }
        }
        assert(x <= hi);
    }
}

/// Every edge from `i` on that spans the point's height is not horizontal
/// and has the point a whole column or more to one side of its line.
pub open spec fn sides_decided(vs: Seq<Vertex>, x: int, y: int, i: int) -> bool {
    forall|j: int|
        i <= j <= vs.len() && 1 <= j ==> {
            let p1 = #[trigger] vs[j - 1];
            let p2 = vs[j % (vs.len() as int)];
            min_int(p1.1 as int, p2.1 as int) <= y <= max_int(p1.1 as int, p2.1 as int) ==> p1.1 != p2.1
                && (clearly_left_of_line(p1, p2, x, y) || clearly_right_of_line(p1, p2, x, y))
        }
}

/// How many edges from `i` on span the point's height with the point left
/// of their line: the edges a ray from the point toward growing x crosses.
pub open spec fn edges_crossed(vs: Seq<Vertex>, x: int, y: int, i: int) -> nat
    decreases vs.len() + 1 - i,
{
    if i < 1 || i > vs.len() {
        0
    } else {
        let p1 = vs[i - 1];
        let p2 = vs[i % (vs.len() as int)];
        let here: nat = if min_int(p1.1 as int, p2.1 as int) <= y <= max_int(p1.1 as int, p2.1 as int)
            && clearly_left_of_line(p1, p2, x, y) {
            1
        } else {
            0
        };
        here + edges_crossed(vs, x, y, i + 1)
    }
}

/// The even-odd rule: where every edge the point's height meets has the
/// point clearly to one side, the scan's parity flips once for each edge
/// the ray crosses.
proof fn lemma_scan_counts_crossings(vs: Seq<Vertex>, x: int, y: int, i: int, inside: bool)
    requires
        1 <= i,
        sides_decided(vs, x, y, i),
    ensures
        ray_scan(vs, x, y, i, inside) == (inside != (edges_crossed(vs, x, y, i) % 2 == 1)),
    decreases vs.len() + 1 - i,
{
    if i <= vs.len() {
        let p1 = vs[i - 1];
        let p2 = vs[i % (vs.len() as int)];
        let spans = min_int(p1.1 as int, p2.1 as int) <= y <= max_int(p1.1 as int, p2.1 as int);
        if spans {
            lemma_edge_step_side(p1, p2, x, y, inside);
            if clearly_left_of_line(p1, p2, x, y) {
                assert(!clearly_right_of_line(p1, p2, x, y)) by (nonlinear_arith)
                    requires
                        clearly_left_of_line(p1, p2, x, y),
                        p1.1 != p2.1,
                ;
                lemma_scan_counts_crossings(vs, x, y, i + 1, !inside);
            } else {
                lemma_scan_counts_crossings(vs, x, y, i + 1, inside);
            }
        } else {
            lemma_scan_counts_crossings(vs, x, y, i + 1, inside);
        }
    }
}

/// A point that every edge at its height has clearly to one side is inside
/// the polygon exactly when it lies within the polygon's x range and a ray
/// from it toward growing x crosses an odd number of edges.
pub proof fn lemma_point_in_polygon_even_odd(vs: Seq<Vertex>, p: Vertex)
    requires
        sides_decided(vs, p.0 as int, p.1 as int, 1),
    ensures
        point_in_polygon(vs, p) == (within_x_range(vs, p.0 as int) && edges_crossed(vs, p.0 as int, p.1 as int, 1)
            % 2 == 1),
{
    lemma_scan_counts_crossings(vs, p.0 as int, p.1 as int, 1, false);
}

/// The ray scan from edge `i` on, for a point clearly right of the line of
/// every edge that spans its height, where none of those is horizontal.
pub open spec fn right_of_spanning_edges(vs: Seq<Vertex>, x: int, y: int, i: int) -> bool {
    forall|j: int|
        i <= j <= vs.len() && 1 <= j ==> {
            let p1 = #[trigger] vs[j - 1];
            let p2 = vs[j % (vs.len() as int)];
            min_int(p1.1 as int, p2.1 as int) <= y <= max_int(p1.1 as int, p2.1 as int) ==> p1.1 != p2.1
                && clearly_right_of_line(p1, p2, x, y)
        }
}

/// A ray from a point right of every edge it meets crosses none of them,
/// so the parity it starts with is what the scan ends with.
proof fn lemma_scan_right_of_edges(vs: Seq<Vertex>, x: int, y: int, i: int, inside: bool)
    requires
        1 <= i,
        right_of_spanning_edges(vs, x, y, i),
    ensures
        ray_scan(vs, x, y, i, inside) == inside,
    decreases vs.len() + 1 - i,
{
    if i <= vs.len() {
        let p1 = vs[i - 1];
        let p2 = vs[i % (vs.len() as int)];
        if min_int(p1.1 as int, p2.1 as int) <= y <= max_int(p1.1 as int, p2.1 as int) {
            lemma_edge_step_side(p1, p2, x, y, inside);
        }
        assert(edge_step(p1, p2, x, y, inside) == ScanStep::Next(inside));
        lemma_scan_right_of_edges(vs, x, y, i + 1, inside);
    }
}

/// A point right of every edge that spans its height, by at least a whole
/// column, is outside the polygon: no edge the ray meets turns it inside.
pub proof fn lemma_right_of_edges_outside(vs: Seq<Vertex>, p: Vertex)
    requires
        right_of_spanning_edges(vs, p.0 as int, p.1 as int, 1),
    ensures
        !point_in_polygon(vs, p),
{
    lemma_scan_right_of_edges(vs, p.0 as int, p.1 as int, 1, false);
}

/// A point beyond the slanted side of a right triangle is outside it.
pub proof fn lemma_point_beyond_slope_outside()
    ensures
        !point_in_polygon(seq![(0i32, 0i32), (10i32, 0i32), (0i32, 10i32)], (8i32, 8i32)),
{
    let vs = seq![(0i32, 0i32), (10i32, 0i32), (0i32, 10i32)];
    assert(1int % 3 == 1 && 2int % 3 == 2 && 3int % 3 == 0);
    assert(vs.len() == 3 && vs[0] == (0i32, 0i32) && vs[1] == (10i32, 0i32) && vs[2] == (0i32, 10i32));
    assert forall|j: int| 1 <= j <= vs.len() && 1 <= j implies {
        let p1 = #[trigger] vs[j - 1];
        let p2 = vs[j % (vs.len() as int)];
        min_int(p1.1 as int, p2.1 as int) <= 8 <= max_int(p1.1 as int, p2.1 as int) ==> p1.1 != p2.1
            && clearly_right_of_line(p1, p2, 8, 8)
    } by {
        if j == 1 {
        } else if j == 2 {
            assert(clearly_right_of_line((10i32, 0i32), (0i32, 10i32), 8, 8)) by (nonlinear_arith);
        } else {
            assert(clearly_right_of_line((0i32, 10i32), (0i32, 0i32), 8, 8)) by (nonlinear_arith);
        }
    }
    assert(right_of_spanning_edges(vs, 8, 8, 1));
    lemma_right_of_edges_outside(vs, (8i32, 8i32));
}

/// A point under the slanted side of a right triangle is inside it.
pub proof fn lemma_point_below_slope_inside()
    ensures
        point_in_polygon(seq![(0i32, 0i32), (10i32, 0i32), (0i32, 10i32)], (1i32, 1i32)),
{
    let vs = seq![(0i32, 0i32), (10i32, 0i32), (0i32, 10i32)];
    assert(1int % 3 == 1 && 2int % 3 == 2 && 3int % 3 == 0);
    assert(vs.len() == 3 && vs[0] == (0i32, 0i32) && vs[1] == (10i32, 0i32) && vs[2] == (0i32, 10i32));
    assert(clearly_left_of_line((10i32, 0i32), (0i32, 10i32), 1, 1)) by (nonlinear_arith);
    assert(clearly_right_of_line((0i32, 10i32), (0i32, 0i32), 1, 1)) by (nonlinear_arith);
    assert forall|j: int| 1 <= j <= vs.len() && 1 <= j implies {
        let p1 = #[trigger] vs[j - 1];
        let p2 = vs[j % (vs.len() as int)];
        min_int(p1.1 as int, p2.1 as int) <= 1 <= max_int(p1.1 as int, p2.1 as int) ==> p1.1 != p2.1 && (
        clearly_left_of_line(p1, p2, 1, 1) || clearly_right_of_line(p1, p2, 1, 1))
    } by {}
    assert(edges_crossed(vs, 1, 1, 4) == 0);
    assert(edges_crossed(vs, 1, 1, 3) == 0);
    assert(edges_crossed(vs, 1, 1, 2) == 1);
    assert(edges_crossed(vs, 1, 1, 1) == 1);
    assert(vs[0].0 <= 1 && 1 <= vs[1].0);
    lemma_point_in_polygon_even_odd(vs, (1i32, 1i32));
}

} // verus!
