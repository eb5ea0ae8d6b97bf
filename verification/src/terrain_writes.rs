use std::collections::HashMap;

use vstd::prelude::*;

use crate::blueprint::{Chunk, Gid, TerrainParams};
use crate::polyline_removal::traced_in_region;
use crate::polyline_removal::{
    chunk_bounds, in_region, lemma_opened, released_at, reopened, reopened_by, Bounds,
};
use crate::polyline_tracing::{
    ids_at_most, lemma_same_traces_polyline, lines_consistent, open_untraced, positions_fit, traced,
    traced_to, traces_polyline,
};
use crate::terrain::{
    chunk_gid_pairs, gid_chunk_pairs, lemma_tile_positions_distinct, related, relation_pairs, tile_position, CantorPair,
    PolylineBookkeeping, PolyLineId, TerrainGridTile, TerrainPolyLineBuilder, TilePosition, Vertex};
use crate::terrain_grid::{
    chunk_fits, chunk_tile_outline, chunk_tile_position, edge_map, last_at_position, opened, placed_tile,
    position_key, preparable, prepared_open_edges, processed, surface_edges_of, unique_edges, untouched,
    vertices_at, TerrainGrid,
};

verus! {

/// Each tile has an outline and lies away from the border of the
/// coordinate range.
pub open spec fn outlines_ok(tiles: Map<u64, TerrainGridTile>) -> bool {
    forall|k: u64| #[trigger]
        tiles.contains_key(k) ==> tiles[k].vertices.data@.len() > 0 && i32::MIN < tiles[k].position.0
            < i32::MAX && i32::MIN < tiles[k].position.1 < i32::MAX
}

/// The terrain between two writes: a well-formed grid of tiles with
/// outlines, no open edge traced where it lies, the live polylines
/// consistent with the traced edges, and every polyline numbered at most
/// `gen`.
pub open spec fn terrain_ready(grid: TerrainGrid, lines: Seq<TerrainPolyLineBuilder>, gen: PolyLineId) -> bool {
    &&& grid.wf()
    &&& outlines_ok(grid.tiles@)
    &&& unique_edges(grid.open_edges@)
    &&& open_untraced(grid.tiles@, edge_map(grid.open_edges@))
    &&& lines_consistent(grid.tiles@, lines)
    &&& ids_at_most(grid.tiles@, gen)
    &&& forall|i: int| 0 <= i < lines.len() ==> (#[trigger] lines[i]).id <= gen
}

/// Both grids have tiles under the same keys, with the same gids, positions
/// and outlines.
pub open spec fn same_shapes(a: Map<u64, TerrainGridTile>, b: Map<u64, TerrainGridTile>) -> bool {
    &&& a.dom() == b.dom()
    &&& forall|k: u64| #[trigger]
        a.contains_key(k) ==> a[k].gid == b[k].gid && a[k].position == b[k].position && a[k].vertices == b[k].vertices
}

/// The tile has the gid, the position and the outline.
pub open spec fn holds_outline(t: TerrainGridTile, gid: Gid, p: TilePosition, outline: Seq<(int, int)>) -> bool {
    &&& t.gid == gid
    &&& t.position == p
    &&& t.vertices.data@.len() == outline.len()
    &&& forall|k: int|
        0 <= k < outline.len() ==> (#[trigger] t.vertices.data@[k]).0 == outline[k].0
            && t.vertices.data@[k].1 == outline[k].1
}

/// The grid holds the tile `i` of the chunk: no tile where its gid is
/// empty, else a tile with its gid and outline.
pub open spec fn tile_placed(
    tiles: Map<u64, TerrainGridTile>,
    chunk: Chunk,
    params: TerrainParams,
    shapes: Map<Gid, Vec<Vertex>>,
    i: int,
) -> bool {
    let p = chunk_tile_position(chunk, params.chunk_size as i32, i);
    if chunk.data@[i] == 0 {
        !tiles.contains_key(position_key(p))
    } else {
        tiles.contains_key(position_key(p)) && holds_outline(
            tiles[position_key(p)],
            chunk.data@[i],
            p,
            chunk_tile_outline(chunk, params, shapes, i),
        )
    }
}

/// The grid holds every tile of the chunk that is the last of the chunk at
/// its position.
pub open spec fn chunk_placed(
    tiles: Map<u64, TerrainGridTile>,
    chunk: Chunk,
    params: TerrainParams,
    shapes: Map<Gid, Vec<Vertex>>,
) -> bool {
    forall|i: int|
        0 <= i < chunk.data@.len() && last_at_position(chunk, params.chunk_size as i32, i) ==> #[trigger] tile_placed(
            tiles,
            chunk,
            params,
            shapes,
            i,
        )
}

/// Away from the tiles of the chunk, the grid has the same tiles, with the
/// same gids, positions and outlines.
pub open spec fn keeps_outside(
    before: Map<u64, TerrainGridTile>,
    after: Map<u64, TerrainGridTile>,
    chunk: Chunk,
    size: i32,
) -> bool {
    forall|k: u64| #[trigger]
        untouched(chunk, size, chunk.data@.len() as int, k) ==> (after.contains_key(k) == before.contains_key(k) && (
        before.contains_key(k) ==> after[k].gid == before[k].gid && after[k].position == before[k].position
            && after[k].vertices == before[k].vertices))
}

/// Placement survives a change that keeps the shapes.
proof fn lemma_placed_same_shapes(
    a: Map<u64, TerrainGridTile>,
    b: Map<u64, TerrainGridTile>,
    chunk: Chunk,
    params: TerrainParams,
    shapes: Map<Gid, Vec<Vertex>>,
)
    requires
        chunk_placed(a, chunk, params, shapes),
        same_shapes(a, b),
    ensures
        chunk_placed(b, chunk, params, shapes),
{
    assert forall|i: int|
        0 <= i < chunk.data@.len() && last_at_position(chunk, params.chunk_size as i32, i) implies #[trigger] tile_placed(
        b,
        chunk,
        params,
        shapes,
        i,
    ) by {
        assert(tile_placed(a, chunk, params, shapes, i));
        let key = position_key(chunk_tile_position(chunk, params.chunk_size as i32, i));
        if a.contains_key(key) {
            assert(a[key].vertices == b[key].vertices);
        }
    }
}

/// Keeping the outside survives a later change that keeps the shapes.
proof fn lemma_keeps_outside_same_shapes(
    a: Map<u64, TerrainGridTile>,
    b: Map<u64, TerrainGridTile>,
    c: Map<u64, TerrainGridTile>,
    chunk: Chunk,
    size: i32,
)
    requires
        keeps_outside(a, b, chunk, size),
        same_shapes(b, c),
    ensures
        keeps_outside(a, c, chunk, size),
{
    assert forall|k: u64| #[trigger] untouched(chunk, size, chunk.data@.len() as int, k) implies (c.contains_key(k)
        == a.contains_key(k) && (a.contains_key(k) ==> c[k].gid == a[k].gid && c[k].position == a[k].position
        && c[k].vertices == a[k].vertices)) by {
        if b.contains_key(k) {
            assert(b[k].vertices == c[k].vertices);
        }
    }
}

/// A tile of a chunk that is no bigger than its square lies in the square.
proof fn lemma_tile_in_square(chunk_x: i32, chunk_y: i32, n: i32, i: i32)
    requires
        n > 0,
        0 <= i < n * n,
    ensures
        chunk_x * n <= crate::terrain::tile_position(chunk_x, chunk_y, n, i).0 < chunk_x * n + n,
        chunk_y * n <= crate::terrain::tile_position(chunk_x, chunk_y, n, i).1 < chunk_y * n + n,
{
    if n * n > 1 {
        let j: i32 = if i == 0 { 1 } else { 0 };
        lemma_tile_positions_distinct(chunk_x, chunk_y, n, i, j);
    } else {
        assert(n == 1) by (nonlinear_arith)
            requires
                n > 0,
                n * n <= 1,
        ;
        assert(i == 0);
        assert(crate::terrain::trunc_div(0, 1) == 0);
    }
}

/// Squares of different chunks do not meet.
proof fn lemma_squares_apart(a: int, b: int, n: int, x: int, y: int)
    requires
        n > 0,
        a != b,
        a * n <= x < a * n + n,
        b * n <= y < b * n + n,
    ensures
        x != y,
{
    if a < b {
        assert(a * n + n <= b * n) by (nonlinear_arith)
            requires
                a < b,
                n > 0,
        ;
    } else {
        assert(b * n + n <= a * n) by (nonlinear_arith)
            requires
                b < a,
                n > 0,
        ;
    }
}

/// Two writable chunks at different positions have no tile position in
/// common.
proof fn lemma_chunks_apart(a: Chunk, b: Chunk, params: TerrainParams, shapes: Map<Gid, Vec<Vertex>>)
    requires
        chunk_writable(a, params, shapes),
        chunk_writable(b, params, shapes),
        a.position != b.position,
    ensures
        forall|i: int|
            0 <= i < a.data@.len() ==> #[trigger] untouched(
                b,
                params.chunk_size as i32,
                b.data@.len() as int,
                position_key(chunk_tile_position(a, params.chunk_size as i32, i)),
            ),
{
    let n = params.chunk_size as i32;
    assert forall|i: int| 0 <= i < a.data@.len() implies #[trigger] untouched(
        b,
        n,
        b.data@.len() as int,
        position_key(chunk_tile_position(a, n, i)),
    ) by {
        assert forall|j: int| 0 <= j < b.data@.len() implies position_key(
            #[trigger] chunk_tile_position(b, n, j),
        ) != position_key(chunk_tile_position(a, n, i)) by {
            assert(a.data@[i] == a.data@[i]);
            assert(b.data@[j] == b.data@[j]);
            assert(n as int * n as int == params.chunk_size * params.chunk_size);
            lemma_tile_in_square(a.position.0, a.position.1, n, i as i32);
            lemma_tile_in_square(b.position.0, b.position.1, n, j as i32);
            let pa = crate::terrain::tile_position(a.position.0, a.position.1, n, i as i32);
            let pb = crate::terrain::tile_position(b.position.0, b.position.1, n, j as i32);
            if a.position.0 != b.position.0 {
                lemma_squares_apart(a.position.0 as int, b.position.0 as int, n as int, pa.0, pb.0);
            } else {
                lemma_squares_apart(a.position.1 as int, b.position.1 as int, n as int, pa.1, pb.1);
            }
            crate::terrain_grid::lemma_position_key_injective(chunk_tile_position(a, n, i), chunk_tile_position(b, n, j));
        }
    }
}

/// The stored chunks lie at different positions.
pub open spec fn positions_apart(m: Map<CantorPair, Chunk>) -> bool {
    forall|a: CantorPair, b: CantorPair|
        #![trigger m[a], m[b]]
        m.contains_key(a) && m.contains_key(b) && a != b ==> m[a].position != m[b].position
}

/// A chunk stays placed when another chunk, none of whose tiles it shares,
/// is written.
proof fn lemma_placed_outside(
    a: Map<u64, TerrainGridTile>,
    b: Map<u64, TerrainGridTile>,
    placed: Chunk,
    written: Chunk,
    params: TerrainParams,
    shapes: Map<Gid, Vec<Vertex>>,
)
    requires
        chunk_placed(a, placed, params, shapes),
        keeps_outside(a, b, written, params.chunk_size as i32),
        forall|i: int|
            0 <= i < placed.data@.len() ==> #[trigger] untouched(
                written,
                params.chunk_size as i32,
                written.data@.len() as int,
                position_key(chunk_tile_position(placed, params.chunk_size as i32, i)),
            ),
    ensures
        chunk_placed(b, placed, params, shapes),
{
    assert forall|i: int|
        0 <= i < placed.data@.len() && last_at_position(placed, params.chunk_size as i32, i) implies #[trigger] tile_placed(
        b,
        placed,
        params,
        shapes,
        i,
    ) by {
        assert(tile_placed(a, placed, params, shapes, i));
        let key = position_key(chunk_tile_position(placed, params.chunk_size as i32, i));
        assert(untouched(written, params.chunk_size as i32, written.data@.len() as int, key));
        if a.contains_key(key) {
            assert(a[key].vertices == b[key].vertices);
        }
    }
}

/// Opening edges at `p` adds each of them, at `p`, and keeps the rest.
proof fn lemma_opened_keys(m: Map<crate::terrain::Edge, TilePosition>, edges: Seq<crate::terrain::Edge>, p: TilePosition)
    ensures
        forall|e: crate::terrain::Edge| #[trigger]
            opened(m, edges, p).contains_key(e) <==> m.contains_key(e) || edges.contains(e),
        forall|e: crate::terrain::Edge| #[trigger]
            opened(m, edges, p).contains_key(e) ==> opened(m, edges, p)[e] == p || (!edges.contains(e)
                && opened(m, edges, p)[e] == m[e]),
    decreases edges.len(),
{
    if edges.len() > 0 {
        lemma_opened_keys(m, edges.drop_last(), p);
        let prev = opened(m, edges.drop_last(), p);
        assert(opened(m, edges, p) == prev.insert(edges.last(), p));
        assert(edges[edges.len() - 1] == edges.last());
        assert forall|e: crate::terrain::Edge| #[trigger]
            opened(m, edges, p).contains_key(e) <==> m.contains_key(e) || edges.contains(e) by {
            if e == edges.last() {
                assert(edges.contains(e));
            }
            if edges.drop_last().contains(e) {
                let j = choose|j: int| 0 <= j < edges.drop_last().len() && edges.drop_last()[j] == e;
                assert(edges[j] == e);
            }
            if edges.contains(e) && e != edges.last() {
                let j = choose|j: int| 0 <= j < edges.len() && edges[j] == e;
                assert(edges.drop_last()[j] == e);
            }
        }
        assert forall|e: crate::terrain::Edge| #[trigger]
            opened(m, edges, p).contains_key(e) implies opened(m, edges, p)[e] == p || (!edges.contains(e)
            && opened(m, edges, p)[e] == m[e]) by {
            if e != edges.last() && !edges.drop_last().contains(e) {
                assert(!edges.contains(e)) by {
                    if edges.contains(e) {
                        let j = choose|j: int| 0 <= j < edges.len() && edges[j] == e;
                        assert(edges.drop_last()[j] == e);
                    }
                }
            }
        }
    }
}

/// After preparing the positions, every surface edge of a tile at one of
/// them is open, at a position that has a tile.
proof fn lemma_prepared_covers(
    m: Map<crate::terrain::Edge, TilePosition>,
    tiles: Map<u64, TerrainGridTile>,
    ps: Seq<TilePosition>,
)
    ensures
        forall|p: TilePosition, e: crate::terrain::Edge|
            ps.contains(p) && tiles.contains_key(position_key(p)) && #[trigger] surface_edges_of(
                tiles,
                p,
                tiles[position_key(p)].vertices.data@,
            ).contains(e) ==> prepared_open_edges(m, tiles, ps).contains_key(e) && tiles.contains_key(
                position_key(prepared_open_edges(m, tiles, ps)[e]),
            ),
    decreases ps.len(),
{
    if ps.len() > 0 {
        let d = ps.drop_last();
        lemma_prepared_covers(m, tiles, d);
        let before = prepared_open_edges(m, tiles, d);
        let q = ps.last();
        let after = prepared_open_edges(m, tiles, ps);
        assert forall|p: TilePosition, e: crate::terrain::Edge|
            ps.contains(p) && tiles.contains_key(position_key(p)) && #[trigger] surface_edges_of(
                tiles,
                p,
                tiles[position_key(p)].vertices.data@,
            ).contains(e) implies after.contains_key(e) && tiles.contains_key(position_key(after[e])) by {
            match vertices_at(tiles, q) {
                Some(vs) => {
                    lemma_opened_keys(before, surface_edges_of(tiles, q, vs), q);
                    if p == q {
                        assert(vs == tiles[position_key(p)].vertices.data@);
                    } else {
                        let j = choose|j: int| 0 <= j < ps.len() && ps[j] == p;
                        assert(d[j] == p);
                        assert(d.contains(p));
                        assert(before.contains_key(e));
                    }
                },
                None => {
                    if p == q {
                        assert(false);
                    } else {
                        let j = choose|j: int| 0 <= j < ps.len() && ps[j] == p;
                        assert(d[j] == p);
                        assert(d.contains(p));
                    }
                },
            }
        }
    }
}

/// The non-empty tiles of the chunk have outlines and lie away from the
/// border of the coordinate range.
pub open spec fn chunk_tiles_ok(chunk: Chunk, params: TerrainParams, shapes: Map<Gid, Vec<Vertex>>) -> bool {
    forall|i: int|
        #![trigger chunk.data@[i]]
        0 <= i < chunk.data@.len() && chunk.data@[i] != 0 ==> {
            let p = chunk_tile_position(chunk, params.chunk_size as i32, i);
            &&& chunk_tile_outline(chunk, params, shapes, i).len() > 0
            &&& i32::MIN < p.0 < i32::MAX
            &&& i32::MIN < p.1 < i32::MAX
        }
}

/// A grid whose tiles have outlines can prepare any position.
proof fn lemma_outlines_preparable(tiles: Map<u64, TerrainGridTile>, p: TilePosition)
    requires
        outlines_ok(tiles),
        forall|k: u64| #[trigger] tiles.contains_key(k) ==> k == position_key(tiles[k].position),
    ensures
        preparable(tiles, p),
        positions_fit(tiles),
{
    if tiles.contains_key(position_key(p)) {
        crate::terrain_grid::lemma_position_key_injective(tiles[position_key(p)].position, p);
    }
}

/// Tile `j` of the chunk shares its position with a last tile of the chunk
/// at that position.
proof fn lemma_last_index(chunk: Chunk, size: i32, j: int) -> (i: int)
    requires
        0 <= j < chunk.data@.len(),
    ensures
        j <= i < chunk.data@.len(),
        chunk_tile_position(chunk, size, i) == chunk_tile_position(chunk, size, j),
        last_at_position(chunk, size, i),
    decreases chunk.data@.len() - j,
{
    if last_at_position(chunk, size, j) {
        j
    } else {
        let l = choose|l: int|
            j < l < chunk.data@.len() && chunk_tile_position(chunk, size, l) == chunk_tile_position(chunk, size, j);
        lemma_last_index(chunk, size, l)
    }
}

/// What putting a chunk's tiles into the grid does to the traced edges
/// and to the tiles' outlines: the chunk's positions get fresh tiles, or
/// none, and the rest stays.
proof fn lemma_after_set(
    t1: Map<u64, TerrainGridTile>,
    t2: Map<u64, TerrainGridTile>,
    chunk: Chunk,
    params: TerrainParams,
    shapes: Map<Gid, Vec<Vertex>>,
    open: Map<crate::terrain::Edge, TilePosition>,
)
    requires
        outlines_ok(t1),
        chunk_tiles_ok(chunk, params, shapes),
        forall|i: int|
            #![trigger chunk.data@[i]]
            0 <= i < chunk.data@.len() && last_at_position(chunk, params.chunk_size as i32, i) ==> {
                let key = position_key(chunk_tile_position(chunk, params.chunk_size as i32, i));
                if chunk.data@[i] == 0 {
                    !t2.contains_key(key)
                } else {
                    t2.contains_key(key) && placed_tile(
                        t2[key],
                        chunk.data@[i],
                        chunk_tile_position(chunk, params.chunk_size as i32, i),
                        chunk_tile_outline(chunk, params, shapes, i),
                    )
                }
            },
        forall|k: u64|
            #[trigger] untouched(chunk, params.chunk_size as i32, chunk.data@.len() as int, k) ==> (
            t2.contains_key(k) == t1.contains_key(k) && (t1.contains_key(k) ==> t2[k] == t1[k])),
    ensures
        outlines_ok(t2),
        open_untraced(t1, open) ==> open_untraced(t2, open),
        forall|k: u64, e: crate::terrain::Edge, id: PolyLineId| #[trigger]
            traced_to(t2, k, e, id) <==> traced_to(t1, k, e, id) && untouched(
                chunk,
                params.chunk_size as i32,
                chunk.data@.len() as int,
                k,
            ),
{
    let size = params.chunk_size as i32;
    let n = chunk.data@.len() as int;
    // A touched key holds a fresh tile of the chunk, or nothing.
    assert forall|k: u64| t2.contains_key(k) && !untouched(chunk, size, n, k) implies {
        &&& t2[k].vertices.data@.len() > 0
        &&& i32::MIN < t2[k].position.0 < i32::MAX
        &&& i32::MIN < t2[k].position.1 < i32::MAX
        &&& t2[k].edge_polylines@.len() == 0
    } by {
        let j = choose|j: int| 0 <= j < n && position_key(#[trigger] chunk_tile_position(chunk, size, j)) == k;
        let i = lemma_last_index(chunk, size, j);
        assert(chunk.data@[i] != 0);
    }
    assert forall|k: u64| #[trigger] t2.contains_key(k) implies t2[k].vertices.data@.len() > 0 && i32::MIN < t2[k].position.0
        < i32::MAX && i32::MIN < t2[k].position.1 < i32::MAX by {
        if untouched(chunk, size, n, k) {
            assert(t1.contains_key(k));
        }
    }
    assert forall|k: u64, e: crate::terrain::Edge, id: PolyLineId| #[trigger]
        traced_to(t2, k, e, id) <==> traced_to(t1, k, e, id) && untouched(chunk, size, n, k) by {
        if untouched(chunk, size, n, k) {
            if t1.contains_key(k) {
                assert(t2[k] == t1[k]);
            }
        } else if t2.contains_key(k) {
            assert(t2[k].edge_polylines@.len() == 0);
            assert(!edge_map(t2[k].edge_polylines@).contains_key(e));
        }
    }
    assert forall|e: crate::terrain::Edge| #[trigger]
        open_untraced(t1, open) && open.contains_key(e) && t2.contains_key(position_key(open[e])) implies !traced(t2, position_key(open[e]), e) by {
        let k = position_key(open[e]);
        if untouched(chunk, size, n, k) {
            assert(t1.contains_key(k));
            assert(t2[k] == t1[k]);
        } else {
            assert(t2[k].edge_polylines@.len() == 0);
            assert(!edge_map(t2[k].edge_polylines@).contains_key(e));
        }
    }
}

/// A chunk with no more than `size * size` tiles lies inside the block
/// around it, away from the block's border.
proof fn lemma_chunk_in_region(chunk: Chunk, size: i32, i: int)
    requires
        size > 0,
        chunk.data@.len() <= size * size,
        chunk.data@.len() <= i32::MAX,
        0 <= i < chunk.data@.len(),
        i32::MIN <= chunk.position.0 * size - 1,
        chunk.position.0 * size + size + 1 <= i32::MAX,
        i32::MIN <= chunk.position.1 * size - 1,
        chunk.position.1 * size + size + 1 <= i32::MAX,
    ensures
        in_region(chunk_bounds(chunk, size as int), chunk_tile_position(chunk, size, i)),
        chunk_bounds(chunk, size as int).0 < chunk_tile_position(chunk, size, i).0 < chunk_bounds(chunk, size as int).1,
        chunk_bounds(chunk, size as int).2 < chunk_tile_position(chunk, size, i).1 < chunk_bounds(chunk, size as int).3,
{
    let (cx, cy) = chunk.position;
    if size * size >= 2 {
        let j: int = if i == 0 {
            1
        } else {
            0
        };
        lemma_tile_positions_distinct(cx, cy, size, i as i32, j as i32);
    } else {
        assert(size == 1) by (nonlinear_arith)
            requires
                size > 0,
                size * size < 2,
        ;
        assert(i == 0);
        assert(tile_position(cx, cy, size, 0) == (cx * 1 + 0, cy * 1 + 0));
    }
}

/// Each edge that preparing opened lies at one of the prepared positions;
/// the others keep their place.
proof fn lemma_prepared_values(
    m: Map<crate::terrain::Edge, TilePosition>,
    tiles: Map<u64, TerrainGridTile>,
    ps: Seq<TilePosition>,
)
    ensures
        forall|e: crate::terrain::Edge| #[trigger]
            prepared_open_edges(m, tiles, ps).contains_key(e) ==> (m.contains_key(e) && prepared_open_edges(
                m,
                tiles,
                ps,
            )[e] == m[e]) || ps.contains(prepared_open_edges(m, tiles, ps)[e]),
    decreases ps.len(),
{
    if ps.len() > 0 {
        let d = ps.drop_last();
        lemma_prepared_values(m, tiles, d);
        let before = prepared_open_edges(m, tiles, d);
        let p = ps.last();
        assert forall|q: TilePosition| d.contains(q) implies ps.contains(q) by {
            let w = choose|w: int| 0 <= w < d.len() && d[w] == q;
            assert(ps[w] == q);
        }
        assert(ps.contains(p)) by {
            assert(ps[ps.len() - 1] == p);
        }
        match vertices_at(tiles, p) {
            Some(vs) => {
                lemma_opened(before, surface_edges_of(tiles, p, vs), p);
            },
            None => {},
        }
    }
}

/// After releasing polylines, no open edge is traced where it lies.
proof fn lemma_open_after_removal(
    t0: Map<u64, TerrainGridTile>,
    t1: Map<u64, TerrainGridTile>,
    open0: Map<crate::terrain::Edge, TilePosition>,
    open1: Map<crate::terrain::Edge, TilePosition>,
    removed: Seq<TerrainPolyLineBuilder>,
    b: Bounds,
)
    requires
        open_untraced(t0, open0),
        t0.dom() == t1.dom(),
        forall|k: u64, e: crate::terrain::Edge, id: PolyLineId| #[trigger]
            traced_to(t1, k, e, id) <==> traced_to(t0, k, e, id) && !released_at(removed, k, id),
        forall|e: crate::terrain::Edge| #[trigger]
            open1.contains_key(e) <==> open0.contains_key(e) || exists|pos: TilePosition|
                #[trigger] reopened_by(t0, removed, b, e, pos),
        forall|e: crate::terrain::Edge| #[trigger]
            open1.contains_key(e) ==> if exists|pos: TilePosition| #[trigger] reopened_by(t0, removed, b, e, pos) {
                reopened_by(t0, removed, b, e, open1[e])
            } else {
                open1[e] == open0[e]
            },
    ensures
        open_untraced(t1, open1),
{
    assert forall|e: crate::terrain::Edge| #[trigger]
        open1.contains_key(e) && t1.contains_key(position_key(open1[e])) implies !traced(t1, position_key(open1[e]), e) by {
        let p = open1[e];
        let k = position_key(p);
        if traced(t1, k, e) {
            let id = edge_map(t1[k].edge_polylines@)[e];
            assert(traced_to(t1, k, e, id));
            assert(traced_to(t0, k, e, id));
            if exists|pos: TilePosition| #[trigger] reopened_by(t0, removed, b, e, pos) {
                assert(reopened_by(t0, removed, b, e, p));
                let x = choose|x: int| 0 <= x < removed.len() && #[trigger] reopened(t0, removed[x], removed[x].tiles@.len() as int, b, e, p);
                let l = removed[x];
                assert(traced_to(t0, k, e, l.id));
                let w = choose|w: int| 0 <= w < l.tiles@.len() as int && l.tiles@[w] == p;
                assert(processed(l.tiles@, l.tiles@.len() as int, k));
                assert(released_at(removed, k, id));
            } else {
                assert(open0.contains_key(e));
                assert(!traced(t0, k, e));
            }
        }
    }
}

/// The pairs of a gid and the chunk id that the chunk stored under `k`, if
/// any, makes.
pub open spec fn stored_gid_chunk_pairs(m: Map<CantorPair, Chunk>, k: CantorPair) -> Set<(u32, u32)> {
    if m.contains_key(k) {
        gid_chunk_pairs(k, Some(&m[k]))
    } else {
        gid_chunk_pairs(k, None)
    }
}

/// The pairs of the chunk id and a gid that the chunk stored under `k`, if
/// any, makes.
pub open spec fn stored_chunk_gid_pairs(m: Map<CantorPair, Chunk>, k: CantorPair) -> Set<(u32, u32)> {
    if m.contains_key(k) {
        chunk_gid_pairs(k, Some(&m[k]))
    } else {
        chunk_gid_pairs(k, None)
    }
}

/// The pairs of a gid and the id of a stored chunk that uses it.
pub open spec fn stored_pairs(m: Map<CantorPair, Chunk>) -> Set<(u32, u32)> {
    Set::new(|p: (u32, u32)| m.contains_key(p.1) && m[p.1].data@.contains(p.0))
}

/// The gid/chunk relations recorded both ways are exactly those of the
/// stored chunks.
pub open spec fn relations_match(bookkeeping: PolylineBookkeeping, m: Map<CantorPair, Chunk>) -> bool {
    &&& relation_pairs(bookkeeping.gid_to_cantor_pair_map@) == stored_pairs(m)
    &&& relation_pairs(bookkeeping.chunk_to_cantor_pair_map@) == stored_pairs(m).map(|p: (u32, u32)| (p.1, p.0))
}

/// Replacing the chunk stored under `k` swaps its pairs for those of the
/// new chunk.
proof fn lemma_stored_pairs_insert(m: Map<CantorPair, Chunk>, k: CantorPair, c: Chunk, d: Chunk)
    requires
        d.data@ == c.data@,
    ensures
        stored_pairs(m.insert(k, d)) == stored_pairs(m).difference(stored_gid_chunk_pairs(m, k)).union(
            gid_chunk_pairs(k, Some(&c)),
        ),
        stored_pairs(m.insert(k, d)).map(|p: (u32, u32)| (p.1, p.0)) == stored_pairs(m).map(
            |p: (u32, u32)| (p.1, p.0),
        ).difference(stored_chunk_gid_pairs(m, k)).union(chunk_gid_pairs(k, Some(&c))),
{
    let after = stored_pairs(m.insert(k, d));
    assert(after =~= stored_pairs(m).difference(stored_gid_chunk_pairs(m, k)).union(gid_chunk_pairs(k, Some(&c))));
    let flip = |p: (u32, u32)| (p.1, p.0);
    let rhs = stored_pairs(m).map(flip).difference(stored_chunk_gid_pairs(m, k)).union(chunk_gid_pairs(k, Some(&c)));
    assert forall|q: (u32, u32)| after.map(flip).contains(q) <==> rhs.contains(q) by {
        if after.map(flip).contains(q) {
            let p = choose|p: (u32, u32)| after.contains(p) && flip(p) == q;
            if p.1 != k {
                assert(stored_pairs(m).contains(p));
                assert(stored_pairs(m).map(flip).contains(q));
            }
        }
        if rhs.contains(q) {
            let p = (q.1, q.0);
            assert(flip(p) == q);
            if stored_pairs(m).map(flip).contains(q) && !stored_chunk_gid_pairs(m, k).contains(q) {
                let p2 = choose|p2: (u32, u32)| stored_pairs(m).contains(p2) && flip(p2) == q;
                assert(after.contains(p2));
            } else {
                assert(after.contains(p));
            }
        }
    }
    assert(after.map(flip) =~= rhs);
}

/// The parts of [`terrain_ready`] other than the live polylines.
pub open spec fn grid_ready(grid: TerrainGrid, gen: PolyLineId) -> bool {
    &&& grid.wf()
    &&& outlines_ok(grid.tiles@)
    &&& unique_edges(grid.open_edges@)
    &&& open_untraced(grid.tiles@, edge_map(grid.open_edges@))
    &&& ids_at_most(grid.tiles@, gen)
}

/// Through releasing the polylines around a chunk no bigger than its
/// square, putting its tiles in and preparing the block, the polylines
/// left stay consistent with the traced edges.
proof fn lemma_consistent_through_set(
    t0: Map<u64, TerrainGridTile>,
    t1: Map<u64, TerrainGridTile>,
    t2: Map<u64, TerrainGridTile>,
    t3: Map<u64, TerrainGridTile>,
    lines0: Seq<TerrainPolyLineBuilder>,
    lines1: Seq<TerrainPolyLineBuilder>,
    removed: Seq<TerrainPolyLineBuilder>,
    chunk: Chunk,
    size: i32,
    b: Bounds,
)
    requires
        size > 0,
        chunk.data@.len() <= size * size,
        chunk.data@.len() <= i32::MAX,
        i32::MIN <= chunk.position.0 * size - 1,
        chunk.position.0 * size + size + 1 <= i32::MAX,
        i32::MIN <= chunk.position.1 * size - 1,
        chunk.position.1 * size + size + 1 <= i32::MAX,
        b == chunk_bounds(chunk, size as int),
        lines_consistent(t0, lines0) ==> lines_consistent(t1, lines1) && forall|p: TilePosition, e: crate::terrain::Edge|
            in_region(b, p) ==> !#[trigger] traced(t1, position_key(p), e),
        lines_consistent(t0, lines0),
        forall|k: u64| #[trigger] t1.contains_key(k) ==> k == position_key(t1[k].position),
        forall|k: u64| #[trigger] t2.contains_key(k) ==> k == position_key(t2[k].position),
        forall|k: u64| #[trigger] t3.contains_key(k) ==> k == position_key(t3[k].position),
        forall|k: u64, e: crate::terrain::Edge, id: PolyLineId| #[trigger]
            traced_to(t2, k, e, id) <==> traced_to(t1, k, e, id) && untouched(chunk, size, chunk.data@.len() as int, k),
        forall|k: u64, e: crate::terrain::Edge, id: PolyLineId| #[trigger] traced_to(t3, k, e, id) <==> traced_to(t2, k, e, id),
    ensures
        lines_consistent(t3, lines1),
{
    let n = chunk.data@.len() as int;
    assert forall|k: u64, e: crate::terrain::Edge, id: PolyLineId| #[trigger] traced_to(t3, k, e, id) <==> traced_to(t1, k, e, id) by {
        if traced_to(t1, k, e, id) && !untouched(chunk, size, n, k) {
            let j = choose|j: int| 0 <= j < n && position_key(#[trigger] chunk_tile_position(chunk, size, j)) == k;
            lemma_chunk_in_region(chunk, size, j);
            let p = chunk_tile_position(chunk, size, j);
            assert(!traced(t1, position_key(p), e));
        }
    }
    assert forall|k: u64| #[trigger] t1.contains_key(k) && t3.contains_key(k) implies t3[k].position == t1[k].position by {
        crate::terrain_grid::lemma_position_key_injective(t3[k].position, t1[k].position);
    }
    assert forall|i: int| 0 <= i < lines1.len() implies traces_polyline(t3, #[trigger] lines1[i]) by {
        assert(traces_polyline(t1, lines1[i]));
        lemma_same_traces_polyline(t1, t3, lines1[i]);
    }
    assert forall|k: u64, e: crate::terrain::Edge| #[trigger] traced(t3, k, e) implies exists|i: int|
        0 <= i < lines1.len() && #[trigger] lines1[i].id == edge_map(t3[k].edge_polylines@)[e] by {
        let id = edge_map(t3[k].edge_polylines@)[e];
        assert(traced_to(t3, k, e, id));
        assert(traced_to(t1, k, e, id));
        assert(traced(t1, k, e));
    }
}

impl TerrainGrid {
    /// Writes a chunk into the terrain layer: releases the polylines that
    /// run through the block around the chunk, moves the chunk's gid
    /// relations from the chunk stored under `chunk_id` to the new one and
    /// stores it, puts its tiles into the grid, works out the surface of
    /// the block's tiles, and traces the open edges into new polylines,
    /// which are added at the end of `lines`. Gives back the released
    /// polylines and the number of new ones; `None` when numbering them
    /// could run past the largest id, the edges then being left open.
    #[verifier::spinoff_prover]
    #[verifier::rlimit(60)]
    pub fn write_chunk(
        &mut self,
        bookkeeping: &mut PolylineBookkeeping,
        lines: &mut Vec<TerrainPolyLineBuilder>,
        chunk_map: &mut HashMap<CantorPair, Chunk>,
        chunk_id: CantorPair,
        chunk: &Chunk,
        params: &TerrainParams,
        shapes: &HashMap<Gid, Vec<Vertex>>,
    ) -> (result: (Vec<TerrainPolyLineBuilder>, Option<usize>))
        requires
            terrain_ready(*old(self), old(lines)@, old(bookkeeping).id_gen),
            chunk_fits(*chunk, *params, shapes@),
            chunk_tiles_ok(*chunk, *params, shapes@),
            i32::MIN <= chunk.position.0 * (params.chunk_size as int) - 1,
            chunk.position.0 * (params.chunk_size as int) + params.chunk_size + 1 < i32::MAX,
            i32::MIN <= chunk.position.1 * (params.chunk_size as int) - 1,
            chunk.position.1 * (params.chunk_size as int) + params.chunk_size + 1 < i32::MAX,
        ensures
            ({
                let b = chunk_bounds(*chunk, params.chunk_size as int);
                let t0 = old(self).tiles@;
                &&& forall|l: TerrainPolyLineBuilder| #[trigger]
                    result.0@.contains(l) <==> old(lines)@.contains(l) && traced_in_region(t0, b, l.id)
                &&& match result.1 {
                    Some(n) => {
                        &&& n <= final(lines)@.len()
                        &&& forall|l: TerrainPolyLineBuilder| #[trigger]
                            final(lines)@.subrange(0, final(lines)@.len() - n).contains(l) <==> old(lines)@.contains(l)
                                && !traced_in_region(t0, b, l.id)
                        &&& final(self).open_edges@.len() == 0
                        &&& n == final(bookkeeping).id_gen - old(bookkeeping).id_gen
                        &&& forall|i: int|
                            final(lines)@.len() - n <= i < final(lines)@.len() ==> (#[trigger] final(lines)@[i]).id
                                == old(bookkeeping).id_gen + 1 + i - (final(lines)@.len() - n)
                        &&& forall|i: int|
                            final(lines)@.len() - n <= i < final(lines)@.len() ==> crate::polyline_tracing::end_settled(
                                final(self).tiles@,
                                (#[trigger] final(lines)@[i]).vertices@,
                                final(lines)@[i].id,
                                true,
                            ) && crate::polyline_tracing::end_settled(
                                final(self).tiles@,
                                final(lines)@[i].vertices@,
                                final(lines)@[i].id,
                                false,
                            )
                        &&& forall|p: TilePosition, e: crate::terrain::Edge|
                            in_region(b, p) && final(self).tiles@.contains_key(position_key(p))
                                && #[trigger] final(self).tiles@[position_key(p)].surface_edges.data@.contains(e)
                                ==> crate::polyline_tracing::traced_somewhere(final(self).tiles@, e)
                    },
                    None => {
                        &&& forall|l: TerrainPolyLineBuilder| #[trigger]
                            final(lines)@.contains(l) <==> old(lines)@.contains(l) && !traced_in_region(t0, b, l.id)
                        &&& final(bookkeeping).id_gen == old(bookkeeping).id_gen
                        &&& final(bookkeeping).id_gen + final(self).open_edges@.len() > u32::MAX
                    },
                }
            }),
            relation_pairs(final(bookkeeping).gid_to_cantor_pair_map@) == relation_pairs(
                old(bookkeeping).gid_to_cantor_pair_map@,
            ).difference(stored_gid_chunk_pairs(old(chunk_map)@, chunk_id)).union(
                gid_chunk_pairs(chunk_id, Some(chunk)),
            ),
            relation_pairs(final(bookkeeping).chunk_to_cantor_pair_map@) == relation_pairs(
                old(bookkeeping).chunk_to_cantor_pair_map@,
            ).difference(stored_chunk_gid_pairs(old(chunk_map)@, chunk_id)).union(
                chunk_gid_pairs(chunk_id, Some(chunk)),
            ),
            final(chunk_map)@.dom() == old(chunk_map)@.dom().insert(chunk_id),
            final(chunk_map)@[chunk_id].position == chunk.position,
            final(chunk_map)@[chunk_id].data@ == chunk.data@,
            forall|k: CantorPair| k != chunk_id && #[trigger] old(chunk_map)@.contains_key(k) ==> final(chunk_map)@[k]
                == old(chunk_map)@[k],
            grid_ready(*final(self), final(bookkeeping).id_gen),
            forall|i: int| 0 <= i < final(lines)@.len() ==> (#[trigger] final(lines)@[i]).id <= final(bookkeeping).id_gen,
            chunk.data@.len() <= params.chunk_size * params.chunk_size ==> lines_consistent(final(self).tiles@, final(lines)@),
            relations_match(*old(bookkeeping), old(chunk_map)@) ==> relations_match(*final(bookkeeping), final(chunk_map)@),
            chunk_placed(final(self).tiles@, *chunk, *params, shapes@),
            keeps_outside(old(self).tiles@, final(self).tiles@, *chunk, params.chunk_size as i32),
    {
        let ghost t0 = self.tiles@;
        let ghost m0 = chunk_map@;
        let ghost bk0 = *bookkeeping;
        let ghost open0 = edge_map(self.open_edges@);
        let ghost lines0 = lines@;
        let ghost gen = bookkeeping.id_gen;
        let ghost size = params.chunk_size as i32;
        let ghost b = chunk_bounds(*chunk, params.chunk_size as int);
        let (removed, affected) = self.remove_polylines_of_chunk_and_its_edges(chunk, params, lines);
        let ghost t1 = self.tiles@;
        let ghost open1 = edge_map(self.open_edges@);
        let ghost lines1 = lines@;
        proof {
            lemma_open_after_removal(t0, t1, open0, open1, removed@, b);
            assert(outlines_ok(t1)) by {
                assert forall|k: u64| #[trigger] t1.contains_key(k) implies t1[k].vertices.data@.len() > 0 && i32::MIN
                    < t1[k].position.0 < i32::MAX && i32::MIN < t1[k].position.1 < i32::MAX by {
                    assert(t0.contains_key(k));
                }
            }
            assert(ids_at_most(t1, gen)) by {
                assert forall|k: u64, e: crate::terrain::Edge| #[trigger] traced(t1, k, e) implies edge_map(
                    t1[k].edge_polylines@,
                )[e] <= gen by {
                    let id = edge_map(t1[k].edge_polylines@)[e];
                    assert(traced_to(t1, k, e, id));
                    assert(traced(t0, k, e));
                }
            }
            assert forall|i: int| 0 <= i < lines1.len() implies (#[trigger] lines1[i]).id <= gen by {
                assert(lines1.contains(lines1[i]));
                let j = choose|j: int| 0 <= j < lines0.len() && lines0[j] == lines1[i];
                assert(lines0[j].id <= gen);
            }
        }
        bookkeeping.clear_gid_cantor_pair_relations(&chunk_id, chunk_map.get(&chunk_id));
        let copy = chunk.duplicate();
        let ghost copy_v = copy;
        chunk_map.insert(chunk_id, copy);
        bookkeeping.add_gid_cantor_pair_relations(&chunk_id, Some(chunk));
        self.set_chunk_in_bookkeeping(params, shapes, chunk);
        let ghost t2 = self.tiles@;
        proof {
            lemma_stored_pairs_insert(m0, chunk_id, *chunk, copy_v);
            if m0.contains_key(chunk_id) {
                assert(stored_gid_chunk_pairs(m0, chunk_id) == gid_chunk_pairs(chunk_id, Some(&m0[chunk_id])));
            }
            lemma_after_set(t1, t2, *chunk, *params, shapes@, open1);
            assert(chunk_placed(t2, *chunk, *params, shapes@)) by {
                assert forall|i: int|
                    0 <= i < chunk.data@.len() && last_at_position(*chunk, params.chunk_size as i32, i) implies #[trigger] tile_placed(
                    t2,
                    *chunk,
                    *params,
                    shapes@,
                    i,
                ) by {
                    assert(chunk.data@[i] == chunk.data@[i]);
                }
            }
            assert(keeps_outside(t0, t2, *chunk, params.chunk_size as i32)) by {
                assert forall|k: u64| #[trigger] untouched(*chunk, params.chunk_size as i32, chunk.data@.len() as int, k) implies (
                    t2.contains_key(k) == t0.contains_key(k) && (t0.contains_key(k) ==> t2[k].gid == t0[k].gid
                    && t2[k].position == t0[k].position && t2[k].vertices == t0[k].vertices)) by {
                    if t0.contains_key(k) {
                        assert(t1.contains_key(k));
                    }
                }
            }
            assert(ids_at_most(t2, gen)) by {
                assert forall|k: u64, e: crate::terrain::Edge| #[trigger] traced(t2, k, e) implies edge_map(
                    t2[k].edge_polylines@,
                )[e] <= gen by {
                    let id = edge_map(t2[k].edge_polylines@)[e];
                    assert(traced_to(t2, k, e, id));
                    assert(traced(t1, k, e));
                }
            }
            assert forall|i: int| 0 <= i < affected@.len() implies preparable(t2, #[trigger] affected@[i]) by {
                lemma_outlines_preparable(t2, affected@[i]);
            }
        }
        self.prepare_polyline_calculation_for_tiles(&affected);
        let ghost t3 = self.tiles@;
        let ghost open3 = edge_map(self.open_edges@);
        proof {
            lemma_prepared_values(open1, t2, affected@);
            assert(same_shapes(t2, t3)) by {
                assert forall|k: u64| #[trigger] t2.contains_key(k) implies t2[k].gid == t3[k].gid && t2[k].position
                    == t3[k].position && t2[k].vertices == t3[k].vertices by {
                    assert(t3.contains_key(k));
                }
            }
            lemma_placed_same_shapes(t2, t3, *chunk, *params, shapes@);
            lemma_keeps_outside_same_shapes(t0, t2, t3, *chunk, params.chunk_size as i32);
            lemma_outlines_preparable(t2, (0i32, 0i32));
            assert forall|k: u64, e: crate::terrain::Edge, id: PolyLineId| #[trigger] traced_to(t3, k, e, id) <==> traced_to(t2, k, e, id) by {
                if t3.contains_key(k) {
                    assert(t2.contains_key(k));
                }
            }
            assert(outlines_ok(t3)) by {
                assert forall|k: u64| #[trigger] t3.contains_key(k) implies t3[k].vertices.data@.len() > 0 && i32::MIN
                    < t3[k].position.0 < i32::MAX && i32::MIN < t3[k].position.1 < i32::MAX by {
                    assert(t2.contains_key(k));
                }
            }
            assert(ids_at_most(t3, gen)) by {
                assert forall|k: u64, e: crate::terrain::Edge| #[trigger] traced(t3, k, e) implies edge_map(
                    t3[k].edge_polylines@,
                )[e] <= gen by {
                    let id = edge_map(t3[k].edge_polylines@)[e];
                    assert(traced_to(t3, k, e, id));
                    assert(traced(t2, k, e));
                }
            }
            assert(open_untraced(t3, open3)) by {
                assert forall|e: crate::terrain::Edge| #[trigger]
                    open3.contains_key(e) && t3.contains_key(position_key(open3[e])) implies !traced(t3, position_key(open3[e]), e) by {
                    let p = open3[e];
                    let k = position_key(p);
                    if traced(t3, k, e) {
                        let id = edge_map(t3[k].edge_polylines@)[e];
                        assert(traced_to(t3, k, e, id));
                        assert(traced_to(t2, k, e, id));
                        assert(traced_to(t1, k, e, id));
                        if open1.contains_key(e) && open3[e] == open1[e] {
                            assert(!traced(t2, k, e));
                        } else {
                            assert(affected@.contains(p));
                            assert(in_region(b, p));
                            assert(!traced(t1, position_key(p), e));
                        }
                    }
                }
            }
        }
        if self.open_edges.len() <= (u32::MAX - bookkeeping.id_gen) as usize {
            proof {
                lemma_outlines_preparable(t3, (0i32, 0i32));
            }
            let mut made = self.calc_polylines(bookkeeping);
            let ghost made_v = made@;
            let n = made.len();
            lines.append(&mut made);
            proof {
                let t4 = self.tiles@;
                lemma_prepared_covers(open1, t2, affected@);
                assert forall|p: TilePosition, e: crate::terrain::Edge|
                    in_region(b, p) && t4.contains_key(position_key(p))
                        && #[trigger] t4[position_key(p)].surface_edges.data@.contains(e) implies crate::polyline_tracing::traced_somewhere(
                    t4,
                    e,
                ) by {
                    let k = position_key(p);
                    assert(t3.contains_key(k));
                    assert(t2.contains_key(k));
                    crate::terrain_grid::lemma_position_key_injective(t3[k].position, p);
                    assert(affected@.contains(p));
                    let j = choose|j: int| 0 <= j < affected@.len() && affected@[j] == p;
                    assert(position_key(affected@[j]) == k);
                    assert(processed(affected@, affected@.len() as int, k));
                    assert(t3[k].surface_edges.data@ == surface_edges_of(t2, p, t2[k].vertices.data@));
                    assert(open3.contains_key(e));
                }
                assert(same_shapes(t3, t4)) by {
                    assert forall|k: u64| #[trigger] t3.contains_key(k) implies t3[k].gid == t4[k].gid && t3[k].position
                        == t4[k].position && t3[k].vertices == t4[k].vertices by {
                        assert(t4.contains_key(k));
                    }
                }
                lemma_placed_same_shapes(t3, t4, *chunk, *params, shapes@);
                lemma_keeps_outside_same_shapes(t0, t3, t4, *chunk, params.chunk_size as i32);
                assert(lines@.subrange(0, lines@.len() - n) =~= lines1);
                assert forall|i: int| lines@.len() - n <= i < lines@.len() implies (#[trigger] lines@[i]).id == gen + 1 + i
                    - (lines@.len() - n) by {
                    assert(lines@[i] == made_v[i - lines1.len()]);
                }
                assert forall|i: int| lines@.len() - n <= i < lines@.len() implies crate::polyline_tracing::end_settled(
                    t4,
                    (#[trigger] lines@[i]).vertices@,
                    lines@[i].id,
                    true,
                ) && crate::polyline_tracing::end_settled(t4, lines@[i].vertices@, lines@[i].id, false) by {
                    assert(lines@[i] == made_v[i - lines1.len()]);
                }
                assert(outlines_ok(t4)) by {
                    assert forall|k: u64| #[trigger] t4.contains_key(k) implies t4[k].vertices.data@.len() > 0 && i32::MIN
                        < t4[k].position.0 < i32::MAX && i32::MIN < t4[k].position.1 < i32::MAX by {
                        assert(t3.contains_key(k));
                    }
                }
                assert forall|i: int| 0 <= i < lines@.len() implies (#[trigger] lines@[i]).id <= bookkeeping.id_gen by {
                    if i < lines1.len() {
                        assert(lines@[i] == lines1[i]);
                    } else {
                        assert(lines@[i] == made_v[i - lines1.len()]);
                    }
                }
                if chunk.data@.len() <= params.chunk_size * params.chunk_size {
                    lemma_consistent_through_set(t0, t1, t2, t3, lines0, lines1, removed@, *chunk, size, b);
                    assert(lines_consistent(t3, lines1));
                    assert(lines1 + made_v == lines@);
                }
            }
            (removed, Some(n))
        } else {
            proof {
                if chunk.data@.len() <= params.chunk_size * params.chunk_size {
                    lemma_consistent_through_set(t0, t1, t2, t3, lines0, lines1, removed@, *chunk, size, b);
                }
            }
            (removed, None)
        }
    }
}

impl TerrainGrid {
    /// The positions of the tiles of the grid, each once, in the order the
    /// map hands out its keys.
    fn tile_positions(&self) -> (positions: Vec<TilePosition>)
        requires
            self.wf(),
        ensures
            forall|p: TilePosition| #[trigger] positions@.contains(p) <==> self.tiles@.contains_key(position_key(p)),
    {
        let mut positions: Vec<TilePosition> = Vec::new();
        let ghost mut seen: Seq<u64> = Seq::empty();
        proof {
            vstd::std_specs::hash::axiom_spec_keys_iter(&self.tiles);
        }
        for k in it: self.tiles.keys()
            invariant
                self.wf(),
                positions@.len() == it.index(),
                seen.len() == it.index(),
                it.seq().unref().to_set() == self.tiles@.dom(),
                forall|j: int| 0 <= j < seen.len() ==> #[trigger] seen[j] == *it.seq()[j],
                forall|j: int| 0 <= j < seen.len() ==> self.tiles@.contains_key(#[trigger] seen[j]),
                forall|j: int| 0 <= j < seen.len() ==> #[trigger] positions@[j] == self.tiles@[seen[j]].position,
                forall|x: u64|
                    #[trigger] self.tiles@.dom().contains(x) ==> seen.contains(x) || exists|j: int|
                        it.index() <= j < it.seq().len() && *it.seq()[j] == x,
        {
            proof {
                assert(it.seq().unref()[it.index()] == *k);
                assert(it.seq().unref().to_set().contains(*k));
                let old_seen = seen;
                seen = seen.push(*k);
                assert forall|x: u64| #[trigger] self.tiles@.dom().contains(x) implies seen.contains(x) || exists|j: int|
                    it.index() + 1 <= j < it.seq().len() && *it.seq()[j] == x by {
                    if old_seen.contains(x) {
                        let w = choose|w: int| 0 <= w < old_seen.len() && old_seen[w] == x;
                        assert(seen[w] == x);
                    } else {
                        let j = choose|j: int| it.index() <= j < it.seq().len() && *it.seq()[j] == x;
                        if j == it.index() {
                            assert(seen[seen.len() - 1] == x);
                        }
                    }
                }
            }
            positions.push(self.tiles.get(k).unwrap().position);
        }
        proof {
            assert forall|p: TilePosition| #[trigger] positions@.contains(p) <==> self.tiles@.contains_key(position_key(p)) by {
                if positions@.contains(p) {
                    let j = choose|j: int| 0 <= j < positions@.len() && positions@[j] == p;
                    assert(self.tiles@.contains_key(seen[j]));
                    assert(position_key(p) == seen[j]);
                }
                if self.tiles@.contains_key(position_key(p)) {
                    assert(self.tiles@.dom().contains(position_key(p)));
                    assert(seen.contains(position_key(p)));
                    let j = choose|j: int| 0 <= j < seen.len() && seen[j] == position_key(p);
                    crate::terrain_grid::lemma_position_key_injective(self.tiles@[position_key(p)].position, p);
                    assert(positions@[j] == p);
                }
            }
        }
        positions
    }
}

/// No chunk from `from` up to `to` has a tile at the position of key `k`.
pub open spec fn untouched_by(chunks: Seq<(CantorPair, Chunk)>, from: int, to: int, size: i32, k: u64) -> bool {
    forall|m: int| from <= m < to ==> #[trigger] untouched(chunks[m].1, size, chunks[m].1.data@.len() as int, k)
}

/// The grid holds each tile of the first `n` chunks that is the last of its
/// chunk at its position and that no later chunk among them covers.
pub open spec fn chunks_placed(
    tiles: Map<u64, TerrainGridTile>,
    chunks: Seq<(CantorPair, Chunk)>,
    n: int,
    params: TerrainParams,
    shapes: Map<Gid, Vec<Vertex>>,
) -> bool {
    forall|j: int, i: int|
        0 <= j < n && 0 <= i < chunks[j].1.data@.len() && last_at_position(chunks[j].1, params.chunk_size as i32, i)
            && untouched_by(
            chunks,
            j + 1,
            n,
            params.chunk_size as i32,
            position_key(chunk_tile_position(chunks[j].1, params.chunk_size as i32, i)),
        ) ==> #[trigger] tile_placed(tiles, chunks[j].1, params, shapes, i)
}

/// Away from the tiles of the first `n` chunks, the grid has the same tiles,
/// with the same gids, positions and outlines.
pub open spec fn outside_chunks(
    before: Map<u64, TerrainGridTile>,
    after: Map<u64, TerrainGridTile>,
    chunks: Seq<(CantorPair, Chunk)>,
    n: int,
    size: i32,
) -> bool {
    forall|k: u64| #[trigger]
        untouched_by(chunks, 0, n, size, k) ==> (after.contains_key(k) == before.contains_key(k) && (
        before.contains_key(k) ==> after[k].gid == before[k].gid && after[k].position == before[k].position
            && after[k].vertices == before[k].vertices))
}

/// The pairs of a gid and a chunk id that the chunks make, all together.
pub open spec fn all_gid_chunk_pairs(chunks: Seq<(CantorPair, Chunk)>) -> Set<(u32, u32)>
    decreases chunks.len(),
{
    if chunks.len() == 0 {
        Set::empty()
    } else {
        all_gid_chunk_pairs(chunks.drop_last()).union(gid_chunk_pairs(chunks.last().0, Some(&chunks.last().1)))
    }
}

/// The pairs of a chunk id and a gid that the chunks make, all together.
pub open spec fn all_chunk_gid_pairs(chunks: Seq<(CantorPair, Chunk)>) -> Set<(u32, u32)>
    decreases chunks.len(),
{
    if chunks.len() == 0 {
        Set::empty()
    } else {
        all_chunk_gid_pairs(chunks.drop_last()).union(chunk_gid_pairs(chunks.last().0, Some(&chunks.last().1)))
    }
}

impl TerrainGrid {
    /// Sets up the grid from the chunks of the terrain layer: records, for
    /// each chunk in turn, which gids it uses both ways and puts its tiles
    /// into the grid, then works out the surface edges of every tile of the
    /// grid and opens them.
    pub fn initialize_terrain_grid(
        &mut self,
        bookkeeping: &mut PolylineBookkeeping,
        chunks: &Vec<(CantorPair, Chunk)>,
        params: &TerrainParams,
        shapes: &HashMap<Gid, Vec<Vertex>>,
    )
        requires
            old(self).wf(),
            outlines_ok(old(self).tiles@),
            unique_edges(old(self).open_edges@),
            forall|i: int|
                0 <= i < chunks@.len() ==> chunk_fits(#[trigger] chunks@[i].1, *params, shapes@) && chunk_tiles_ok(
                    chunks@[i].1,
                    *params,
                    shapes@,
                ),
        ensures
            final(self).wf(),
            outlines_ok(final(self).tiles@),
            unique_edges(final(self).open_edges@),
            final(bookkeeping).id_gen == old(bookkeeping).id_gen,
            relation_pairs(final(bookkeeping).gid_to_cantor_pair_map@) == relation_pairs(
                old(bookkeeping).gid_to_cantor_pair_map@,
            ).union(all_gid_chunk_pairs(chunks@)),
            relation_pairs(final(bookkeeping).chunk_to_cantor_pair_map@) == relation_pairs(
                old(bookkeeping).chunk_to_cantor_pair_map@,
            ).union(all_chunk_gid_pairs(chunks@)),
            forall|k: u64| #[trigger]
                final(self).tiles@.contains_key(k) ==> final(self).tiles@[k].surface_edges.data@ == surface_edges_of(
                    final(self).tiles@,
                    final(self).tiles@[k].position,
                    final(self).tiles@[k].vertices.data@,
                ),
            (forall|k: u64, e: crate::terrain::Edge| !#[trigger] traced(old(self).tiles@, k, e)) ==> terrain_ready(
                *final(self),
                Seq::empty(),
                final(bookkeeping).id_gen,
            ),
            chunks_placed(final(self).tiles@, chunks@, chunks@.len() as int, *params, shapes@),
            outside_chunks(old(self).tiles@, final(self).tiles@, chunks@, chunks@.len() as int, params.chunk_size as i32),
    {
        let ghost t0 = self.tiles@;
        let ghost size = params.chunk_size as i32;
        let mut i: usize = 0;
        proof {
            assert(chunks@.take(0) =~= Seq::<(CantorPair, Chunk)>::empty());
        }
        while i < chunks.len()
            invariant
                i <= chunks@.len(),
                self.wf(),
                outlines_ok(self.tiles@),
                unique_edges(self.open_edges@),
                self.open_edges == old(self).open_edges,
                bookkeeping.id_gen == old(bookkeeping).id_gen,
                forall|j: int|
                    0 <= j < chunks@.len() ==> chunk_fits(#[trigger] chunks@[j].1, *params, shapes@) && chunk_tiles_ok(
                        chunks@[j].1,
                        *params,
                        shapes@,
                    ),
                relation_pairs(bookkeeping.gid_to_cantor_pair_map@) == relation_pairs(
                    old(bookkeeping).gid_to_cantor_pair_map@,
                ).union(all_gid_chunk_pairs(chunks@.take(i as int))),
                relation_pairs(bookkeeping.chunk_to_cantor_pair_map@) == relation_pairs(
                    old(bookkeeping).chunk_to_cantor_pair_map@,
                ).union(all_chunk_gid_pairs(chunks@.take(i as int))),
                forall|k: u64, e: crate::terrain::Edge| #[trigger] traced(self.tiles@, k, e) ==> traced(t0, k, e),
                size == params.chunk_size as i32,
                chunks_placed(self.tiles@, chunks@, i as int, *params, shapes@),
                outside_chunks(t0, self.tiles@, chunks@, i as int, size),
            decreases chunks@.len() - i,
        {
            let ghost t1 = self.tiles@;
            let chunk_id = chunks[i].0;
            let chunk = &chunks[i].1;
            proof {
                assert(chunks@.take(i + 1).drop_last() =~= chunks@.take(i as int));
                assert(chunks@.take(i + 1).last() == chunks@[i as int]);
                assert(chunk_fits(chunks@[i as int].1, *params, shapes@));
            }
            bookkeeping.add_gid_cantor_pair_relations(&chunk_id, Some(chunk));
            self.set_chunk_in_bookkeeping(params, shapes, chunk);
            proof {
                lemma_after_set(t1, self.tiles@, *chunk, *params, shapes@, edge_map(self.open_edges@));
                let t_new = self.tiles@;
                assert forall|j: int, x: int|
                    0 <= j < i + 1 && 0 <= x < chunks@[j].1.data@.len() && last_at_position(chunks@[j].1, size, x)
                        && untouched_by(
                        chunks@,
                        j + 1,
                        i + 1,
                        size,
                        position_key(chunk_tile_position(chunks@[j].1, size, x)),
                    ) implies #[trigger] tile_placed(t_new, chunks@[j].1, *params, shapes@, x) by {
                    let key = position_key(chunk_tile_position(chunks@[j].1, size, x));
                    if j == i {
                        assert(chunk.data@[x] == chunk.data@[x]);
                    } else {
                        assert(untouched(chunks@[i as int].1, size, chunks@[i as int].1.data@.len() as int, key));
                        assert(untouched_by(chunks@, j + 1, i as int, size, key));
                        assert(tile_placed(t1, chunks@[j].1, *params, shapes@, x));
                    }
                }
                assert forall|k: u64| #[trigger] untouched_by(chunks@, 0, i + 1, size, k) implies (t_new.contains_key(k)
                    == t0.contains_key(k) && (t0.contains_key(k) ==> t_new[k].gid == t0[k].gid && t_new[k].position
                    == t0[k].position && t_new[k].vertices == t0[k].vertices)) by {
                    assert(untouched(chunks@[i as int].1, size, chunks@[i as int].1.data@.len() as int, k));
                    assert(untouched_by(chunks@, 0, i as int, size, k));
                }
                assert forall|k: u64, e: crate::terrain::Edge| #[trigger] traced(self.tiles@, k, e) implies traced(t0, k, e) by {
                    let id = edge_map(self.tiles@[k].edge_polylines@)[e];
                    assert(traced_to(self.tiles@, k, e, id));
                    assert(traced(t1, k, e));
                }
                assert(relation_pairs(old(bookkeeping).gid_to_cantor_pair_map@).union(all_gid_chunk_pairs(chunks@.take(i as int))).union(gid_chunk_pairs(chunk_id, Some(chunk)))
                    =~= relation_pairs(old(bookkeeping).gid_to_cantor_pair_map@).union(all_gid_chunk_pairs(chunks@.take(i + 1))));
                assert(relation_pairs(old(bookkeeping).chunk_to_cantor_pair_map@).union(all_chunk_gid_pairs(chunks@.take(i as int))).union(chunk_gid_pairs(chunk_id, Some(chunk)))
                    =~= relation_pairs(old(bookkeeping).chunk_to_cantor_pair_map@).union(all_chunk_gid_pairs(chunks@.take(i + 1))));
            }
            i = i + 1;
        }
        proof {
            assert(chunks@.take(chunks@.len() as int) =~= chunks@);
        }
        let positions = self.tile_positions();
        let ghost t2 = self.tiles@;
        proof {
            assert forall|j: int| 0 <= j < positions@.len() implies preparable(t2, #[trigger] positions@[j]) by {
                lemma_outlines_preparable(t2, positions@[j]);
            }
        }
        self.prepare_polyline_calculation_for_tiles(&positions);
        proof {
            let t3 = self.tiles@;
            let n = chunks@.len() as int;
            assert forall|j: int, x: int|
                0 <= j < n && 0 <= x < chunks@[j].1.data@.len() && last_at_position(chunks@[j].1, size, x)
                    && untouched_by(
                    chunks@,
                    j + 1,
                    n,
                    size,
                    position_key(chunk_tile_position(chunks@[j].1, size, x)),
                ) implies #[trigger] tile_placed(t3, chunks@[j].1, *params, shapes@, x) by {
                assert(tile_placed(t2, chunks@[j].1, *params, shapes@, x));
                let key = position_key(chunk_tile_position(chunks@[j].1, size, x));
                if t2.contains_key(key) {
                    assert(t3.contains_key(key));
                }
            }
            assert forall|k: u64| #[trigger] untouched_by(chunks@, 0, n, size, k) implies (t3.contains_key(k)
                == t0.contains_key(k) && (t0.contains_key(k) ==> t3[k].gid == t0[k].gid && t3[k].position
                == t0[k].position && t3[k].vertices == t0[k].vertices)) by {
                if t2.contains_key(k) {
                    assert(t3.contains_key(k));
                }
            }
            assert(outlines_ok(t3)) by {
                assert forall|k: u64| #[trigger] t3.contains_key(k) implies t3[k].vertices.data@.len() > 0 && i32::MIN
                    < t3[k].position.0 < i32::MAX && i32::MIN < t3[k].position.1 < i32::MAX by {
                    assert(t2.contains_key(k));
                }
            }
            assert forall|k: u64| #[trigger] t3.contains_key(k) implies t3[k].surface_edges.data@ == surface_edges_of(
                t3,
                t3[k].position,
                t3[k].vertices.data@,
            ) by {
                assert(t2.contains_key(k));
                crate::terrain_grid::lemma_position_key_injective(t2[k].position, t2[k].position);
                assert(positions@.contains(t2[k].position));
                let j = choose|j: int| 0 <= j < positions@.len() && positions@[j] == t2[k].position;
                assert(position_key(positions@[j]) == k);
                assert(processed(positions@, positions@.len() as int, k));
                crate::terrain_grid::lemma_same_outlines_surface(t3, t2, t3[k].position);
            }
            if forall|k: u64, e: crate::terrain::Edge| !#[trigger] traced(t0, k, e) {
                assert forall|k: u64, e: crate::terrain::Edge| !#[trigger] traced(t3, k, e) by {
                    if traced(t3, k, e) {
                        assert(t2.contains_key(k));
                        assert(traced(t2, k, e));
                    }
                }
            }
        }
    }
}

/// The chunk can be written: it fits the coordinates, its tiles have
/// outlines, the block around it fits, and it is no bigger than its square.
pub open spec fn chunk_writable(chunk: Chunk, params: TerrainParams, shapes: Map<Gid, Vec<Vertex>>) -> bool {
    &&& chunk_fits(chunk, params, shapes)
    &&& chunk_tiles_ok(chunk, params, shapes)
    &&& chunk.data@.len() <= params.chunk_size * params.chunk_size
    &&& i32::MIN <= chunk.position.0 * (params.chunk_size as int) - 1
    &&& chunk.position.0 * (params.chunk_size as int) + params.chunk_size + 1 < i32::MAX
    &&& i32::MIN <= chunk.position.1 * (params.chunk_size as int) - 1
    &&& chunk.position.1 * (params.chunk_size as int) + params.chunk_size + 1 < i32::MAX
}

/// Going from the polylines `before` to `after` while handing out `gone`:
/// each polyline handed out was there before, each one that was there is
/// still there or handed out, and each one there now was there before and
/// not handed out, or has an id above `gen_before`; the id counter does not
/// go back.
pub open spec fn kept_or_handed_out(
    before: Seq<TerrainPolyLineBuilder>,
    after: Seq<TerrainPolyLineBuilder>,
    gone: Seq<TerrainPolyLineBuilder>,
    gen_before: PolyLineId,
    gen_after: PolyLineId,
) -> bool {
    &&& gen_before <= gen_after
    &&& forall|l: TerrainPolyLineBuilder| #[trigger] gone.contains(l) ==> before.contains(l)
    &&& forall|l: TerrainPolyLineBuilder| #[trigger] before.contains(l) ==> gone.contains(l) || after.contains(l)
    &&& forall|l: TerrainPolyLineBuilder| #[trigger]
        after.contains(l) ==> (before.contains(l) && !gone.contains(l)) || gen_before < l.id
}

/// What `write_chunk` states of the polylines, in the terms of
/// `kept_or_handed_out`.
proof fn lemma_write_keeps_or_hands_out(
    before: Seq<TerrainPolyLineBuilder>,
    after: Seq<TerrainPolyLineBuilder>,
    gone: Seq<TerrainPolyLineBuilder>,
    gen_before: PolyLineId,
    gen_after: PolyLineId,
    tiles: Map<u64, TerrainGridTile>,
    b: Bounds,
    outcome: Option<usize>,
)
    requires
        forall|l: TerrainPolyLineBuilder| #[trigger] gone.contains(l) <==> before.contains(l) && traced_in_region(tiles, b, l.id),
        match outcome {
            Some(n) => {
                &&& n <= after.len()
                &&& forall|l: TerrainPolyLineBuilder| #[trigger]
                    after.subrange(0, after.len() - n).contains(l) <==> before.contains(l)
                        && !traced_in_region(tiles, b, l.id)
                &&& n == gen_after - gen_before
                &&& forall|i: int|
                    after.len() - n <= i < after.len() ==> (#[trigger] after[i]).id
                        == gen_before + 1 + i - (after.len() - n)
            },
            None => {
                &&& forall|l: TerrainPolyLineBuilder| #[trigger]
                    after.contains(l) <==> before.contains(l) && !traced_in_region(tiles, b, l.id)
                &&& gen_after == gen_before
            },
        },
    ensures
        kept_or_handed_out(before, after, gone, gen_before, gen_after),
{
    match outcome {
        Some(n) => {
            let prefix = after.subrange(0, after.len() - n);
            assert forall|l: TerrainPolyLineBuilder| #[trigger] before.contains(l) implies gone.contains(l) || after.contains(l) by {
                if !traced_in_region(tiles, b, l.id) {
                    assert(prefix.contains(l));
                    let i = choose|i: int| 0 <= i < prefix.len() && prefix[i] == l;
                    assert(after[i] == l);
                }
            }
            assert forall|l: TerrainPolyLineBuilder| #[trigger] after.contains(l) implies (before.contains(l) && !gone.contains(l))
                || gen_before < l.id by {
                let i = choose|i: int| 0 <= i < after.len() && after[i] == l;
                if i < after.len() - n {
                    assert(prefix[i] == l);
                    assert(prefix.contains(l));
                }
            }
        },
        None => {},
    }
}

impl TerrainGrid {
    /// After the collision shape of a gid changed, writes again every
    /// stored chunk that the gid is recorded as used in: each is taken out
    /// of `chunk_map` first, then all are written back in turn. Gives back
    /// the polylines released on the way.
    pub fn update_collision_shape(
        &mut self,
        bookkeeping: &mut PolylineBookkeeping,
        lines: &mut Vec<TerrainPolyLineBuilder>,
        chunk_map: &mut HashMap<CantorPair, Chunk>,
        gid: Gid,
        params: &TerrainParams,
        shapes: &HashMap<Gid, Vec<Vertex>>,
    ) -> (released: Vec<TerrainPolyLineBuilder>)
        requires
            terrain_ready(*old(self), old(lines)@, old(bookkeeping).id_gen),
            forall|c: CantorPair| #[trigger]
                old(chunk_map)@.contains_key(c) ==> chunk_writable(old(chunk_map)@[c], *params, shapes@),
        ensures
            terrain_ready(*final(self), final(lines)@, final(bookkeeping).id_gen),
            final(chunk_map)@.dom() == old(chunk_map)@.dom(),
            forall|c: CantorPair| #[trigger]
                old(chunk_map)@.contains_key(c) ==> final(chunk_map)@[c].position == old(chunk_map)@[c].position
                    && final(chunk_map)@[c].data@ == old(chunk_map)@[c].data@,
            relations_match(*old(bookkeeping), old(chunk_map)@) ==> relations_match(*final(bookkeeping), final(chunk_map)@),
            old(bookkeeping).id_gen <= final(bookkeeping).id_gen,
            forall|l: TerrainPolyLineBuilder| #[trigger] released@.contains(l) ==> !final(lines)@.contains(l),
            forall|l: TerrainPolyLineBuilder| #[trigger]
                old(lines)@.contains(l) ==> final(lines)@.contains(l) || released@.contains(l),
            forall|l: TerrainPolyLineBuilder| #[trigger]
                released@.contains(l) ==> old(lines)@.contains(l) || old(bookkeeping).id_gen < l.id,
            forall|l: TerrainPolyLineBuilder| #[trigger]
                final(lines)@.contains(l) ==> old(lines)@.contains(l) || old(bookkeeping).id_gen < l.id,
            positions_apart(old(chunk_map)@) ==> forall|c: CantorPair|
                old(chunk_map)@.contains_key(c) && related(old(bookkeeping).gid_to_cantor_pair_map@, gid, c)
                    ==> chunk_placed(final(self).tiles@, #[trigger] old(chunk_map)@[c], *params, shapes@),
            positions_apart(old(chunk_map)@) && relations_match(*old(bookkeeping), old(chunk_map)@) ==> forall|c: CantorPair|
                old(chunk_map)@.contains_key(c) && old(chunk_map)@[c].data@.contains(gid)
                    ==> chunk_placed(final(self).tiles@, #[trigger] old(chunk_map)@[c], *params, shapes@),
            if exists|c: CantorPair|
                old(chunk_map)@.contains_key(c) && #[trigger] related(old(bookkeeping).gid_to_cantor_pair_map@, gid, c) {
                final(self).open_edges@.len() == 0 || final(bookkeeping).id_gen + final(self).open_edges@.len() > u32::MAX
            } else {
                &&& *final(self) == *old(self)
                &&& final(lines)@ == old(lines)@
                &&& *final(bookkeeping) == *old(bookkeeping)
                &&& released@.len() == 0
            },
    {
        let ghost m0 = chunk_map@;
        let ghost lines0 = lines@;
        let ghost gen0 = bookkeeping.id_gen;
        let ghost bk0 = *bookkeeping;
        let ghost self0 = *self;
        let mut to_update: Vec<(CantorPair, Chunk)> = Vec::new();
        match bookkeeping.gid_to_cantor_pair_map.get(&gid) {
            Some(set) => {
                proof {
                    vstd::std_specs::hash::axiom_spec_hash_keys_iter(set);
                }
                let ghost mut visited: Set<CantorPair> = Set::empty();
                for c in it: set.iter()
                    invariant
                        set@ == bk0.gid_to_cantor_pair_map@[gid]@,
                        bk0.gid_to_cantor_pair_map@.contains_key(gid),
                        it.seq().unref().to_set() == set@,
                        forall|x: CantorPair| #[trigger] visited.contains(x) ==> !chunk_map@.contains_key(x),
                        forall|x: CantorPair| #[trigger]
                            set@.contains(x) ==> visited.contains(x) || exists|j: int|
                                it.index() <= j < it.seq().len() && *it.seq()[j] == x,
                        forall|j: int| #![trigger to_update@[j]] 0 <= j < to_update@.len() ==> related(
                            bk0.gid_to_cantor_pair_map@,
                            gid,
                            to_update@[j].0,
                        ),
                        forall|j: int| #![trigger to_update@[j]] 0 <= j < to_update@.len() ==> m0.contains_key(to_update@[j].0)
                            && to_update@[j].1 == m0[to_update@[j].0] && !chunk_map@.contains_key(to_update@[j].0),
                        forall|j: int, l: int| 0 <= j < l < to_update@.len() ==> to_update@[j].0 != to_update@[l].0,
                        forall|x: CantorPair| #[trigger]
                            chunk_map@.contains_key(x) <==> m0.contains_key(x) && !(exists|j: int|
                                0 <= j < to_update@.len() && #[trigger] to_update@[j].0 == x),
                        forall|x: CantorPair| #[trigger] chunk_map@.contains_key(x) ==> chunk_map@[x] == m0[x],
                {
                    proof {
                        assert(it.seq().unref()[it.index()] == *c);
                        assert(it.seq().unref().to_set().contains(*c));
                        let old_visited = visited;
                        visited = visited.insert(*c);
                        assert forall|x: CantorPair| #[trigger] set@.contains(x) implies visited.contains(x) || exists|j: int|
                            it.index() + 1 <= j < it.seq().len() && *it.seq()[j] == x by {
                            if !old_visited.contains(x) {
                                let j = choose|j: int| it.index() <= j < it.seq().len() && *it.seq()[j] == x;
                                if j == it.index() {
                                    assert(visited.contains(x));
                                }
                            }
                        }
                    }
                    let ghost before = to_update@;
                    let ghost map_before = chunk_map@;
                    match chunk_map.remove(c) {
                        Some(chunk) => {
                            to_update.push((*c, chunk));
                            proof {
                                assert(to_update@[before.len() as int] == (*c, map_before[*c]));
                                assert forall|j: int| #![trigger to_update@[j]] 0 <= j < to_update@.len() implies m0.contains_key(to_update@[j].0)
                                    && to_update@[j].1 == m0[to_update@[j].0] && !chunk_map@.contains_key(to_update@[j].0) by {
                                    if j < before.len() {
                                        assert(to_update@[j] == before[j]);
                                    }
                                }
                                assert forall|x: CantorPair| #[trigger]
                                    chunk_map@.contains_key(x) <==> m0.contains_key(x) && !(exists|j: int|
                                        0 <= j < to_update@.len() && #[trigger] to_update@[j].0 == x) by {
                                    if exists|j: int| 0 <= j < to_update@.len() && #[trigger] to_update@[j].0 == x {
                                        let j = choose|j: int| 0 <= j < to_update@.len() && #[trigger] to_update@[j].0 == x;
                                        if j < before.len() {
                                            assert(before[j].0 == x);
                                        }
                                    }
                                    if x != *c && map_before.contains_key(x) {
                                        assert forall|j: int| 0 <= j < to_update@.len() implies #[trigger] to_update@[j].0 != x by {
                                            if j < before.len() {
                                                assert(to_update@[j] == before[j]);
                                            }
                                        }
                                    }
                                    if x != *c && !map_before.contains_key(x) && m0.contains_key(x) {
                                        let j = choose|j: int| 0 <= j < before.len() && #[trigger] before[j].0 == x;
                                        assert(to_update@[j].0 == x);
                                    }
                                }
                            }
                        },
                        None => {},
                    }
                }
                proof {
                    assert forall|x: CantorPair| #[trigger]
                        m0.contains_key(x) && related(bk0.gid_to_cantor_pair_map@, gid, x) implies exists|j: int|
                        0 <= j < to_update@.len() && #[trigger] to_update@[j].0 == x by {
                        assert(set@.contains(x));
                        assert(visited.contains(x));
                    }
                }
            },
            None => {},
        }
        let ghost to_v = to_update@;
        proof {
            assert(forall|x: CantorPair| #[trigger]
                m0.contains_key(x) && related(bk0.gid_to_cantor_pair_map@, gid, x) ==> exists|j: int|
                0 <= j < to_v.len() && #[trigger] to_v[j].0 == x);
            assert(forall|j: int| #![trigger to_v[j]] 0 <= j < to_v.len() ==> related(bk0.gid_to_cantor_pair_map@, gid, to_v[j].0));
            assert(*self == self0 && lines@ == lines0 && *bookkeeping == bk0);
        }
        let mut released: Vec<TerrainPolyLineBuilder> = Vec::new();
        let mut i: usize = 0;
        while i < to_update.len()
            invariant
                i <= to_update@.len(),
                to_v == to_update@,
                forall|j: int| #![trigger to_v[j]] 0 <= j < to_v.len() ==> m0.contains_key(to_v[j].0) && to_v[j].1 == m0[to_v[j].0],
                forall|j: int, l: int| 0 <= j < l < to_v.len() ==> to_v[j].0 != to_v[l].0,
                forall|c: CantorPair| #[trigger] m0.contains_key(c) ==> chunk_writable(m0[c], *params, shapes@),
                terrain_ready(*self, lines@, bookkeeping.id_gen),
                forall|x: CantorPair| #[trigger]
                    chunk_map@.contains_key(x) <==> m0.contains_key(x) && !(exists|j: int|
                        i <= j < to_v.len() && #[trigger] to_v[j].0 == x),
                forall|x: CantorPair| #[trigger]
                    chunk_map@.contains_key(x) ==> chunk_map@[x].position == m0[x].position && chunk_map@[x].data@ == m0[x].data@,
                relations_match(bk0, m0) ==> relation_pairs(bookkeeping.gid_to_cantor_pair_map@) == stored_pairs(m0)
                    && relation_pairs(bookkeeping.chunk_to_cantor_pair_map@) == stored_pairs(m0).map(
                    |p: (u32, u32)| (p.1, p.0),
                ),
                gen0 <= bookkeeping.id_gen,
                forall|l: TerrainPolyLineBuilder| #[trigger]
                    released@.contains(l) ==> !lines@.contains(l) && l.id <= bookkeeping.id_gen,
                forall|l: TerrainPolyLineBuilder| #[trigger]
                    lines0.contains(l) ==> lines@.contains(l) || released@.contains(l),
                forall|l: TerrainPolyLineBuilder| #[trigger] released@.contains(l) ==> lines0.contains(l) || gen0 < l.id,
                forall|l: TerrainPolyLineBuilder| #[trigger] lines@.contains(l) ==> lines0.contains(l) || gen0 < l.id,
                forall|x: CantorPair| #[trigger]
                    m0.contains_key(x) && related(bk0.gid_to_cantor_pair_map@, gid, x) ==> exists|j: int|
                    0 <= j < to_v.len() && #[trigger] to_v[j].0 == x,
                forall|j: int| #![trigger to_v[j]] 0 <= j < to_v.len() ==> related(bk0.gid_to_cantor_pair_map@, gid, to_v[j].0),
                positions_apart(m0) ==> forall|j: int|
                    0 <= j < i ==> chunk_placed(self.tiles@, #[trigger] to_v[j].1, *params, shapes@),
                i > 0 ==> self.open_edges@.len() == 0 || bookkeeping.id_gen + self.open_edges@.len() > u32::MAX,
                i == 0 ==> *self == self0 && lines@ == lines0 && *bookkeeping == bk0 && released@.len() == 0,
            decreases to_v.len() - i,
        {
            let c = to_update[i].0;
            let chunk = &to_update[i].1;
            let ghost tiles_before = self.tiles@;
            proof {
                assert(to_v[i as int].1 == m0[c]);
                assert(chunk_writable(m0[c], *params, shapes@));
            }
            let ghost map_before = chunk_map@;
            proof {
                assert(!map_before.contains_key(c)) by {
                    assert(to_v[i as int].0 == c);
                }
            }
            let ghost lines_b = lines@;
            let ghost gen_b = bookkeeping.id_gen;
            let ghost tiles_b = self.tiles@;
            let ghost released_b = released@;
            let (mut gone, outcome) = self.write_chunk(bookkeeping, lines, chunk_map, c, chunk, params, shapes);
            proof {
                if positions_apart(m0) {
                    assert forall|j: int| 0 <= j < i + 1 implies chunk_placed(self.tiles@, #[trigger] to_v[j].1, *params, shapes@) by {
                        if j < i {
                            assert(to_v[j].0 != to_v[i as int].0);
                            assert(m0[to_v[j].0].position != m0[to_v[i as int].0].position);
                            assert(chunk_writable(m0[to_v[j].0], *params, shapes@));
                            lemma_chunks_apart(to_v[j].1, to_v[i as int].1, *params, shapes@);
                            assert(chunk_placed(tiles_before, to_v[j].1, *params, shapes@));
                            lemma_placed_outside(tiles_before, self.tiles@, to_v[j].1, to_v[i as int].1, *params, shapes@);
                        }
                    }
                }
                match outcome {
                    Some(_) => {},
                    None => {},
                }
                lemma_write_keeps_or_hands_out(
                    lines_b,
                    lines@,
                    gone@,
                    gen_b,
                    bookkeeping.id_gen,
                    tiles_b,
                    chunk_bounds(*chunk, params.chunk_size as int),
                    outcome,
                );
            }
            let ghost gone_v = gone@;
            released.append(&mut gone);
            proof {
                assert(released@ == released_b + gone_v);
                assert forall|l: TerrainPolyLineBuilder| #[trigger] released@.contains(l) implies !lines@.contains(l)
                    && l.id <= bookkeeping.id_gen && (lines0.contains(l) || gen0 < l.id) by {
                    let j = choose|j: int| 0 <= j < released@.len() && released@[j] == l;
                    if j < released_b.len() {
                        assert(released_b[j] == l);
                        assert(released_b.contains(l));
                    } else {
                        assert(gone_v[j - released_b.len()] == l);
                        assert(gone_v.contains(l));
                        assert(lines_b.contains(l));
                        let k = choose|k: int| 0 <= k < lines_b.len() && lines_b[k] == l;
                        assert(lines_b[k].id <= gen_b);
                    }
                }
                assert forall|l: TerrainPolyLineBuilder| #[trigger] lines0.contains(l) implies lines@.contains(l)
                    || released@.contains(l) by {
                    if released_b.contains(l) {
                        let j = choose|j: int| 0 <= j < released_b.len() && released_b[j] == l;
                        assert(released@[j] == l);
                    } else if gone_v.contains(l) {
                        let j = choose|j: int| 0 <= j < gone_v.len() && gone_v[j] == l;
                        assert(released@[released_b.len() + j] == l);
                    }
                }
                if relations_match(bk0, m0) {
                    let flip = |p: (u32, u32)| (p.1, p.0);
                    assert(stored_gid_chunk_pairs(map_before, c) =~= Set::empty());
                    assert(stored_chunk_gid_pairs(map_before, c) =~= Set::empty());
                    assert(gid_chunk_pairs(c, Some(chunk)).subset_of(stored_pairs(m0)));
                    assert forall|q: (u32, u32)| chunk_gid_pairs(c, Some(chunk)).contains(q) implies stored_pairs(m0).map(flip).contains(q) by {
                        assert(stored_pairs(m0).contains((q.1, q.0)));
                        assert(flip((q.1, q.0)) == q);
                    }
                    assert(stored_pairs(m0).union(gid_chunk_pairs(c, Some(chunk))) =~= stored_pairs(m0));
                    assert(stored_pairs(m0).map(flip).union(chunk_gid_pairs(c, Some(chunk))) =~= stored_pairs(m0).map(flip));
                }
                assert forall|x: CantorPair| #[trigger]
                    chunk_map@.contains_key(x) <==> m0.contains_key(x) && !(exists|j: int|
                        i + 1 <= j < to_v.len() && #[trigger] to_v[j].0 == x) by {
                    if exists|j: int| i + 1 <= j < to_v.len() && #[trigger] to_v[j].0 == x {
                        let j = choose|j: int| i + 1 <= j < to_v.len() && #[trigger] to_v[j].0 == x;
                        assert(to_v[j].0 != to_v[i as int].0);
                    }
                    if x != c && m0.contains_key(x) && !(exists|j: int| i + 1 <= j < to_v.len() && #[trigger] to_v[j].0 == x) {
                        assert forall|j: int| i <= j < to_v.len() implies #[trigger] to_v[j].0 != x by {
                            if j == i {
                            }
                        }
                    }
                }
            }
            i = i + 1;
        }
        proof {
            assert forall|x: CantorPair| #[trigger] m0.contains_key(x) implies chunk_map@.contains_key(x) by {
                assert(!(exists|j: int| i <= j < to_v.len() && #[trigger] to_v[j].0 == x));
            }
            assert(chunk_map@.dom() =~= m0.dom());
            assert(stored_pairs(chunk_map@) =~= stored_pairs(m0));
            if positions_apart(m0) {
                assert forall|x: CantorPair|
                    m0.contains_key(x) && related(bk0.gid_to_cantor_pair_map@, gid, x) implies chunk_placed(
                    self.tiles@,
                    #[trigger] m0[x],
                    *params,
                    shapes@,
                ) by {
                    let j = choose|j: int| 0 <= j < to_v.len() && #[trigger] to_v[j].0 == x;
                    assert(chunk_placed(self.tiles@, to_v[j].1, *params, shapes@));
                }
                if relations_match(bk0, m0) {
                    assert forall|x: CantorPair|
                        m0.contains_key(x) && m0[x].data@.contains(gid) implies chunk_placed(
                        self.tiles@,
                        #[trigger] m0[x],
                        *params,
                        shapes@,
                    ) by {
                        assert(stored_pairs(m0).contains((gid, x)));
                        assert(relation_pairs(bk0.gid_to_cantor_pair_map@).contains((gid, x)));
                        assert(related(bk0.gid_to_cantor_pair_map@, gid, x));
                    }
                }
            }
            if exists|x: CantorPair| m0.contains_key(x) && #[trigger] related(bk0.gid_to_cantor_pair_map@, gid, x) {
                let x = choose|x: CantorPair| m0.contains_key(x) && #[trigger] related(bk0.gid_to_cantor_pair_map@, gid, x);
                let j = choose|j: int| 0 <= j < to_v.len() && #[trigger] to_v[j].0 == x;
                assert(i > 0);
            } else {
                if to_v.len() > 0 {
                    assert(related(bk0.gid_to_cantor_pair_map@, gid, to_v[0].0));
                    assert(m0.contains_key(to_v[0].0));
                }
            }
        }
        released
    }
}

} // verus!
