use vstd::prelude::*;

use crate::terrain::{
    Edge, PolyLineId, PolylineBookkeeping, TerrainGridTile, TerrainPolyLineBuilder, TilePosition, Vertex,
};
use crate::terrain_grid::{
    add1, edge_map, find_edge, key_of, lemma_edge_map_absent, lemma_edge_map_at,
    lemma_edge_map_len, lemma_position_key_injective, position_key, put_edge, sub1, take_edge, unique_edges, TerrainGrid,
};

verus! {

/// The end of an edge where a walk in the given direction enters it:
/// its start walking clockwise, its end walking counterclockwise.
pub open spec fn entry_of(e: Edge, clockwise: bool) -> Vertex {
    if clockwise {
        e.0
    } else {
        e.1
    }
}

/// The end of an edge where a walk in the given direction leaves it.
pub open spec fn exit_of(e: Edge, clockwise: bool) -> Vertex {
    if clockwise {
        e.1
    } else {
        e.0
    }
}

/// The edge is traced, in the tile stored under `k`, to some polyline.
pub open spec fn traced(tiles: Map<u64, TerrainGridTile>, k: u64, e: Edge) -> bool {
    tiles.contains_key(k) && edge_map(tiles[k].edge_polylines@).contains_key(e)
}

/// The edge is traced, in the tile stored under `k`, to the polyline `id`.
pub open spec fn traced_to(tiles: Map<u64, TerrainGridTile>, k: u64, e: Edge, id: PolyLineId) -> bool {
    traced(tiles, k, e) && edge_map(tiles[k].edge_polylines@)[e] == id
}

/// `i` is the last index of `edges` whose entry, walking in the given
/// direction, is `v`.
pub open spec fn is_last_entry(edges: Seq<Edge>, v: Vertex, clockwise: bool, i: int) -> bool {
    &&& 0 <= i < edges.len()
    &&& entry_of(edges[i], clockwise) == v
    &&& forall|j: int| i < j < edges.len() ==> entry_of(#[trigger] edges[j], clockwise) != v
}

/// The last index of `edges` whose entry is `v`, if there is one.
pub open spec fn last_entry(edges: Seq<Edge>, v: Vertex, clockwise: bool) -> Option<int> {
    if exists|i: int| is_last_entry(edges, v, clockwise, i) {
        Some(choose|i: int| is_last_entry(edges, v, clockwise, i))
    } else {
        None
    }
}

/// The untraced surface edge of the tile at `q` that a walk leaving `e`
/// could continue with, if there is one: the last surface edge whose entry
/// is where the walk leaves `e`.
pub open spec fn candidate(tiles: Map<u64, TerrainGridTile>, q: TilePosition, e: Edge, clockwise: bool) -> Option<(TilePosition, Edge)> {
    let k = position_key(q);
    if tiles.contains_key(k) {
        let edges = tiles[k].surface_edges.data@;
        match last_entry(edges, exit_of(e, clockwise), clockwise) {
            Some(i) => if traced(tiles, k, edges[i]) {
                None
            } else {
                Some((q, edges[i]))
            },
            None => None,
        }
    } else {
        None
    }
}

pub open spec fn found(c: Option<(TilePosition, Edge)>) -> int {
    if c is Some {
        1
    } else {
        0
    }
}

/// Where a walk leaving `e` in the tile at `p` goes on: the candidate of
/// the neighbour left, right, above or below, when exactly one of them has
/// a candidate.
pub open spec fn connected_edge(tiles: Map<u64, TerrainGridTile>, p: TilePosition, e: Edge, clockwise: bool) -> Option<(TilePosition, Edge)> {
    let c1 = candidate(tiles, (sub1(p.0), p.1), e, clockwise);
    let c2 = candidate(tiles, (add1(p.0), p.1), e, clockwise);
    let c3 = candidate(tiles, (p.0, sub1(p.1)), e, clockwise);
    let c4 = candidate(tiles, (p.0, add1(p.1)), e, clockwise);
    if found(c1) + found(c2) + found(c3) + found(c4) != 1 {
        None
    } else if c1 is Some {
        c1
    } else if c2 is Some {
        c2
    } else if c3 is Some {
        c3
    } else {
        c4
    }
}

/// Each tile lies away from the border of the coordinate range, so that its
/// four neighbours have positions.
pub open spec fn positions_fit(tiles: Map<u64, TerrainGridTile>) -> bool {
    forall|k: u64| #[trigger]
        tiles.contains_key(k) ==> i32::MIN < tiles[k].position.0 < i32::MAX && i32::MIN
            < tiles[k].position.1 < i32::MAX
}

/// The same tiles, with the same outlines and surface edges; only what is
/// traced may differ.
pub open spec fn same_surfaces(a: Map<u64, TerrainGridTile>, b: Map<u64, TerrainGridTile>) -> bool {
    &&& a.dom() == b.dom()
    &&& forall|k: u64| #[trigger]
        a.contains_key(k) ==> a[k].gid == b[k].gid && a[k].position == b[k].position
            && a[k].vertices == b[k].vertices && a[k].surface_edges == b[k].surface_edges
}

/// `b` is `a` with the edge `e` of the tile under `k` traced to `id`.
pub open spec fn claimed(a: Map<u64, TerrainGridTile>, b: Map<u64, TerrainGridTile>, k: u64, e: Edge, id: PolyLineId) -> bool {
    &&& same_surfaces(a, b)
    &&& forall|j: u64| #[trigger] a.contains_key(j) && j != k ==> b[j] == a[j]
    &&& edge_map(b[k].edge_polylines@) == edge_map(a[k].edge_polylines@).insert(e, id)
}

/// The surface edges, by tile key, that are not traced.
pub open spec fn untraced_pairs(tiles: Map<u64, TerrainGridTile>) -> Set<(u64, Edge)> {
    Set::new(
        |p: (u64, Edge)|
            tiles.contains_key(p.0) && tiles[p.0].surface_edges.data@.contains(p.1) && !traced(
                tiles,
                p.0,
                p.1,
            ),
    )
}

/// Everything traced in `a` is traced in `b` to the same polyline.
pub open spec fn keeps_traces(a: Map<u64, TerrainGridTile>, b: Map<u64, TerrainGridTile>) -> bool {
    forall|k: u64, e: Edge| #[trigger] traced(a, k, e) ==> traced(b, k, e) && edge_map(b[k].edge_polylines@)[e]
        == edge_map(a[k].edge_polylines@)[e]
}

/// Apart from what is traced to `id`, the same edges are traced to the
/// same polylines.
pub open spec fn same_traces_except(a: Map<u64, TerrainGridTile>, b: Map<u64, TerrainGridTile>, id: PolyLineId) -> bool {
    forall|k: u64, e: Edge, other: PolyLineId|
        other != id ==> (#[trigger] traced_to(b, k, e, other) <==> #[trigger] traced_to(a, k, e, other))
}

/// Every edge traced in `b` but not in `a` is traced to `id`.
pub open spec fn new_traces_to(a: Map<u64, TerrainGridTile>, b: Map<u64, TerrainGridTile>, id: PolyLineId) -> bool {
    forall|k: u64, e: Edge| #[trigger] traced(b, k, e) && !traced(a, k, e) ==> traced_to(b, k, e, id)
}

/// Pair `j` of a polyline's vertices: the edge it runs along.
pub open spec fn pair(v: Seq<Vertex>, j: int) -> Edge {
    (v[2 * j], v[2 * j + 1])
}

/// The vertices come in pairs, and each pair starts where the one before
/// it ends.
pub open spec fn chained(v: Seq<Vertex>) -> bool {
    &&& v.len() % 2 == 0
    &&& forall|j: int| 0 < j < v.len() / 2 ==> (#[trigger] pair(v, j)).0 == pair(v, j - 1).1
}

/// The vertex where a chain of pairs ends, walking in the given direction.
pub open spec fn chain_end(v: Seq<Vertex>, clockwise: bool) -> Vertex {
    if clockwise {
        v.last()
    } else {
        v[0]
    }
}

/// The chain with the edge added at its end in the walking direction.
pub open spec fn extended(v: Seq<Vertex>, e: Edge, clockwise: bool) -> Seq<Vertex> {
    if clockwise {
        v.push(e.0).push(e.1)
    } else {
        seq![e.0, e.1] + v
    }
}

/// The edge is traced to the polyline in one of the listed tiles.
pub open spec fn traced_in(tiles: Map<u64, TerrainGridTile>, listed: Seq<TilePosition>, e: Edge, id: PolyLineId) -> bool {
    exists|q: TilePosition| listed.contains(q) && #[trigger] traced_to(tiles, position_key(q), e, id)
}

/// The edge is one of the pairs of the vertices.
pub open spec fn has_pair(v: Seq<Vertex>, e: Edge) -> bool {
    exists|j: int| 0 <= j < v.len() / 2 && #[trigger] pair(v, j) == e
}

/// Each pair of the vertices is traced to the polyline in one of its tiles.
pub open spec fn pairs_traced(tiles: Map<u64, TerrainGridTile>, v: Seq<Vertex>, listed: Seq<TilePosition>, id: PolyLineId) -> bool {
    forall|j: int| 0 <= j < v.len() / 2 ==> #[trigger] traced_in(tiles, listed, pair(v, j), id)
}

/// Each edge traced to the polyline is one of its pairs, in one of its
/// tiles.
pub open spec fn traces_listed(tiles: Map<u64, TerrainGridTile>, v: Seq<Vertex>, listed: Seq<TilePosition>, id: PolyLineId) -> bool {
    forall|k: u64, e: Edge| #[trigger]
        traced_to(tiles, k, e, id) ==> listed.contains(tiles[k].position) && has_pair(v, e)
}

/// The tiles of a polyline: each once, each in the grid.
pub open spec fn tiles_listed(tiles: Map<u64, TerrainGridTile>, listed: Seq<TilePosition>) -> bool {
    &&& listed.no_duplicates()
    &&& forall|i: int| 0 <= i < listed.len() ==> tiles.contains_key(position_key(#[trigger] listed[i]))
}

/// Some edge of the tile at `q` is traced to the polyline `id`.
pub open spec fn used_by(tiles: Map<u64, TerrainGridTile>, q: TilePosition, id: PolyLineId) -> bool {
    exists|e: Edge| #[trigger] traced_to(tiles, position_key(q), e, id)
}

/// Each listed tile has an edge traced to the polyline.
pub open spec fn tiles_used(tiles: Map<u64, TerrainGridTile>, listed: Seq<TilePosition>, id: PolyLineId) -> bool {
    forall|i: int| 0 <= i < listed.len() ==> used_by(tiles, #[trigger] listed[i], id)
}

/// A polyline that runs exactly along the edges traced to it: a chain of
/// pairs, each traced to it in one of its tiles, each edge traced to it one
/// of its pairs, and each of its tiles holding one of them.
pub open spec fn traces_polyline(tiles: Map<u64, TerrainGridTile>, p: TerrainPolyLineBuilder) -> bool {
    &&& chained(p.vertices@)
    &&& pairs_traced(tiles, p.vertices@, p.tiles@, p.id)
    &&& traces_listed(tiles, p.vertices@, p.tiles@, p.id)
    &&& tiles_listed(tiles, p.tiles@)
    &&& tiles_used(tiles, p.tiles@, p.id)
}

/// A tile stored under the key of a position lies at that position.
proof fn lemma_tile_at(tiles: Map<u64, TerrainGridTile>, q: TilePosition)
    requires
        forall|k: u64| #[trigger] tiles.contains_key(k) ==> k == position_key(tiles[k].position),
        tiles.contains_key(position_key(q)),
    ensures
        tiles[position_key(q)].position == q,
{
    lemma_position_key_injective(tiles[position_key(q)].position, q);
}

/// Adding an edge at the walking end of a chain that ends where the edge is
/// entered keeps it a chain, and keeps its pairs.
proof fn lemma_extended(v: Seq<Vertex>, e: Edge, clockwise: bool)
    requires
        chained(v),
        v.len() == 0 || chain_end(v, clockwise) == entry_of(e, clockwise),
    ensures
        chained(extended(v, e, clockwise)),
        extended(v, e, clockwise).len() == v.len() + 2,
        chain_end(extended(v, e, clockwise), clockwise) == exit_of(e, clockwise),
        clockwise ==> pair(extended(v, e, clockwise), (v.len() / 2) as int) == e,
        !clockwise ==> pair(extended(v, e, clockwise), 0) == e,
        forall|j: int|
            0 <= j < v.len() / 2 ==> pair(extended(v, e, clockwise), if clockwise {
                j
            } else {
                j + 1
            }) == #[trigger] pair(v, j),
{
    let w = extended(v, e, clockwise);
    if clockwise {
        assert forall|j: int| 0 <= j < v.len() / 2 implies pair(w, j) == #[trigger] pair(v, j) by {
            assert(w[2 * j] == v[2 * j]);
            assert(w[2 * j + 1] == v[2 * j + 1]);
        }
        assert(pair(w, (v.len() / 2) as int) == e);
        assert forall|j: int| 0 < j < w.len() / 2 implies (#[trigger] pair(w, j)).0 == pair(w, j - 1).1 by {
            if j < v.len() / 2 {
                assert(pair(w, j) == pair(v, j));
                assert(pair(w, j - 1) == pair(v, j - 1));
            } else {
                assert(pair(w, j - 1) == pair(v, j - 1));
                assert(pair(v, j - 1).1 == v.last());
            }
        }
    } else {
        assert forall|j: int| 0 <= j < v.len() / 2 implies pair(w, j + 1) == #[trigger] pair(v, j) by {
            assert(w[2 * (j + 1)] == v[2 * j]);
            assert(w[2 * (j + 1) + 1] == v[2 * j + 1]);
        }
        assert(pair(w, 0) == e);
        assert forall|j: int| 0 < j < w.len() / 2 implies (#[trigger] pair(w, j)).0 == pair(w, j - 1).1 by {
            if j == 1 {
                assert(pair(w, 1) == pair(v, 0));
                assert(pair(v, 0).0 == v[0]);
            } else {
                assert(pair(w, j) == pair(v, j - 1));
                assert(pair(w, j - 1) == pair(v, j - 2));
            }
        }
    }
}

/// What claiming an edge that is untraced, or already traced to the same
/// polyline, changes: that edge becomes traced to the polyline, and nothing
/// else.
proof fn lemma_claim_effects(a: Map<u64, TerrainGridTile>, b: Map<u64, TerrainGridTile>, k: u64, e: Edge, id: PolyLineId)
    requires
        claimed(a, b, k, e, id),
        a.contains_key(k),
        !traced(a, k, e) || traced_to(a, k, e, id),
    ensures
        traced_to(b, k, e, id),
        keeps_traces(a, b),
        same_traces_except(a, b, id),
        new_traces_to(a, b, id),
        forall|j: u64, d: Edge| #![trigger traced(b, j, d)] (j != k || d != e) ==> traced(b, j, d) == traced(a, j, d) && (traced(a, j, d) ==> edge_map(b[j].edge_polylines@)[d] == edge_map(
            a[j].edge_polylines@,
        )[d]),
{
    assert forall|j: u64, d: Edge| #![trigger traced(b, j, d)] (j != k || d != e) implies traced(b, j, d) == traced(a, j, d) && (traced(a, j, d) ==> edge_map(b[j].edge_polylines@)[d] == edge_map(
        a[j].edge_polylines@,
    )[d]) by {
        if j != k && a.contains_key(j) {
            assert(b[j] == a[j]);
        }
    }
    assert forall|j: u64, d: Edge| #[trigger] traced(a, j, d) implies traced(b, j, d) && edge_map(b[j].edge_polylines@)[d] == edge_map(a[j].edge_polylines@)[d] by {
        if j != k {
            assert(b[j] == a[j]);
        }
    }
    assert forall|j: u64, d: Edge, other: PolyLineId| other != id implies (#[trigger] traced_to(b, j, d, other) <==> #[trigger] traced_to(a, j, d, other)) by {
        if j != k && a.contains_key(j) {
            assert(b[j] == a[j]);
        }
    }
    assert forall|j: u64, d: Edge| #[trigger] traced(b, j, d) && !traced(a, j, d) implies traced_to(b, j, d, id) by {
        if j != k && a.contains_key(j) {
            assert(b[j] == a[j]);
        }
    }
}

/// A claimed edge, added to the chain when it was untraced, keeps the
/// polyline running exactly along the edges traced to it.
proof fn lemma_claim_polyline(
    a: Map<u64, TerrainGridTile>,
    b: Map<u64, TerrainGridTile>,
    q: TilePosition,
    e: Edge,
    id: PolyLineId,
    v: Seq<Vertex>,
    listed: Seq<TilePosition>,
    added: bool,
    clockwise: bool,
)
    requires
        claimed(a, b, position_key(q), e, id),
        a.contains_key(position_key(q)),
        a[position_key(q)].position == q,
        !traced(a, position_key(q), e) || traced_to(a, position_key(q), e, id),
        added == !traced(a, position_key(q), e),
        added ==> v.len() == 0 || chain_end(v, clockwise) == entry_of(e, clockwise),
        chained(v),
        pairs_traced(a, v, listed, id),
        traces_listed(a, v, listed, id),
        tiles_listed(a, listed),
        listed.contains(q),
    ensures
        ({
            let w = if added {
                extended(v, e, clockwise)
            } else {
                v
            };
            &&& chained(w)
            &&& pairs_traced(b, w, listed, id)
            &&& traces_listed(b, w, listed, id)
            &&& tiles_listed(b, listed)
        }),
{
    let k = position_key(q);
    lemma_claim_effects(a, b, k, e, id);
    let w = if added {
        extended(v, e, clockwise)
    } else {
        v
    };
    if added {
        lemma_extended(v, e, clockwise);
    }
    // The pairs of `v` are pairs of `w`, at a known index.
    let shift = if added && !clockwise {
        1int
    } else {
        0int
    };
    assert forall|j: int| 0 <= j < v.len() / 2 implies pair(w, j + shift) == #[trigger] pair(v, j) by {
        if added {
            assert(pair(extended(v, e, clockwise), if clockwise {
                j
            } else {
                j + 1
            }) == pair(v, j));
        }
    }
    // Each traced pair stays traced.
    assert forall|x: u64, d: Edge| #[trigger] traced_to(a, x, d, id) implies traced_to(b, x, d, id) by {
        if x != k || d != e {
            assert(traced(b, x, d) == traced(a, x, d));
        }
    }
    assert forall|j: int| 0 <= j < w.len() / 2 implies #[trigger] traced_in(b, listed, pair(w, j), id) by {
        if added && ((clockwise && j == v.len() / 2) || (!clockwise && j == 0)) {
            assert(pair(w, j) == e);
            assert(traced_to(b, position_key(q), pair(w, j), id));
        } else {
            let i = j - shift;
            assert(0 <= i < v.len() / 2);
            assert(pair(w, j) == pair(v, i));
            assert(traced_in(a, listed, pair(v, i), id));
            let p = choose|p: TilePosition| listed.contains(p) && #[trigger] traced_to(a, position_key(p), pair(v, i), id);
            assert(traced_to(b, position_key(p), pair(w, j), id));
        }
    }
    assert forall|x: u64, d: Edge| #[trigger] traced_to(b, x, d, id) implies listed.contains(b[x].position) && has_pair(w, d) by {
        if x == k && d == e {
            assert(b[x].position == q);
            if added {
                let j = if clockwise {
                    (v.len() / 2) as int
                } else {
                    0
                };
                assert(pair(w, j) == d);
            } else {
                assert(traced_to(a, x, d, id));
                assert(has_pair(v, d));
                let i = choose|i: int| 0 <= i < v.len() / 2 && #[trigger] pair(v, i) == d;
                assert(pair(w, i + shift) == d);
            }
        } else {
            assert(traced(b, x, d) == traced(a, x, d));
            assert(traced_to(a, x, d, id));
            assert(b[x].position == a[x].position);
            assert(has_pair(v, d));
            let i = choose|i: int| 0 <= i < v.len() / 2 && #[trigger] pair(v, i) == d;
            assert(pair(w, i + shift) == d);
        }
    }
    assert(chained(w));
    assert(pairs_traced(b, w, listed, id));
    assert(traces_listed(b, w, listed, id));
    assert forall|i: int| 0 <= i < listed.len() implies b.contains_key(position_key(#[trigger] listed[i])) by {
        assert(a.contains_key(position_key(listed[i])));
        assert(a.dom().contains(position_key(listed[i])));
    }
    assert(tiles_listed(b, listed));
}

/// Where an open edge lies on a tile, it is not traced there yet.
pub open spec fn open_untraced(tiles: Map<u64, TerrainGridTile>, open: Map<Edge, TilePosition>) -> bool {
    forall|e: Edge| #[trigger]
        open.contains_key(e) && tiles.contains_key(position_key(open[e])) ==> !traced(
            tiles,
            position_key(open[e]),
            e,
        )
}

/// The edge is traced in some tile.
pub open spec fn traced_somewhere(tiles: Map<u64, TerrainGridTile>, e: Edge) -> bool {
    exists|k: u64| #[trigger] traced(tiles, k, e)
}

/// `b` keeps some of the open edges of `a`, and each one it dropped is
/// traced.
pub open spec fn closes_traced(a: Map<Edge, TilePosition>, b: Map<Edge, TilePosition>, tiles: Map<u64, TerrainGridTile>) -> bool {
    &&& forall|e: Edge| #[trigger] b.contains_key(e) ==> a.contains_key(e) && b[e] == a[e]
    &&& forall|e: Edge| #[trigger] a.contains_key(e) && !b.contains_key(e) ==> traced_somewhere(tiles, e)
}

/// `w` is `v` grown at its walking end: at the back walking clockwise, at
/// the front otherwise.
pub open spec fn grows_at_end(v: Seq<Vertex>, w: Seq<Vertex>, clockwise: bool) -> bool {
    &&& v.len() <= w.len()
    &&& clockwise ==> w.subrange(0, v.len() as int) == v
    &&& !clockwise ==> w.subrange(w.len() - v.len(), w.len() as int) == v
}

/// What holds between the grid before a walk and the grid now.
pub open spec fn walked_from(t0: Map<u64, TerrainGridTile>, t: Map<u64, TerrainGridTile>, id: PolyLineId) -> bool {
    &&& same_surfaces(t0, t)
    &&& keeps_traces(t0, t)
    &&& same_traces_except(t0, t, id)
    &&& new_traces_to(t0, t, id)
}

/// One claim of a walk keeps what holds since the walk began, and leaves
/// no more untraced surface edges, fewer when the claimed one was one.
proof fn lemma_claim_step(
    t0: Map<u64, TerrainGridTile>,
    a: Map<u64, TerrainGridTile>,
    b: Map<u64, TerrainGridTile>,
    o0: Map<Edge, TilePosition>,
    open_a: Map<Edge, TilePosition>,
    open_b: Map<Edge, TilePosition>,
    k: u64,
    e: Edge,
    id: PolyLineId,
)
    requires
        walked_from(t0, a, id),
        claimed(a, b, k, e, id),
        a.contains_key(k),
        a.dom().finite(),
        !traced(a, k, e) || traced_to(a, k, e, id),
        positions_fit(a),
        open_untraced(a, open_a),
        closes_traced(o0, open_a, a),
        open_b == open_a.remove(e),
    ensures
        walked_from(t0, b, id),
        traced_to(b, k, e, id),
        positions_fit(b),
        open_untraced(b, open_b),
        closes_traced(o0, open_b, b),
        untraced_pairs(b).len() <= untraced_pairs(a).len(),
        untraced_pairs(a).contains((k, e)) ==> untraced_pairs(b).len() < untraced_pairs(a).len(),
{
    lemma_claim_effects(a, b, k, e, id);
    lemma_untraced_shrinks(a, b, k, e);
    assert forall|x: u64| #[trigger] b.contains_key(x) implies i32::MIN < b[x].position.0 < i32::MAX && i32::MIN
        < b[x].position.1 < i32::MAX by {
        assert(a.contains_key(x));
    }
    assert forall|x: u64, d: Edge| #[trigger] traced(t0, x, d) implies traced(b, x, d) && edge_map(b[x].edge_polylines@)[d]
        == edge_map(t0[x].edge_polylines@)[d] by {
        assert(traced(a, x, d));
    }
    assert forall|x: u64, d: Edge| #[trigger] traced(b, x, d) && !traced(t0, x, d) implies traced_to(b, x, d, id) by {
        if !traced(a, x, d) {
        } else {
            assert(traced_to(a, x, d, id));
        }
    }
    assert forall|x: u64, d: Edge, other: PolyLineId| other != id implies (#[trigger] traced_to(b, x, d, other) <==> #[trigger] traced_to(t0, x, d, other)) by {
        assert(traced_to(b, x, d, other) <==> traced_to(a, x, d, other));
        assert(traced_to(a, x, d, other) <==> traced_to(t0, x, d, other));
    }
    assert forall|x: u64| #[trigger] t0.contains_key(x) implies t0[x].gid == b[x].gid && t0[x].position == b[x].position
        && t0[x].vertices == b[x].vertices && t0[x].surface_edges == b[x].surface_edges by {
        assert(a.contains_key(x));
    }
    assert(t0.dom() == b.dom());
    assert forall|d: Edge| #[trigger] open_b.contains_key(d) && b.contains_key(position_key(open_b[d])) implies !traced(
        b,
        position_key(open_b[d]),
        d,
    ) by {
        assert(open_a.contains_key(d));
        assert(d != e);
    }
    assert forall|d: Edge| #[trigger] o0.contains_key(d) && !open_b.contains_key(d) implies traced_somewhere(b, d) by {
        if d == e {
            assert(traced(b, k, e));
        } else {
            assert(!open_a.contains_key(d));
            assert(traced_somewhere(a, d));
            let x = choose|x: u64| #[trigger] traced(a, x, d);
            assert(traced(b, x, d));
        }
    }
}

/// After claiming an edge of the tile at `q`, every tile listed before and
/// `q` itself hold an edge traced to the polyline.
proof fn lemma_claim_used(
    a: Map<u64, TerrainGridTile>,
    b: Map<u64, TerrainGridTile>,
    q: TilePosition,
    e: Edge,
    id: PolyLineId,
    listed: Seq<TilePosition>,
)
    requires
        claimed(a, b, position_key(q), e, id),
        a.contains_key(position_key(q)),
        !traced(a, position_key(q), e) || traced_to(a, position_key(q), e, id),
        tiles_used(a, listed, id),
    ensures
        tiles_used(
            b,
            if listed.contains(q) {
                listed
            } else {
                listed.push(q)
            },
            id,
        ),
{
    lemma_claim_effects(a, b, position_key(q), e, id);
    let more = if listed.contains(q) {
        listed
    } else {
        listed.push(q)
    };
    assert(used_by(b, q, id)) by {
        assert(traced_to(b, position_key(q), e, id));
    }
    assert forall|i: int| 0 <= i < more.len() implies used_by(b, #[trigger] more[i], id) by {
        if i < listed.len() {
            assert(more[i] == listed[i]);
            assert(used_by(a, listed[i], id));
            let d = choose|d: Edge| #[trigger] traced_to(a, position_key(listed[i]), d, id);
            assert(traced_to(b, position_key(listed[i]), d, id));
        }
    }
}

/// Listing one more tile, one that is in the grid, keeps a polyline
/// running along its traced edges.
proof fn lemma_note_tile(tiles: Map<u64, TerrainGridTile>, v: Seq<Vertex>, listed: Seq<TilePosition>, q: TilePosition, id: PolyLineId)
    requires
        pairs_traced(tiles, v, listed, id),
        traces_listed(tiles, v, listed, id),
        tiles_listed(tiles, listed),
        tiles.contains_key(position_key(q)),
    ensures
        ({
            let more = if listed.contains(q) {
                listed
            } else {
                listed.push(q)
            };
            &&& pairs_traced(tiles, v, more, id)
            &&& traces_listed(tiles, v, more, id)
            &&& tiles_listed(tiles, more)
            &&& more.contains(q)
        }),
{
    let more = if listed.contains(q) {
        listed
    } else {
        listed.push(q)
    };
    assert forall|p: TilePosition| listed.contains(p) implies more.contains(p) by {
        if !listed.contains(q) {
            let i = choose|i: int| 0 <= i < listed.len() && listed[i] == p;
            assert(more[i] == p);
        }
    }
    if !listed.contains(q) {
        assert(more[listed.len() as int] == q);
    }
    assert forall|j: int| 0 <= j < v.len() / 2 implies #[trigger] traced_in(tiles, more, pair(v, j), id) by {
        assert(traced_in(tiles, listed, pair(v, j), id));
        let p = choose|p: TilePosition| listed.contains(p) && #[trigger] traced_to(tiles, position_key(p), pair(v, j), id);
        assert(more.contains(p));
    }
    assert forall|i: int| 0 <= i < more.len() implies tiles.contains_key(position_key(#[trigger] more[i])) by {
        if i < listed.len() {
            assert(more[i] == listed[i]);
        }
    }
}

/// Adds the edge's two vertices at the walking end of the polyline.
fn add_edge_vertices(poly: &mut TerrainPolyLineBuilder, e: Edge, clockwise: bool)
    ensures
        final(poly).id == old(poly).id,
        final(poly).tiles == old(poly).tiles,
        final(poly).vertices@ == extended(old(poly).vertices@, e, clockwise),
{
    if clockwise {
        poly.vertices.push_back(e.0);
        poly.vertices.push_back(e.1);
    } else {
        poly.vertices.push_front(e.1);
        poly.vertices.push_front(e.0);
        proof {
            assert(poly.vertices@ =~= seq![e.0, e.1] + old(poly).vertices@);
        }
    }
}

/// Notes that the polyline passes through the tile at `q`.
fn note_tile(poly: &mut TerrainPolyLineBuilder, q: TilePosition)
    ensures
        final(poly).id == old(poly).id,
        final(poly).vertices == old(poly).vertices,
        final(poly).tiles@ == if old(poly).tiles@.contains(q) {
            old(poly).tiles@
        } else {
            old(poly).tiles@.push(q)
        },
{
    let mut i: usize = 0;
    while i < poly.tiles.len()
        invariant
            *poly == *old(poly),
            i <= poly.tiles@.len(),
            forall|j: int| 0 <= j < i ==> poly.tiles@[j] != q,
        decreases poly.tiles@.len() - i,
    {
        let p = poly.tiles[i];
        if p.0 == q.0 && p.1 == q.1 {
            proof {
                assert(poly.tiles@[i as int] == q);
            }
            return;
        }
        i = i + 1;
    }
    poly.tiles.push(q);
}

/// Two walks one after the other are one walk.
proof fn lemma_walked_trans(a: Map<u64, TerrainGridTile>, b: Map<u64, TerrainGridTile>, c: Map<u64, TerrainGridTile>, id: PolyLineId)
    requires
        walked_from(a, b, id),
        walked_from(b, c, id),
    ensures
        walked_from(a, c, id),
{
    assert forall|x: u64, d: Edge| #[trigger] traced(a, x, d) implies traced(c, x, d) && edge_map(c[x].edge_polylines@)[d]
        == edge_map(a[x].edge_polylines@)[d] by {
        assert(traced(b, x, d));
    }
    assert forall|x: u64, d: Edge| #[trigger] traced(c, x, d) && !traced(a, x, d) implies traced_to(c, x, d, id) by {
        if traced(b, x, d) {
            assert(traced_to(b, x, d, id));
        }
    }
    assert forall|x: u64, d: Edge, other: PolyLineId| other != id implies (#[trigger] traced_to(c, x, d, other) <==> #[trigger] traced_to(a, x, d, other)) by {
        assert(traced_to(c, x, d, other) <==> traced_to(b, x, d, other));
        assert(traced_to(b, x, d, other) <==> traced_to(a, x, d, other));
    }
    assert forall|x: u64| #[trigger] a.contains_key(x) implies a[x].gid == c[x].gid && a[x].position == c[x].position
        && a[x].vertices == c[x].vertices && a[x].surface_edges == c[x].surface_edges by {
        assert(b.contains_key(x));
    }
}

/// Growing twice at the same end is growing at that end.
proof fn lemma_grows_trans(u: Seq<Vertex>, v: Seq<Vertex>, w: Seq<Vertex>, clockwise: bool)
    requires
        grows_at_end(u, v, clockwise),
        grows_at_end(v, w, clockwise),
    ensures
        grows_at_end(u, w, clockwise),
        clockwise ==> forall|i: int| 0 <= i < v.len() ==> #[trigger] w[i] == v[i],
{
    if clockwise {
        assert forall|i: int| 0 <= i < v.len() implies #[trigger] w[i] == v[i] by {
            assert(w.subrange(0, v.len() as int)[i] == w[i]);
        }
        assert(w.subrange(0, u.len() as int) =~= u) by {
            assert forall|i: int| 0 <= i < u.len() implies w.subrange(0, u.len() as int)[i] == u[i] by {
                assert(v.subrange(0, u.len() as int)[i] == v[i]);
            }
        }
    } else {
        assert(w.subrange(w.len() - u.len(), w.len() as int) =~= u) by {
            assert forall|i: int| 0 <= i < u.len() implies w.subrange(w.len() - u.len(), w.len() as int)[i] == u[i] by {
                let d = w.len() - v.len();
                assert(w.subrange(d, w.len() as int)[v.len() - u.len() + i] == w[d + v.len() - u.len() + i]);
                assert(v.subrange(v.len() - u.len(), v.len() as int)[i] == v[v.len() - u.len() + i]);
            }
        }
    }
}

/// Adding an edge grows a chain at the walking end.
proof fn lemma_grows_extended(v: Seq<Vertex>, e: Edge, clockwise: bool)
    ensures
        grows_at_end(v, extended(v, e, clockwise), clockwise),
{
    let w = extended(v, e, clockwise);
    if clockwise {
        assert(w.subrange(0, v.len() as int) =~= v);
    } else {
        assert(w.subrange(w.len() - v.len(), w.len() as int) =~= v);
    }
}

/// A chain grows at no end when it stays the same.
proof fn lemma_grows_same(v: Seq<Vertex>, clockwise: bool)
    ensures
        grows_at_end(v, v, clockwise),
{
    assert(v.subrange(0, v.len() as int) =~= v);
    assert(v.subrange(v.len() - v.len(), v.len() as int) =~= v);
}

/// There are finitely many untraced surface edges.
proof fn lemma_untraced_finite(tiles: Map<u64, TerrainGridTile>)
    requires
        tiles.dom().finite(),
    ensures
        untraced_pairs(tiles).finite(),
{
    let fwd = |k: u64| tiles[k].surface_edges.data@.to_set().map(|e: Edge| (k, e));
    let rev = |p: (u64, Edge)| p.0;
    assert forall|k: u64| tiles.dom().contains(k) implies #[trigger] fwd(k).finite() by {
        vstd::seq_lib::seq_to_set_is_finite(tiles[k].surface_edges.data@);
        tiles[k].surface_edges.data@.to_set().lemma_map_finite(|e: Edge| (k, e));
    }
    tiles.dom().lemma_map_flatten_by_finite(fwd, rev);
    let all = tiles.dom().map_flatten_by(fwd, rev);
    assert forall|p: (u64, Edge)| untraced_pairs(tiles).contains(p) implies all.contains(p) by {
        assert(tiles[p.0].surface_edges.data@.to_set().contains(p.1));
        assert(fwd(p.0).contains(p));
    }
    vstd::set_lib::lemma_set_subset_finite(all, untraced_pairs(tiles));
}

/// Tracing more edges over the same surfaces leaves no more untraced, and
/// fewer when one of them was untraced.
proof fn lemma_untraced_shrinks(a: Map<u64, TerrainGridTile>, b: Map<u64, TerrainGridTile>, k: u64, e: Edge)
    requires
        a.dom().finite(),
        same_surfaces(a, b),
        keeps_traces(a, b),
    ensures
        untraced_pairs(b).len() <= untraced_pairs(a).len(),
        untraced_pairs(a).contains((k, e)) && traced(b, k, e) ==> untraced_pairs(b).len() < untraced_pairs(
            a,
        ).len(),
{
    lemma_untraced_finite(a);
    assert(untraced_pairs(b).subset_of(untraced_pairs(a))) by {
        assert forall|p: (u64, Edge)| untraced_pairs(b).contains(p) implies untraced_pairs(a).contains(p) by {
            if traced(a, p.0, p.1) {
                assert(traced(b, p.0, p.1));
            }
        }
    }
    vstd::set_lib::lemma_len_subset(untraced_pairs(b), untraced_pairs(a));
    if untraced_pairs(a).contains((k, e)) && traced(b, k, e) {
        let smaller = untraced_pairs(a).remove((k, e));
        assert(untraced_pairs(b).subset_of(smaller));
        vstd::set_lib::lemma_len_subset(untraced_pairs(b), smaller);
    }
}

/// The last index of `edges` whose entry is `v`, found from the end.
fn find_last_entry(edges: &Vec<Edge>, v: Vertex, clockwise: bool) -> (index: Option<usize>)
    ensures
        match index {
            Some(i) => last_entry(edges@, v, clockwise) == Some(i as int) && is_last_entry(
                edges@,
                v,
                clockwise,
                i as int,
            ),
            None => last_entry(edges@, v, clockwise) is None,
        },
{
    let mut i: usize = edges.len();
    while i > 0
        invariant
            i <= edges@.len(),
            forall|j: int| i <= j < edges@.len() ==> entry_of(#[trigger] edges@[j], clockwise) != v,
        decreases i,
    {
        let e = edges[i - 1];
        let hit = if clockwise {
            e.0.0 == v.0 && e.0.1 == v.1
        } else {
            e.1.0 == v.0 && e.1.1 == v.1
        };
        if hit {
            proof {
                let w = (i - 1) as int;
                assert(is_last_entry(edges@, v, clockwise, w));
                assert forall|x: int| is_last_entry(edges@, v, clockwise, x) implies x == w by {
                    if x < w {
                        assert(entry_of(edges@[w], clockwise) == v);
                    } else if x > w {
                        assert(entry_of(edges@[x], clockwise) == v);
                    }
                }
            }
            return Some(i - 1);
        }
        i = i - 1;
    }
    proof {
        assert forall|x: int| !is_last_entry(edges@, v, clockwise, x) by {
            if 0 <= x < edges@.len() {
                assert(entry_of(edges@[x], clockwise) != v);
            }
        }
    }
    None
}

impl TerrainGrid {
    /// Traces the edge `e` of the tile at `q` to the polyline `id`, and
    /// closes it; says whether it was untraced there before.
    fn claim_edge(&mut self, q: TilePosition, e: Edge, id: PolyLineId) -> (added: bool)
        requires
            old(self).wf(),
            old(self).tiles@.contains_key(position_key(q)),
            unique_edges(old(self).open_edges@),
        ensures
            final(self).wf(),
            unique_edges(final(self).open_edges@),
            edge_map(final(self).open_edges@) == edge_map(old(self).open_edges@).remove(e),
            added == !traced(old(self).tiles@, position_key(q), e),
            claimed(old(self).tiles@, final(self).tiles@, position_key(q), e, id),
    {
        let key = key_of(q);
        let _ = take_edge(&mut self.open_edges, e);
        let ghost before = self.tiles@;
        let mut tile = self.tiles.remove(&key).unwrap();
        let added = match find_edge(&tile.edge_polylines, e) {
            Some(i) => {
                proof {
                    lemma_edge_map_at(tile.edge_polylines@, i as int);
                }
                false
            },
            None => {
                proof {
                    lemma_edge_map_absent(tile.edge_polylines@, e);
                }
                true
            },
        };
        put_edge(&mut tile.edge_polylines, e, id);
        self.tiles.insert(key, tile);
        proof {
            assert(self.tiles@.dom() =~= before.dom());
        }
        added
    }

    /// The surface edge at index `i` of the tile at `q`.
    fn surface_edge(&self, q: TilePosition, i: usize) -> (e: Edge)
        requires
            self.tiles@.contains_key(position_key(q)),
            i < self.tiles@[position_key(q)].surface_edges.data@.len(),
        ensures
            e == self.tiles@[position_key(q)].surface_edges.data@[i as int],
    {
        self.tiles.get(&key_of(q)).unwrap().surface_edges.data[i]
    }

    /// Whether the edge is traced in the tile at `q`.
    fn is_traced(&self, q: TilePosition, e: Edge) -> (is: bool)
        requires
            self.wf(),
            self.tiles@.contains_key(position_key(q)),
        ensures
            is == traced(self.tiles@, position_key(q), e),
    {
        let t = self.tiles.get(&key_of(q)).unwrap();
        match find_edge(&t.edge_polylines, e) {
            Some(i) => {
                proof {
                    lemma_edge_map_at(t.edge_polylines@, i as int);
                }
                true
            },
            None => {
                proof {
                    lemma_edge_map_absent(t.edge_polylines@, e);
                }
                false
            },
        }
    }

    /// The last surface edge of the tile at `q` whose entry is `v`.
    fn entry_index(&self, q: TilePosition, v: Vertex, clockwise: bool) -> (index: Option<usize>)
        requires
            self.tiles@.contains_key(position_key(q)),
        ensures
            match index {
                Some(i) => last_entry(self.tiles@[position_key(q)].surface_edges.data@, v, clockwise)
                    == Some(i as int) && is_last_entry(
                    self.tiles@[position_key(q)].surface_edges.data@,
                    v,
                    clockwise,
                    i as int,
                ),
                None => last_entry(self.tiles@[position_key(q)].surface_edges.data@, v, clockwise) is None,
            },
    {
        find_last_entry(&self.tiles.get(&key_of(q)).unwrap().surface_edges.data, v, clockwise)
    }

    /// The candidate of the tile at `q`, if there is a tile there.
    fn add_connected_edge(&self, e: Edge, q: TilePosition, clockwise: bool) -> (c: Option<(TilePosition, Edge)>)
        requires
            self.wf(),
        ensures
            c == candidate(self.tiles@, q, e, clockwise),
    {
        let key = key_of(q);
        if !self.tiles.contains_key(&key) {
            return None;
        }
        let exit = if clockwise {
            e.1
        } else {
            e.0
        };
        match self.entry_index(q, exit, clockwise) {
            Some(i) => {
                let edge = self.surface_edge(q, i);
                if self.is_traced(q, edge) {
                    None
                } else {
                    Some((q, edge))
                }
            },
            None => None,
        }
    }

    /// Where a walk leaving `e` in the tile at `p` goes on, if exactly one
    /// neighbouring tile continues it.
    fn get_connected_edge(&self, p: TilePosition, e: Edge, clockwise: bool) -> (c: Option<(TilePosition, Edge)>)
        requires
            self.wf(),
            i32::MIN < p.0 < i32::MAX,
            i32::MIN < p.1 < i32::MAX,
        ensures
            c == connected_edge(self.tiles@, p, e, clockwise),
    {
        let mut tile_positions: Vec<(TilePosition, Edge)> = Vec::with_capacity(4);
        let c1 = self.add_connected_edge(e, (p.0 - 1, p.1), clockwise);
        if let Some(c) = c1 {
            tile_positions.push(c);
        }
        let c2 = self.add_connected_edge(e, (p.0 + 1, p.1), clockwise);
        if let Some(c) = c2 {
            tile_positions.push(c);
        }
        let c3 = self.add_connected_edge(e, (p.0, p.1 - 1), clockwise);
        if let Some(c) = c3 {
            tile_positions.push(c);
        }
        let c4 = self.add_connected_edge(e, (p.0, p.1 + 1), clockwise);
        if let Some(c) = c4 {
            tile_positions.push(c);
        }
        proof {
            assert(tile_positions@.len() == found(c1) + found(c2) + found(c3) + found(c4));
        }
        if tile_positions.len() == 1 {
            proof {
                if c1 is Some {
                    assert(tile_positions@[0] == c1->Some_0);
                } else if c2 is Some {
                    assert(tile_positions@[0] == c2->Some_0);
                } else if c3 is Some {
                    assert(tile_positions@[0] == c3->Some_0);
                } else {
                    assert(tile_positions@[0] == c4->Some_0);
                }
            }
            return Some(tile_positions[0]);
        }
        None
    }
}

/// The walk leaving `a` goes straight on into `b`.
pub open spec fn joins(a: Edge, b: Edge, clockwise: bool) -> bool {
    exit_of(a, clockwise) == entry_of(b, clockwise)
}

/// The index after `i` among `len` surface edges, in the walking
/// direction, going round.
pub open spec fn next_index(len: int, i: int, clockwise: bool) -> int {
    if clockwise {
        if i + 1 == len {
            0
        } else {
            i + 1
        }
    } else {
        if i == 0 {
            len - 1
        } else {
            i - 1
        }
    }
}

/// A walk along the surface edges of the tile at `q` has nowhere to go on
/// from `last`: no surface edge there starts where `last` starts, or the
/// surface edge after the one that does either does not join on to `last`
/// or is traced already.
pub open spec fn tile_walk_done(tiles: Map<u64, TerrainGridTile>, q: TilePosition, last: Edge, clockwise: bool) -> bool {
    let k = position_key(q);
    let edges = tiles[k].surface_edges.data@;
    ||| last_entry(edges, entry_of(last, clockwise), clockwise) is None
    ||| exists|i: int|
        #![trigger edges[i]]
        0 <= i < edges.len() && entry_of(edges[i], clockwise) == entry_of(last, clockwise) && {
            let nx = edges[next_index(edges.len() as int, i, clockwise)];
            !joins(last, nx, clockwise) || traced(tiles, k, nx)
        }
}

/// A walk in the given direction ended on the edge `last` of the tile at
/// `q`: the edge is traced to the polyline, the polyline's walking end is
/// where `last` leaves, the tile's own surface goes on no further, and no
/// single neighbouring tile continues the walk.
pub open spec fn walk_ended(
    tiles: Map<u64, TerrainGridTile>,
    v: Seq<Vertex>,
    id: PolyLineId,
    q: TilePosition,
    last: Edge,
    clockwise: bool,
) -> bool {
    &&& traced_to(tiles, position_key(q), last, id)
    &&& v.len() == 0 || chain_end(v, clockwise) == exit_of(last, clockwise)
    &&& tile_walk_done(tiles, q, last, clockwise)
    &&& connected_edge(tiles, q, last, clockwise) is None
}

/// The surface edge of the tile at `q` that a walk leaving `e` would go on
/// with, traced or not: the last surface edge whose entry is where the walk
/// leaves `e`.
pub open spec fn candidate_any(tiles: Map<u64, TerrainGridTile>, q: TilePosition, e: Edge, clockwise: bool) -> Option<(TilePosition, Edge)> {
    let k = position_key(q);
    if tiles.contains_key(k) {
        let edges = tiles[k].surface_edges.data@;
        match last_entry(edges, exit_of(e, clockwise), clockwise) {
            Some(i) => Some((q, edges[i])),
            None => None,
        }
    } else {
        None
    }
}

/// Where the surface goes on from `e` in the tile at `p`, read without
/// regard to what is traced: the edge `connected_edge` would pick if
/// nothing were traced.
pub open spec fn continuation(tiles: Map<u64, TerrainGridTile>, p: TilePosition, e: Edge, clockwise: bool) -> Option<(TilePosition, Edge)> {
    let c1 = candidate_any(tiles, (sub1(p.0), p.1), e, clockwise);
    let c2 = candidate_any(tiles, (add1(p.0), p.1), e, clockwise);
    let c3 = candidate_any(tiles, (p.0, sub1(p.1)), e, clockwise);
    let c4 = candidate_any(tiles, (p.0, add1(p.1)), e, clockwise);
    if found(c1) + found(c2) + found(c3) + found(c4) != 1 {
        None
    } else if c1 is Some {
        c1
    } else if c2 is Some {
        c2
    } else if c3 is Some {
        c3
    } else {
        c4
    }
}

/// The polyline `id` with vertices `v` ends, in the given direction, on the
/// edge `last` of the tile at `q`, and could not have gone on: the tile's
/// own surface goes no further, and where the surface continues into a
/// neighbouring tile, that edge is traced to this polyline or to one
/// numbered before it.
pub open spec fn settled_at(
    tiles: Map<u64, TerrainGridTile>,
    v: Seq<Vertex>,
    id: PolyLineId,
    q: TilePosition,
    last: Edge,
    clockwise: bool,
) -> bool {
    &&& traced_to(tiles, position_key(q), last, id)
    &&& v.len() == 0 || chain_end(v, clockwise) == exit_of(last, clockwise)
    &&& tile_walk_done(tiles, q, last, clockwise)
    &&& continuation(tiles, q, last, clockwise) matches Some(c) ==> traced(tiles, position_key(c.0), c.1)
        && edge_map(tiles[position_key(c.0)].edge_polylines@)[c.1] <= id
}

/// The polyline's end in the given direction is settled at some edge.
pub open spec fn end_settled(tiles: Map<u64, TerrainGridTile>, v: Seq<Vertex>, id: PolyLineId, clockwise: bool) -> bool {
    exists|q: TilePosition, last: Edge| #[trigger] settled_at(tiles, v, id, q, last, clockwise)
}

/// Where no single neighbour has an untraced continuation and every
/// traced edge belongs to a polyline numbered at most `id`, the one
/// continuation there is, if any, is traced to such a polyline.
proof fn lemma_walk_settled(
    tiles: Map<u64, TerrainGridTile>,
    v: Seq<Vertex>,
    id: PolyLineId,
    q: TilePosition,
    last: Edge,
    clockwise: bool,
)
    requires
        walk_ended(tiles, v, id, q, last, clockwise),
        forall|k: u64, e: Edge| #[trigger] traced(tiles, k, e) ==> edge_map(tiles[k].edge_polylines@)[e] <= id,
    ensures
        settled_at(tiles, v, id, q, last, clockwise),
{
    let n1 = (sub1(q.0), q.1);
    let n2 = (add1(q.0), q.1);
    let n3 = (q.0, sub1(q.1));
    let n4 = (q.0, add1(q.1));
    assert(found(candidate_any(tiles, n1, last, clockwise)) == 0 ==> found(candidate(tiles, n1, last, clockwise)) == 0);
    assert(found(candidate_any(tiles, n2, last, clockwise)) == 0 ==> found(candidate(tiles, n2, last, clockwise)) == 0);
    assert(found(candidate_any(tiles, n3, last, clockwise)) == 0 ==> found(candidate(tiles, n3, last, clockwise)) == 0);
    assert(found(candidate_any(tiles, n4, last, clockwise)) == 0 ==> found(candidate(tiles, n4, last, clockwise)) == 0);
    if let Some(c) = continuation(tiles, q, last, clockwise) {
        let k = position_key(c.0);
        if !traced(tiles, k, c.1) {
            assert(candidate(tiles, c.0, last, clockwise) == Some(c));
            assert(connected_edge(tiles, q, last, clockwise) is Some);
        }
    }
}

/// A settled end stays settled while the surfaces stay and every trace
/// stays where it is.
proof fn lemma_settled_stays(
    a: Map<u64, TerrainGridTile>,
    b: Map<u64, TerrainGridTile>,
    v: Seq<Vertex>,
    id: PolyLineId,
    q: TilePosition,
    last: Edge,
    clockwise: bool,
)
    requires
        settled_at(a, v, id, q, last, clockwise),
        same_surfaces(a, b),
        keeps_traces(a, b),
    ensures
        settled_at(b, v, id, q, last, clockwise),
{
    let k = position_key(q);
    assert(traced(a, k, last));
    assert(a.contains_key(k));
    assert(a[k].surface_edges == b[k].surface_edges);
    let n1 = (sub1(q.0), q.1);
    let n2 = (add1(q.0), q.1);
    let n3 = (q.0, sub1(q.1));
    let n4 = (q.0, add1(q.1));
    assert forall|n: TilePosition| #[trigger] candidate_any(b, n, last, clockwise) == candidate_any(a, n, last, clockwise) by {
        let kn = position_key(n);
        if a.contains_key(kn) {
            assert(a[kn].surface_edges == b[kn].surface_edges);
        } else {
            assert(!b.contains_key(kn));
        }
    }
    assert(candidate_any(b, n1, last, clockwise) == candidate_any(a, n1, last, clockwise));
    assert(candidate_any(b, n2, last, clockwise) == candidate_any(a, n2, last, clockwise));
    assert(candidate_any(b, n3, last, clockwise) == candidate_any(a, n3, last, clockwise));
    assert(candidate_any(b, n4, last, clockwise) == candidate_any(a, n4, last, clockwise));
    assert(continuation(b, q, last, clockwise) == continuation(a, q, last, clockwise));
    if let Some(c) = continuation(a, q, last, clockwise) {
        assert(traced(a, position_key(c.0), c.1));
    }
    let edges = a[k].surface_edges.data@;
    if last_entry(edges, entry_of(last, clockwise), clockwise) is Some {
        let i = choose|i: int|
            #![trigger edges[i]]
            0 <= i < edges.len() && entry_of(edges[i], clockwise) == entry_of(last, clockwise) && {
                let nx = edges[next_index(edges.len() as int, i, clockwise)];
                !joins(last, nx, clockwise) || traced(a, k, nx)
            };
        let nx = edges[next_index(edges.len() as int, i, clockwise)];
        if traced(a, k, nx) {
            assert(traced(b, k, nx));
        }
        assert(tile_walk_done(b, q, last, clockwise));
    }
}

/// A settled end stays settled while the polyline grows only at its other
/// end.
proof fn lemma_settled_other_end(
    tiles: Map<u64, TerrainGridTile>,
    v: Seq<Vertex>,
    w: Seq<Vertex>,
    id: PolyLineId,
    q: TilePosition,
    last: Edge,
    clockwise: bool,
)
    requires
        settled_at(tiles, v, id, q, last, clockwise),
        v.len() > 0,
        grows_at_end(v, w, !clockwise),
    ensures
        settled_at(tiles, w, id, q, last, clockwise),
{
    if clockwise {
        assert(w.subrange(w.len() - v.len(), w.len() as int) == v);
        assert(w.last() == w.subrange(w.len() - v.len(), w.len() as int)[v.len() - 1]);
    } else {
        assert(w.subrange(0, v.len() as int) == v);
        assert(w[0] == w.subrange(0, v.len() as int)[0]);
    }
}

/// A settled end stays settled while the surfaces and every trace stay.
proof fn lemma_end_settled_stays(
    a: Map<u64, TerrainGridTile>,
    b: Map<u64, TerrainGridTile>,
    v: Seq<Vertex>,
    id: PolyLineId,
    clockwise: bool,
)
    requires
        end_settled(a, v, id, clockwise),
        same_surfaces(a, b),
        keeps_traces(a, b),
    ensures
        end_settled(b, v, id, clockwise),
{
    let (q, last) = choose|q: TilePosition, last: Edge| #[trigger] settled_at(a, v, id, q, last, clockwise);
    lemma_settled_stays(a, b, v, id, q, last, clockwise);
}

/// A polyline made by a walk clockwise from an untraced edge and then a
/// walk counterclockwise is settled at both ends, when every edge traced
/// before belongs to a polyline numbered below it.
proof fn lemma_line_ends_settled(
    t0: Map<u64, TerrainGridTile>,
    t1: Map<u64, TerrainGridTile>,
    t2: Map<u64, TerrainGridTile>,
    v1: Seq<Vertex>,
    v2: Seq<Vertex>,
    id: PolyLineId,
)
    requires
        forall|k: u64, e: Edge| #[trigger] traced(t0, k, e) ==> edge_map(t0[k].edge_polylines@)[e] < id,
        walked_from(t0, t1, id),
        walked_from(t1, t2, id),
        walked_from(t0, t2, id),
        v1.len() > 0,
        grows_at_end(v1, v2, false),
        exists|q: TilePosition, last: Edge| #[trigger] walk_ended(t1, v1, id, q, last, true),
        exists|q: TilePosition, last: Edge| #[trigger] walk_ended(t2, v2, id, q, last, false),
    ensures
        end_settled(t2, v2, id, true),
        end_settled(t2, v2, id, false),
{
    assert forall|k: u64, e: Edge| #[trigger] traced(t1, k, e) implies edge_map(t1[k].edge_polylines@)[e] <= id by {
        if traced(t0, k, e) {
            assert(edge_map(t1[k].edge_polylines@)[e] == edge_map(t0[k].edge_polylines@)[e]);
        } else {
            assert(traced_to(t1, k, e, id));
        }
    }
    assert forall|k: u64, e: Edge| #[trigger] traced(t2, k, e) implies edge_map(t2[k].edge_polylines@)[e] <= id by {
        if traced(t0, k, e) {
            assert(edge_map(t2[k].edge_polylines@)[e] == edge_map(t0[k].edge_polylines@)[e]);
        } else {
            assert(traced_to(t2, k, e, id));
        }
    }
    let (q1, l1) = choose|q: TilePosition, last: Edge| #[trigger] walk_ended(t1, v1, id, q, last, true);
    lemma_walk_settled(t1, v1, id, q1, l1, true);
    lemma_settled_stays(t1, t2, v1, id, q1, l1, true);
    lemma_settled_other_end(t2, v1, v2, id, q1, l1, true);
    assert(settled_at(t2, v2, id, q1, l1, true));
    let (q2, l2) = choose|q: TilePosition, last: Edge| #[trigger] walk_ended(t2, v2, id, q, last, false);
    lemma_walk_settled(t2, v2, id, q2, l2, false);
    assert(settled_at(t2, v2, id, q2, l2, false));
}

/// What a walk keeps true of the grid: its shape, its open edges, and how
/// it relates to the grid `t0` and the open edges `o0` the walk began with.
pub open spec fn walk_state(g: TerrainGrid, t0: Map<u64, TerrainGridTile>, o0: Map<Edge, TilePosition>, id: PolyLineId) -> bool {
    &&& g.wf()
    &&& positions_fit(g.tiles@)
    &&& unique_edges(g.open_edges@)
    &&& open_untraced(g.tiles@, edge_map(g.open_edges@))
    &&& walked_from(t0, g.tiles@, id)
    &&& closes_traced(o0, edge_map(g.open_edges@), g.tiles@)
    &&& t0.dom().finite()
}

impl TerrainGrid {
    /// The number of surface edges of the tile at `q`.
    fn surface_len(&self, q: TilePosition) -> (n: usize)
        requires
            self.tiles@.contains_key(position_key(q)),
        ensures
            n == self.tiles@[position_key(q)].surface_edges.data@.len(),
    {
        self.tiles.get(&key_of(q)).unwrap().surface_edges.data.len()
    }

    /// Traces the edge `e` of the tile at `q` to the polyline and, when it
    /// was untraced, adds its vertices at the walking end; when asked, notes
    /// that the polyline passes through the tile.
    fn claim_and_add(
        &mut self,
        poly: &mut TerrainPolyLineBuilder,
        q: TilePosition,
        e: Edge,
        clockwise: bool,
        note: bool,
        Ghost(t0): Ghost<Map<u64, TerrainGridTile>>,
        Ghost(o0): Ghost<Map<Edge, TilePosition>>,
    ) -> (added: bool)
        requires
            walk_state(*old(self), t0, o0, old(poly).id),
            old(self).tiles@.contains_key(position_key(q)),
            old(self).tiles@[position_key(q)].position == q,
            traces_polyline(old(self).tiles@, *old(poly)),
            note || old(poly).tiles@.contains(q),
            !traced(old(self).tiles@, position_key(q), e) || traced_to(old(self).tiles@, position_key(q), e, old(poly).id),
            !traced(old(self).tiles@, position_key(q), e) ==> old(poly).vertices@.len() == 0 || chain_end(
                old(poly).vertices@,
                clockwise,
            ) == entry_of(e, clockwise),
            traced(old(self).tiles@, position_key(q), e) ==> old(poly).vertices@.len() == 0 || chain_end(
                old(poly).vertices@,
                clockwise,
            ) == exit_of(e, clockwise),
        ensures
            walk_state(*final(self), t0, o0, old(poly).id),
            walked_from(old(self).tiles@, final(self).tiles@, old(poly).id),
            added == !traced(old(self).tiles@, position_key(q), e),
            traced_to(final(self).tiles@, position_key(q), e, old(poly).id),
            final(poly).id == old(poly).id,
            final(poly).tiles@ == if old(poly).tiles@.contains(q) {
                old(poly).tiles@
            } else {
                old(poly).tiles@.push(q)
            },
            final(poly).vertices@ == if added {
                extended(old(poly).vertices@, e, clockwise)
            } else {
                old(poly).vertices@
            },
            grows_at_end(old(poly).vertices@, final(poly).vertices@, clockwise),
            traces_polyline(final(self).tiles@, *final(poly)),
            final(poly).vertices@.len() == 0 || chain_end(final(poly).vertices@, clockwise) == exit_of(e, clockwise),
            untraced_pairs(final(self).tiles@).len() <= untraced_pairs(old(self).tiles@).len(),
            untraced_pairs(old(self).tiles@).contains((position_key(q), e)) ==> untraced_pairs(
                final(self).tiles@,
            ).len() < untraced_pairs(old(self).tiles@).len(),
    {
        let ghost tiles_before = self.tiles@;
        let ghost open_before = edge_map(self.open_edges@);
        let ghost v_before = poly.vertices@;
        let ghost listed_before = poly.tiles@;
        let ghost id = poly.id;
        let added = self.claim_edge(q, e, poly.id);
        if added {
            proof {
                lemma_extended(poly.vertices@, e, clockwise);
            }
            add_edge_vertices(poly, e, clockwise);
        }
        if note {
            note_tile(poly, q);
        }
        proof {
            lemma_note_tile(tiles_before, v_before, listed_before, q, id);
            lemma_claim_polyline(tiles_before, self.tiles@, q, e, id, v_before, poly.tiles@, added, clockwise);
            lemma_claim_used(tiles_before, self.tiles@, q, e, id, listed_before);
            lemma_claim_step(
                t0,
                tiles_before,
                self.tiles@,
                o0,
                open_before,
                edge_map(self.open_edges@),
                position_key(q),
                e,
                id,
            );
            assert(walked_from(tiles_before, tiles_before, id));
            assert(closes_traced(open_before, open_before, tiles_before));
            lemma_claim_step(
                tiles_before,
                tiles_before,
                self.tiles@,
                open_before,
                open_before,
                edge_map(self.open_edges@),
                position_key(q),
                e,
                id,
            );
            if added {
                lemma_grows_extended(v_before, e, clockwise);
            } else {
                lemma_grows_same(v_before, clockwise);
            }
        }
        added
    }

    /// Walks on along the surface edges of the tile at `q` from `cur_e`,
    /// claiming each next edge in the walking direction while it joins on
    /// and is untraced; gives back the last edge claimed.
    fn walk_tile(
        &mut self,
        poly: &mut TerrainPolyLineBuilder,
        q: TilePosition,
        cur_e: Edge,
        clockwise: bool,
        Ghost(t0): Ghost<Map<u64, TerrainGridTile>>,
        Ghost(o0): Ghost<Map<Edge, TilePosition>>,
    ) -> (last: Edge)
        requires
            walk_state(*old(self), t0, o0, old(poly).id),
            old(self).tiles@.contains_key(position_key(q)),
            old(self).tiles@[position_key(q)].position == q,
            traces_polyline(old(self).tiles@, *old(poly)),
            old(poly).tiles@.contains(q),
            traced_to(old(self).tiles@, position_key(q), cur_e, old(poly).id),
            old(poly).vertices@.len() == 0 || chain_end(old(poly).vertices@, clockwise) == exit_of(cur_e, clockwise),
        ensures
            walk_state(*final(self), t0, o0, old(poly).id),
            walked_from(old(self).tiles@, final(self).tiles@, old(poly).id),
            final(poly).id == old(poly).id,
            final(poly).tiles@ == old(poly).tiles@,
            grows_at_end(old(poly).vertices@, final(poly).vertices@, clockwise),
            traces_polyline(final(self).tiles@, *final(poly)),
            traced_to(final(self).tiles@, position_key(q), last, old(poly).id),
            final(poly).vertices@.len() == 0 || chain_end(final(poly).vertices@, clockwise) == exit_of(last, clockwise),
            untraced_pairs(final(self).tiles@).len() <= untraced_pairs(old(self).tiles@).len(),
            tile_walk_done(final(self).tiles@, q, last, clockwise),
    {
        let ghost tiles_start = self.tiles@;
        let ghost v_start = poly.vertices@;
        let ghost id = poly.id;
        let mut cur_e = cur_e;
        let entry = if clockwise {
            cur_e.0
        } else {
            cur_e.1
        };
        proof {
            lemma_grows_same(v_start, clockwise);
            assert(walked_from(tiles_start, tiles_start, id));
        }
        match self.entry_index(q, entry, clockwise) {
            Some(edge_i) => {
                let len = self.surface_len(q);
                let mut i = edge_i;
                let mut go_on = true;
                while go_on
                    invariant
                        walk_state(*self, t0, o0, id),
                        walked_from(tiles_start, self.tiles@, id),
                        self.tiles@.contains_key(position_key(q)),
                        self.tiles@[position_key(q)].position == q,
                        len == self.tiles@[position_key(q)].surface_edges.data@.len(),
                        i < len,
                        poly.id == id,
                        poly.tiles@ == old(poly).tiles@,
                        traces_polyline(self.tiles@, *poly),
                        poly.tiles@.contains(q),
                        grows_at_end(v_start, poly.vertices@, clockwise),
                        traced_to(self.tiles@, position_key(q), cur_e, id),
                        poly.vertices@.len() == 0 || chain_end(poly.vertices@, clockwise) == exit_of(cur_e, clockwise),
                        untraced_pairs(self.tiles@).len() <= untraced_pairs(tiles_start).len(),
                        entry_of(self.tiles@[position_key(q)].surface_edges.data@[i as int], clockwise) == entry_of(
                            cur_e,
                            clockwise,
                        ),
                        !go_on ==> {
                            let edges = self.tiles@[position_key(q)].surface_edges.data@;
                            let nx = edges[next_index(len as int, i as int, clockwise)];
                            !joins(cur_e, nx, clockwise) || traced(self.tiles@, position_key(q), nx)
                        },
                    decreases untraced_pairs(self.tiles@).len() + (if go_on {
                        1int
                    } else {
                        0int
                    }),
                {
                    let ni = if clockwise {
                        if i + 1 == len {
                            0
                        } else {
                            i + 1
                        }
                    } else {
                        if i == 0 {
                            len - 1
                        } else {
                            i - 1
                        }
                    };
                    let next = self.surface_edge(q, ni);
                    let joins = if clockwise {
                        cur_e.1.0 == next.0.0 && cur_e.1.1 == next.0.1
                    } else {
                        cur_e.0.0 == next.1.0 && cur_e.0.1 == next.1.1
                    };
                    let next_traced = self.is_traced(q, next);
                    proof {
                        assert(ni as int == next_index(len as int, i as int, clockwise));
                        assert(joins == crate::polyline_tracing::joins(cur_e, next, clockwise));
                    }
                    if joins && !next_traced {
                        let ghost tiles_here = self.tiles@;
                        let ghost v_here = poly.vertices@;
                        proof {
                            assert(tiles_here[position_key(q)].surface_edges.data@.contains(next)) by {
                                assert(tiles_here[position_key(q)].surface_edges.data@[ni as int] == next);
                            }
                            assert(untraced_pairs(tiles_here).contains((position_key(q), next)));
                        }
                        i = ni;
                        cur_e = next;
                        let _ = self.claim_and_add(poly, q, next, clockwise, false, Ghost(t0), Ghost(o0));
                        proof {
                            lemma_walked_trans(tiles_start, tiles_here, self.tiles@, id);
                            lemma_grows_trans(v_start, v_here, poly.vertices@, clockwise);
                        }
                    } else {
                        go_on = false;
                    }
                }
                proof {
                    let edges = self.tiles@[position_key(q)].surface_edges.data@;
                    assert(edges[i as int] == edges[i as int]);
                }
            },
            None => {},
        }
        cur_e
    }
}

impl TerrainGrid {
    /// Walks along the surface from the edge `start_edge` of the tile at
    /// `start` in one direction, tracing each edge it passes to the
    /// polyline and adding its vertices at that end of the polyline: first
    /// along the tile's own surface edges while they join up, then on to
    /// the one neighbouring tile whose untraced surface edge continues the
    /// walk, until no single one does.
    #[verifier::spinoff_prover]
    #[verifier::rlimit(80)]
    fn add_vertices(&mut self, poly: &mut TerrainPolyLineBuilder, start: TilePosition, start_edge: Edge, clockwise: bool)
        requires
            old(self).wf(),
            positions_fit(old(self).tiles@),
            unique_edges(old(self).open_edges@),
            open_untraced(old(self).tiles@, edge_map(old(self).open_edges@)),
            old(self).tiles@.contains_key(position_key(start)),
            traces_polyline(old(self).tiles@, *old(poly)),
            !traced(old(self).tiles@, position_key(start), start_edge) || traced_to(
                old(self).tiles@,
                position_key(start),
                start_edge,
                old(poly).id,
            ),
            !traced(old(self).tiles@, position_key(start), start_edge) ==> old(poly).vertices@.len() == 0
                || chain_end(old(poly).vertices@, clockwise) == entry_of(start_edge, clockwise),
            traced(old(self).tiles@, position_key(start), start_edge) ==> old(poly).vertices@.len() == 0
                || chain_end(old(poly).vertices@, clockwise) == exit_of(start_edge, clockwise),
        ensures
            walk_state(*final(self), old(self).tiles@, edge_map(old(self).open_edges@), old(poly).id),
            traced_to(final(self).tiles@, position_key(start), start_edge, old(poly).id),
            final(poly).id == old(poly).id,
            traces_polyline(final(self).tiles@, *final(poly)),
            grows_at_end(old(poly).vertices@, final(poly).vertices@, clockwise),
            clockwise && !traced(old(self).tiles@, position_key(start), start_edge) ==> final(poly).vertices@.len()
                >= old(poly).vertices@.len() + 2 && final(poly).vertices@[old(poly).vertices@.len() as int]
                == start_edge.0,
            exists|q: TilePosition, last: Edge|
                #[trigger] walk_ended(final(self).tiles@, final(poly).vertices@, old(poly).id, q, last, clockwise),
    {
        let ghost t0 = self.tiles@;
        let ghost o0 = edge_map(self.open_edges@);
        let ghost v0 = poly.vertices@;
        let ghost id = poly.id;
        let ghost mut first = true;
        let ghost mut end_tile: TilePosition = start;
        let ghost mut end_edge: Edge = start_edge;
        proof {
            lemma_grows_same(v0, clockwise);
            assert(walked_from(t0, t0, id));
            assert(closes_traced(o0, o0, t0));
        }
        let mut current: Option<(TilePosition, Edge)> = Some((start, start_edge));
        while current.is_some()
            invariant
                walk_state(*self, t0, o0, id),
                poly.id == id,
                traces_polyline(self.tiles@, *poly),
                grows_at_end(v0, poly.vertices@, clockwise),
                first ==> current == Some((start, start_edge)) && self.tiles@ == t0 && poly.vertices@ == v0,
                !first && current is None ==> walk_ended(self.tiles@, poly.vertices@, id, end_tile, end_edge, clockwise),
                !first ==> traced_to(self.tiles@, position_key(start), start_edge, id),
                !first && clockwise && !traced(t0, position_key(start), start_edge) ==> poly.vertices@.len()
                    >= v0.len() + 2 && poly.vertices@[v0.len() as int] == start_edge.0,
                !traced(t0, position_key(start), start_edge) ==> v0.len() == 0 || chain_end(v0, clockwise)
                    == entry_of(start_edge, clockwise),
                current matches Some(c) ==> {
                    &&& self.tiles@.contains_key(position_key(c.0))
                    &&& (!first ==> untraced_pairs(self.tiles@).contains((position_key(c.0), c.1)))
                    &&& (!traced(self.tiles@, position_key(c.0), c.1) || traced_to(
                        self.tiles@,
                        position_key(c.0),
                        c.1,
                        id,
                    ))
                    &&& (!traced(self.tiles@, position_key(c.0), c.1) ==> poly.vertices@.len() == 0
                        || chain_end(poly.vertices@, clockwise) == entry_of(c.1, clockwise))
                    &&& (traced(self.tiles@, position_key(c.0), c.1) ==> poly.vertices@.len() == 0
                        || chain_end(poly.vertices@, clockwise) == exit_of(c.1, clockwise))
                },
            decreases untraced_pairs(self.tiles@).len() + (if first {
                1int
            } else {
                0int
            }),
        {
            let (q, e0) = current.unwrap();
            let ghost tiles_before = self.tiles@;
            let ghost v_before = poly.vertices@;
            proof {
                lemma_tile_at(self.tiles@, q);
            }
            let added = self.claim_and_add(poly, q, e0, clockwise, true, Ghost(t0), Ghost(o0));
            let ghost tiles_claimed = self.tiles@;
            let ghost v_claimed = poly.vertices@;
            let last = self.walk_tile(poly, q, e0, clockwise, Ghost(t0), Ghost(o0));
            proof {
                lemma_grows_trans(v_before, v_claimed, poly.vertices@, clockwise);
                lemma_grows_trans(v0, v_before, poly.vertices@, clockwise);
                lemma_walked_trans(tiles_before, tiles_claimed, self.tiles@, id);
                if first {
                    assert(traced_to(tiles_claimed, position_key(start), start_edge, id));
                    if clockwise && !traced(t0, position_key(start), start_edge) {
                        assert(v_claimed == extended(v0, start_edge, clockwise));
                        assert(v_claimed[v0.len() as int] == start_edge.0);
                    }
                }
                assert(traced_to(self.tiles@, position_key(start), start_edge, id));
                assert(positions_fit(self.tiles@));
                assert(self.tiles@.contains_key(position_key(q)));
            }
            current = self.get_connected_edge(q, last, clockwise);
            proof {
                if let Some(c) = current {
                    let k2 = position_key(c.0);
                    let edges = self.tiles@[k2].surface_edges.data@;
                    let i = last_entry(edges, exit_of(last, clockwise), clockwise)->Some_0;
                    assert(is_last_entry(edges, exit_of(last, clockwise), clockwise, i));
                    assert(edges[i] == c.1);
                    assert(edges.contains(c.1));
                    assert(untraced_pairs(self.tiles@).contains((k2, c.1)));
                }
                first = false;
                end_tile = q;
                end_edge = last;
            }
        }
        proof {
            assert(walk_ended(self.tiles@, poly.vertices@, id, end_tile, end_edge, clockwise));
        }
    }
}

/// Every traced edge is traced to a polyline numbered at most `gen`.
pub open spec fn ids_at_most(tiles: Map<u64, TerrainGridTile>, gen: PolyLineId) -> bool {
    forall|k: u64, e: Edge| #[trigger] traced(tiles, k, e) ==> edge_map(tiles[k].edge_polylines@)[e] <= gen
}

/// A polyline keeps running along the edges traced to it while only the
/// traces of another polyline change.
proof fn lemma_frame_polyline(a: Map<u64, TerrainGridTile>, b: Map<u64, TerrainGridTile>, id: PolyLineId, p: TerrainPolyLineBuilder)
    requires
        same_surfaces(a, b),
        same_traces_except(a, b, id),
        p.id != id,
        traces_polyline(a, p),
    ensures
        traces_polyline(b, p),
{
    let v = p.vertices@;
    assert forall|j: int| 0 <= j < v.len() / 2 implies #[trigger] traced_in(b, p.tiles@, pair(v, j), p.id) by {
        assert(traced_in(a, p.tiles@, pair(v, j), p.id));
        let q = choose|q: TilePosition| p.tiles@.contains(q) && #[trigger] traced_to(a, position_key(q), pair(v, j), p.id);
        assert(traced_to(b, position_key(q), pair(v, j), p.id));
    }
    assert forall|k: u64, e: Edge| #[trigger] traced_to(b, k, e, p.id) implies p.tiles@.contains(b[k].position) && has_pair(v, e) by {
        assert(traced_to(a, k, e, p.id));
    }
    assert forall|i: int| 0 <= i < p.tiles@.len() implies b.contains_key(position_key(#[trigger] p.tiles@[i])) by {
        assert(a.contains_key(position_key(p.tiles@[i])));
    }
    assert forall|i: int| 0 <= i < p.tiles@.len() implies used_by(b, #[trigger] p.tiles@[i], p.id) by {
        assert(used_by(a, p.tiles@[i], p.id));
        let d = choose|d: Edge| #[trigger] traced_to(a, position_key(p.tiles@[i]), d, p.id);
        assert(traced_to(b, position_key(p.tiles@[i]), d, p.id));
    }
}

/// No two polylines share an id.
pub open spec fn unique_ids(lines: Seq<TerrainPolyLineBuilder>) -> bool {
    forall|i: int, j: int| 0 <= i < j < lines.len() ==> lines[i].id != lines[j].id
}

/// The live polylines: each id once, each running exactly along the edges
/// traced to it, and each traced edge traced to one of them.
pub open spec fn lines_consistent(tiles: Map<u64, TerrainGridTile>, lines: Seq<TerrainPolyLineBuilder>) -> bool {
    &&& unique_ids(lines)
    &&& forall|i: int| 0 <= i < lines.len() ==> traces_polyline(tiles, #[trigger] lines[i])
    &&& forall|k: u64, e: Edge| #[trigger]
        traced(tiles, k, e) ==> exists|i: int|
            0 <= i < lines.len() && #[trigger] lines[i].id == edge_map(tiles[k].edge_polylines@)[e]
}

/// A polyline keeps running along the edges traced to it while the edges
/// traced to it stay the same.
pub proof fn lemma_same_traces_polyline(a: Map<u64, TerrainGridTile>, b: Map<u64, TerrainGridTile>, p: TerrainPolyLineBuilder)
    requires
        forall|k: u64| #[trigger] a.contains_key(k) && b.contains_key(k) ==> b[k].position == a[k].position,
        forall|k: u64, e: Edge| #[trigger] traced_to(b, k, e, p.id) <==> traced_to(a, k, e, p.id),
        traces_polyline(a, p),
    ensures
        traces_polyline(b, p),
{
    let v = p.vertices@;
    assert forall|j: int| 0 <= j < v.len() / 2 implies #[trigger] traced_in(b, p.tiles@, pair(v, j), p.id) by {
        assert(traced_in(a, p.tiles@, pair(v, j), p.id));
        let q = choose|q: TilePosition| p.tiles@.contains(q) && #[trigger] traced_to(a, position_key(q), pair(v, j), p.id);
        assert(traced_to(b, position_key(q), pair(v, j), p.id));
    }
    assert forall|k: u64, e: Edge| #[trigger] traced_to(b, k, e, p.id) implies p.tiles@.contains(b[k].position) && has_pair(v, e) by {
        assert(traced_to(a, k, e, p.id));
    }
    assert forall|i: int| 0 <= i < p.tiles@.len() implies b.contains_key(position_key(#[trigger] p.tiles@[i])) by {
        assert(used_by(a, p.tiles@[i], p.id));
        let d = choose|d: Edge| #[trigger] traced_to(a, position_key(p.tiles@[i]), d, p.id);
        assert(traced_to(b, position_key(p.tiles@[i]), d, p.id));
    }
    assert forall|i: int| 0 <= i < p.tiles@.len() implies used_by(b, #[trigger] p.tiles@[i], p.id) by {
        assert(used_by(a, p.tiles@[i], p.id));
        let d = choose|d: Edge| #[trigger] traced_to(a, position_key(p.tiles@[i]), d, p.id);
        assert(traced_to(b, position_key(p.tiles@[i]), d, p.id));
    }
}

/// Tracing new polylines, numbered after all earlier ones, keeps the
/// earlier live polylines consistent, together with the new ones.
proof fn lemma_tracing_consistent(
    t0: Map<u64, TerrainGridTile>,
    t1: Map<u64, TerrainGridTile>,
    prior: Seq<TerrainPolyLineBuilder>,
    made: Seq<TerrainPolyLineBuilder>,
    gen0: PolyLineId,
    gen1: PolyLineId,
)
    requires
        lines_consistent(t0, prior),
        forall|i: int| 0 <= i < prior.len() ==> prior[i].id <= gen0,
        same_surfaces(t0, t1),
        keeps_traces(t0, t1),
        ids_at_most(t1, gen1),
        made.len() == gen1 - gen0,
        forall|i: int| 0 <= i < made.len() ==> (#[trigger] made[i]).id == gen0 + 1 + i && traces_polyline(t1, made[i]),
        forall|k: u64, e: Edge| #[trigger]
            traced(t1, k, e) && !traced(t0, k, e) ==> gen0 < edge_map(t1[k].edge_polylines@)[e],
    ensures
        lines_consistent(t1, prior + made),
{
    let all = prior + made;
    assert forall|i: int, j: int| 0 <= i < j < all.len() implies all[i].id != all[j].id by {
        if j < prior.len() {
        } else if i < prior.len() {
            assert(all[j] == made[j - prior.len()]);
        } else {
            assert(all[i] == made[i - prior.len()]);
            assert(all[j] == made[j - prior.len()]);
        }
    }
    assert forall|i: int| 0 <= i < all.len() implies traces_polyline(t1, #[trigger] all[i]) by {
        if i < prior.len() {
            let l = prior[i];
            assert(traces_polyline(t0, l));
            assert forall|k: u64, e: Edge| #[trigger] traced_to(t1, k, e, l.id) <==> traced_to(t0, k, e, l.id) by {
                if traced_to(t0, k, e, l.id) {
                    assert(traced(t1, k, e));
                }
            }
            lemma_same_traces_polyline(t0, t1, l);
        } else {
            assert(all[i] == made[i - prior.len()]);
        }
    }
    assert forall|k: u64, e: Edge| #[trigger] traced(t1, k, e) implies exists|i: int|
        0 <= i < all.len() && #[trigger] all[i].id == edge_map(t1[k].edge_polylines@)[e] by {
        let id = edge_map(t1[k].edge_polylines@)[e];
        if traced(t0, k, e) {
            let i = choose|i: int| 0 <= i < prior.len() && #[trigger] prior[i].id == edge_map(t0[k].edge_polylines@)[e];
            assert(all[i].id == id);
        } else {
            let i = id - gen0 - 1;
            assert(made[i].id == id);
            assert(all[prior.len() + i] == made[i]);
        }
    }
}

impl TerrainGrid {
    /// Traces all open edges into polylines. While an edge is open, it is
    /// closed, and when its tile is in the grid a polyline with a fresh id
    /// is started on it and walked clockwise, then counterclockwise, from
    /// it; an open edge whose tile is gone is dropped. Gives back the new
    /// polylines in the order they were made.
    pub fn calc_polylines(&mut self, bookkeeping: &mut PolylineBookkeeping) -> (lines: Vec<TerrainPolyLineBuilder>)
        requires
            old(self).wf(),
            positions_fit(old(self).tiles@),
            unique_edges(old(self).open_edges@),
            open_untraced(old(self).tiles@, edge_map(old(self).open_edges@)),
            ids_at_most(old(self).tiles@, old(bookkeeping).id_gen),
            old(bookkeeping).id_gen + old(self).open_edges@.len() <= u32::MAX,
        ensures
            final(self).wf(),
            positions_fit(final(self).tiles@),
            final(self).open_edges@.len() == 0,
            same_surfaces(old(self).tiles@, final(self).tiles@),
            keeps_traces(old(self).tiles@, final(self).tiles@),
            ids_at_most(final(self).tiles@, final(bookkeeping).id_gen),
            old(bookkeeping).id_gen <= final(bookkeeping).id_gen,
            final(bookkeeping).gid_to_cantor_pair_map == old(bookkeeping).gid_to_cantor_pair_map,
            final(bookkeeping).chunk_to_cantor_pair_map == old(bookkeeping).chunk_to_cantor_pair_map,
            lines@.len() == final(bookkeeping).id_gen - old(bookkeeping).id_gen,
            forall|i: int|
                0 <= i < lines@.len() ==> (#[trigger] lines@[i]).id == old(bookkeeping).id_gen + 1 + i
                    && traces_polyline(final(self).tiles@, lines@[i]) && lines@[i].vertices@.len() >= 2,
            forall|i: int|
                0 <= i < lines@.len() ==> end_settled(final(self).tiles@, (#[trigger] lines@[i]).vertices@, lines@[i].id, true)
                    && end_settled(final(self).tiles@, lines@[i].vertices@, lines@[i].id, false),
            forall|k: u64, e: Edge| #[trigger]
                traced(final(self).tiles@, k, e) && !traced(old(self).tiles@, k, e) ==> old(bookkeeping).id_gen
                    < edge_map(final(self).tiles@[k].edge_polylines@)[e],
            forall|e: Edge| #[trigger]
                edge_map(old(self).open_edges@).contains_key(e) && old(self).tiles@.contains_key(
                    position_key(edge_map(old(self).open_edges@)[e]),
                ) ==> traced_somewhere(final(self).tiles@, e),
            forall|prior: Seq<TerrainPolyLineBuilder>|
                #[trigger] lines_consistent(old(self).tiles@, prior) && (forall|i: int|
                    0 <= i < prior.len() ==> prior[i].id <= old(bookkeeping).id_gen) ==> lines_consistent(
                    final(self).tiles@,
                    prior + lines@,
                ),
    {
        let ghost t0 = self.tiles@;
        let ghost o0 = edge_map(self.open_edges@);
        let ghost gen0 = bookkeeping.id_gen;
        let mut lines: Vec<TerrainPolyLineBuilder> = Vec::new();
        proof {
            assert(self.tiles@.dom().finite());
        }
        while self.open_edges.len() > 0
            invariant
                self.wf(),
                positions_fit(self.tiles@),
                unique_edges(self.open_edges@),
                open_untraced(self.tiles@, edge_map(self.open_edges@)),
                same_surfaces(t0, self.tiles@),
                keeps_traces(t0, self.tiles@),
                t0.dom().finite(),
                ids_at_most(self.tiles@, bookkeeping.id_gen),
                gen0 <= bookkeeping.id_gen,
                bookkeeping.id_gen + self.open_edges@.len() <= u32::MAX,
                bookkeeping.gid_to_cantor_pair_map == old(bookkeeping).gid_to_cantor_pair_map,
                bookkeeping.chunk_to_cantor_pair_map == old(bookkeeping).chunk_to_cantor_pair_map,
                gen0 == old(bookkeeping).id_gen,
                lines@.len() == bookkeeping.id_gen - gen0,
                forall|i: int|
                    0 <= i < lines@.len() ==> (#[trigger] lines@[i]).id == gen0 + 1 + i && traces_polyline(
                        self.tiles@,
                        lines@[i],
                    ) && lines@[i].vertices@.len() >= 2,
                forall|i: int|
                    0 <= i < lines@.len() ==> end_settled(self.tiles@, (#[trigger] lines@[i]).vertices@, lines@[i].id, true)
                        && end_settled(self.tiles@, lines@[i].vertices@, lines@[i].id, false),
                forall|k: u64, e: Edge| #[trigger]
                    traced(self.tiles@, k, e) && !traced(t0, k, e) ==> gen0 < edge_map(
                        self.tiles@[k].edge_polylines@,
                    )[e],
                forall|e: Edge| #[trigger]
                    edge_map(self.open_edges@).contains_key(e) ==> o0.contains_key(e) && edge_map(
                        self.open_edges@,
                    )[e] == o0[e],
                forall|e: Edge| #[trigger]
                    o0.contains_key(e) && !edge_map(self.open_edges@).contains_key(e) && t0.contains_key(
                        position_key(o0[e]),
                    ) ==> traced_somewhere(self.tiles@, e),
            decreases self.open_edges@.len(),
        {
            let ghost tiles_before = self.tiles@;
            let ghost open_before = edge_map(self.open_edges@);
            let ghost len_before = self.open_edges@.len();
            let ghost list_before = self.open_edges@;
            let open_edge = self.open_edges[0].0;
            proof {
                lemma_edge_map_at(self.open_edges@, 0);
                lemma_edge_map_len(self.open_edges@);
            }
            let taken = take_edge(&mut self.open_edges, open_edge);
            let ghost open_taken = edge_map(self.open_edges@);
            proof {
                lemma_edge_map_len(self.open_edges@);
                assert(open_taken.dom() =~= open_before.dom().remove(open_edge));
                assert(self.open_edges@.len() == len_before - 1);
                assert(open_untraced(self.tiles@, open_taken));
            }
            if let Some(tile_pos) = taken {
                if self.tiles.contains_key(&key_of(tile_pos)) {
                    let ghost gen_before = bookkeeping.id_gen;
                    let id = bookkeeping.get_polyline_id();
                    let mut poly = TerrainPolyLineBuilder::new(id);
                    proof {
                        assert(!traced(self.tiles@, position_key(tile_pos), open_edge));
                        assert forall|k: u64, e: Edge| #[trigger] traced_to(self.tiles@, k, e, id) implies poly.tiles@.contains(
                            self.tiles@[k].position,
                        ) && has_pair(poly.vertices@, e) by {
                            assert(edge_map(self.tiles@[k].edge_polylines@)[e] <= gen_before);
                        }
                        assert(traces_polyline(self.tiles@, poly));
                    }
                    let ghost tiles_start = self.tiles@;
                    self.add_vertices(&mut poly, tile_pos, open_edge, true);
                    let ghost tiles_mid = self.tiles@;
                    let ghost v_mid = poly.vertices@;
                    let ghost open_mid = edge_map(self.open_edges@);
                    self.add_vertices(&mut poly, tile_pos, open_edge, false);
                    proof {
                        lemma_walked_trans(tiles_start, tiles_mid, self.tiles@, id);
                        assert forall|i: int| 0 <= i < lines@.len() implies traces_polyline(self.tiles@, #[trigger] lines@[i]) by {
                            lemma_frame_polyline(tiles_start, self.tiles@, id, lines@[i]);
                        }
                        lemma_line_ends_settled(tiles_start, tiles_mid, self.tiles@, v_mid, poly.vertices@, id);
                        assert forall|i: int| 0 <= i < lines@.len() implies end_settled(
                            self.tiles@,
                            (#[trigger] lines@[i]).vertices@,
                            lines@[i].id,
                            true,
                        ) && end_settled(self.tiles@, lines@[i].vertices@, lines@[i].id, false) by {
                            lemma_end_settled_stays(tiles_start, self.tiles@, lines@[i].vertices@, lines@[i].id, true);
                            lemma_end_settled_stays(tiles_start, self.tiles@, lines@[i].vertices@, lines@[i].id, false);
                        }
                    }
                    lines.push(poly);
                    proof {
                        assert(lines@[lines@.len() - 1] == poly);
                    }
                }
            }
            proof {
                let now = self.tiles@;
                let open_now = edge_map(self.open_edges@);
                lemma_edge_map_len(self.open_edges@);
                assert(open_now.dom().subset_of(open_taken.dom()));
                vstd::set_lib::lemma_len_subset(open_now.dom(), open_taken.dom());
                assert(keeps_traces(tiles_before, now));
                assert forall|e: Edge| #[trigger]
                    o0.contains_key(e) && !open_now.contains_key(e) && t0.contains_key(position_key(o0[e]))
                        implies traced_somewhere(now, e) by {
                    if open_before.contains_key(e) {
                        if e == open_edge {
                            assert(traced(now, position_key(o0[e]), e));
                        } else {
                            assert(open_taken.contains_key(e));
                        }
                    } else {
                        assert(traced_somewhere(tiles_before, e));
                        let k = choose|k: u64| #[trigger] traced(tiles_before, k, e);
                        assert(traced(now, k, e));
                    }
                }
            }
        }
        proof {
            assert forall|prior: Seq<TerrainPolyLineBuilder>|
                #[trigger] lines_consistent(t0, prior) && (forall|i: int| 0 <= i < prior.len() ==> prior[i].id <= gen0)
                    implies lines_consistent(self.tiles@, prior + lines@) by {
                lemma_tracing_consistent(t0, self.tiles@, prior, lines@, gen0, bookkeeping.id_gen);
            }
        }
        lines
    }
}

/// The vertices with each run of equal neighbours kept once.
pub open spec fn without_repeats(v: Seq<Vertex>) -> Seq<Vertex>
    decreases v.len(),
{
    if v.len() == 0 {
        v
    } else if v.len() >= 2 && v[v.len() - 1] == v[v.len() - 2] {
        without_repeats(v.drop_last())
    } else {
        without_repeats(v.drop_last()).push(v.last())
    }
}

/// A non-empty run of vertices keeps its last vertex at the end.
proof fn lemma_without_repeats_last(v: Seq<Vertex>)
    requires
        v.len() > 0,
    ensures
        without_repeats(v).len() > 0,
        without_repeats(v).last() == v.last(),
    decreases v.len(),
{
    if v.len() >= 2 && v[v.len() - 1] == v[v.len() - 2] {
        lemma_without_repeats_last(v.drop_last());
    }
}

/// The points a polyline hands to the physics: its vertices in order, each
/// vertex that repeats the one before it left out.
pub fn polyline_points(poly: &TerrainPolyLineBuilder) -> (points: Vec<Vertex>)
    ensures
        points@ == without_repeats(poly.vertices@),
{
    let mut points: Vec<Vertex> = Vec::new();
    let n = poly.vertices.len();
    let mut i: usize = 0;
    while i < n
        invariant
            n == poly.vertices@.len(),
            i <= n,
            points@ == without_repeats(poly.vertices@.take(i as int)),
        decreases n - i,
    {
        let v = poly.vertices[i];
        let ghost pre = poly.vertices@.take(i as int);
        let ghost next = poly.vertices@.take(i + 1);
        proof {
            assert(next.drop_last() =~= pre);
            if i > 0 {
                lemma_without_repeats_last(pre);
            }
        }
        let repeat = if points.len() > 0 {
            let last = points[points.len() - 1];
            last.0 == v.0 && last.1 == v.1
        } else {
            false
        };
        proof {
            if i > 0 {
                assert(points@.last() == pre.last());
                assert(repeat == (next[next.len() - 1] == next[next.len() - 2]));
            } else {
                assert(pre.len() == 0);
            }
        }
        if !repeat {
            points.push(v);
        }
        i = i + 1;
    }
    proof {
        assert(poly.vertices@.take(n as int) =~= poly.vertices@);
    }
    points
}

} // verus!
