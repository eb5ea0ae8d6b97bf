use std::collections::HashMap;

use vstd::prelude::*;

use crate::blueprint::{Chunk, Gid, TerrainParams};
use crate::ring::RingVec;
use crate::terrain::{
    get_edges_from_vertices, get_tile_position, get_vertices_from_collision_shape,
    is_edge_on_surface, outline_of, point_in_polygon, tile_position, Edge, TerrainGridTile,
    TilePosition, Vertex,
};

verus! {

/// The key a tile position is stored under: the two coordinates' bits side
/// by side.
pub open spec fn position_key(p: TilePosition) -> u64 {
    (((p.0 as u32) as u64) << 32u64) | ((p.1 as u32) as u64)
}

/// Distinct positions have distinct keys.
pub proof fn lemma_position_key_injective(p: TilePosition, q: TilePosition)
    ensures
        position_key(p) == position_key(q) ==> p == q,
{
    let (a, b) = p;
    let (c, d) = q;
    assert((((a as u32) as u64) << 32u64) | ((b as u32) as u64) == (((c as u32) as u64) << 32u64) | ((
    d as u32) as u64) ==> a == c && b == d) by (bit_vector);
}

/// The key of a tile position.
pub fn key_of(p: TilePosition) -> (key: u64)
    ensures
        key == position_key(p),
{
    (((p.0 as u32) as u64) << 32u64) | ((p.1 as u32) as u64)
}

/// The terrain tiles by position, and the surface edges not yet traced
/// into a polyline, each with the position of its tile.
pub struct TerrainGrid {
    pub tiles: HashMap<u64, TerrainGridTile>,
    pub open_edges: Vec<(Edge, TilePosition)>,
}

/// The tile at a position, if there is one.
pub open spec fn tile_at(tiles: Map<u64, TerrainGridTile>, p: TilePosition) -> Option<TerrainGridTile> {
    if tiles.contains_key(position_key(p)) {
        Some(tiles[position_key(p)])
    } else {
        None
    }
}

/// The position of tile `i` of the chunk, for a chunk size `size`.
pub open spec fn chunk_tile_position(chunk: Chunk, size: i32, i: int) -> TilePosition {
    let p = tile_position(chunk.position.0, chunk.position.1, size, i as i32);
    (p.0 as i32, p.1 as i32)
}

/// A tile of gid `gid` at `p` whose outline is `outline`, with no surface
/// edges yet.
pub open spec fn placed_tile(t: TerrainGridTile, gid: Gid, p: TilePosition, outline: Seq<(int, int)>) -> bool {
    &&& t.gid == gid
    &&& t.position == p
    &&& t.vertices.data@.len() == outline.len()
    &&& forall|k: int|
        0 <= k < outline.len() ==> (#[trigger] t.vertices.data@[k]).0 == outline[k].0
            && t.vertices.data@[k].1 == outline[k].1
    &&& t.surface_edges.data@.len() == 0
    &&& t.edge_polylines@.len() == 0
}

/// The outline of tile `i` of the chunk, from the collision shapes of the
/// gids.
pub open spec fn chunk_tile_outline(
    chunk: Chunk,
    params: TerrainParams,
    shapes: Map<Gid, Vec<Vertex>>,
    i: int,
) -> Seq<(int, int)> {
    let p = chunk_tile_position(chunk, params.chunk_size as i32, i);
    let g = chunk.data@[i];
    outline_of(p.0, p.1, params, if shapes.contains_key(g) { Some(&shapes[g]) } else { None })
}

/// Tile `i` of the chunk is the last of the chunk at its position.
pub open spec fn last_at_position(chunk: Chunk, size: i32, i: int) -> bool {
    forall|j: int| i < j < chunk.data@.len() ==> chunk_tile_position(chunk, size, j) != chunk_tile_position(chunk, size, i)
}

/// None of the first `n` tiles of the chunk lies at the position of key `k`.
pub open spec fn untouched(chunk: Chunk, size: i32, n: int, k: u64) -> bool {
    forall|j: int| 0 <= j < n ==> position_key(#[trigger] chunk_tile_position(chunk, size, j)) != k
}

/// Nothing in the chunk overflows: its tiles' positions and outlines fit
/// 32-bit coordinates.
pub open spec fn chunk_fits(chunk: Chunk, params: TerrainParams, shapes: Map<Gid, Vec<Vertex>>) -> bool {
    let size = params.chunk_size as i32;
    &&& 0 < params.chunk_size <= i32::MAX
    &&& chunk.data@.len() <= i32::MAX
    &&& i32::MIN <= chunk.position.0 * size <= i32::MAX
    &&& i32::MIN <= chunk.position.1 * size <= i32::MAX
    &&& forall|i: int|
        #![trigger chunk.data@[i]]
        0 <= i < chunk.data@.len() ==> {
            let p = tile_position(chunk.position.0, chunk.position.1, size, i as i32);
            &&& i32::MIN <= p.0 <= i32::MAX
            &&& i32::MIN <= p.1 <= i32::MAX
            &&& chunk.data@[i] != 0 ==> {
                let q = (p.0 as i32, p.1 as i32);
                &&& i32::MIN <= q.0 * (params.tile_width as i32) <= i32::MAX
                &&& i32::MIN <= q.1 * (params.tile_height as i32) <= i32::MAX
                &&& forall|k: int|
                    0 <= k < chunk_tile_outline(chunk, params, shapes, i).len() ==> {
                        let v = #[trigger] chunk_tile_outline(chunk, params, shapes, i)[k];
                        i32::MIN <= v.0 <= i32::MAX && i32::MIN <= v.1 <= i32::MAX
                    }
            }
        }
}

impl TerrainGrid {
    /// Each tile is stored under the key of its position, and names each
    /// traced edge once.
    pub open spec fn wf(&self) -> bool {
        forall|k: u64| #[trigger]
            self.tiles@.contains_key(k) ==> k == position_key(self.tiles@[k].position) && unique_edges(
                self.tiles@[k].edge_polylines@,
            )
    }

    /// A grid without tiles or open edges.
    pub fn new() -> (grid: TerrainGrid)
        ensures
            grid.wf(),
            grid.tiles@ == Map::<u64, TerrainGridTile>::empty(),
            grid.open_edges@.len() == 0,
    {
        TerrainGrid { tiles: HashMap::new(), open_edges: Vec::new() }
    }

    /// Puts the tiles of a chunk into the grid: a tile of gid 0 leaves its
    /// position empty, any other becomes a tile whose outline is its
    /// collision shape, or its square without one. A later tile of the chunk
    /// at the same position wins.
    pub fn set_chunk_in_bookkeeping(
        &mut self,
        params: &TerrainParams,
        shapes: &HashMap<Gid, Vec<Vertex>>,
        chunk: &Chunk,
    )
        requires
            old(self).wf(),
            chunk_fits(*chunk, *params, shapes@),
        ensures
            final(self).wf(),
            final(self).open_edges == old(self).open_edges,
            forall|i: int|
                #![trigger chunk.data@[i]]
                0 <= i < chunk.data@.len() && last_at_position(*chunk, params.chunk_size as i32, i) ==> {
                    let key = position_key(chunk_tile_position(*chunk, params.chunk_size as i32, i));
                    if chunk.data@[i] == 0 {
                        !final(self).tiles@.contains_key(key)
                    } else {
                        final(self).tiles@.contains_key(key) && placed_tile(
                            final(self).tiles@[key],
                            chunk.data@[i],
                            chunk_tile_position(*chunk, params.chunk_size as i32, i),
                            chunk_tile_outline(*chunk, *params, shapes@, i),
                        )
                    }
                },
            forall|k: u64|
                #[trigger] untouched(*chunk, params.chunk_size as i32, chunk.data@.len() as int, k) ==> (
                final(self).tiles@.contains_key(k) == old(self).tiles@.contains_key(k) && (old(
                    self,
                ).tiles@.contains_key(k) ==> final(self).tiles@[k] == old(self).tiles@[k])),
    {
        let size = params.chunk_size as i32;
        let (chunk_x, chunk_y) = chunk.position;
        let n = chunk.data.len();
        let mut i: usize = 0;
        while i < n
            invariant
                n == chunk.data@.len(),
                i <= n,
                size == params.chunk_size as i32,
                chunk.position == (chunk_x, chunk_y),
                chunk_fits(*chunk, *params, shapes@),
                self.wf(),
                self.open_edges == old(self).open_edges,
                forall|j: int|
                    #![trigger chunk.data@[j]]
                    0 <= j < i && (forall|l: int| j < l < i ==> chunk_tile_position(*chunk, size, l) != chunk_tile_position(*chunk, size, j)) ==> {
                        let key = position_key(chunk_tile_position(*chunk, size, j));
                        if chunk.data@[j] == 0 {
                            !self.tiles@.contains_key(key)
                        } else {
                            self.tiles@.contains_key(key) && placed_tile(
                                self.tiles@[key],
                                chunk.data@[j],
                                chunk_tile_position(*chunk, size, j),
                                chunk_tile_outline(*chunk, *params, shapes@, j),
                            )
                        }
                    },
                forall|k: u64|
                    #[trigger] untouched(*chunk, size, i as int, k) ==> (self.tiles@.contains_key(k)
                        == old(self).tiles@.contains_key(k) && (old(self).tiles@.contains_key(k)
                        ==> self.tiles@[k] == old(self).tiles@[k])),
            decreases n - i,
        {
            let ghost before = self.tiles@;
            let gid = chunk.data[i];
            let p = get_tile_position(chunk_x, chunk_y, size, i as i32);
            let ghost pos = chunk_tile_position(*chunk, size, i as int);
            assert(p == pos);
            let key = key_of(p);
            if gid == 0 {
                self.tiles.remove(&key);
            } else {
                let shape = shapes.get(&gid);
                proof {
                    assert(shape == (if shapes@.contains_key(gid) {
                        Some(&shapes@[gid])
                    } else {
                        None
                    }));
                    assert(chunk.data@[i as int] == gid);
                    assert(chunk_tile_outline(*chunk, *params, shapes@, i as int) == outline_of(p.0, p.1, *params, shape));
                }
                let vertices = get_vertices_from_collision_shape(p.0, p.1, params, shape);
                let tile = TerrainGridTile {
                    gid,
                    position: p,
                    vertices,
                    surface_edges: RingVec::new(8),
                    edge_polylines: Vec::new(),
                };
                self.tiles.insert(key, tile);
            }
            proof {
                assert forall|j: int|
                    #![trigger chunk.data@[j]]
                    0 <= j < i + 1 && (forall|l: int| j < l < i + 1 ==> chunk_tile_position(*chunk, size, l) != chunk_tile_position(*chunk, size, j)) implies {
                        let key = position_key(chunk_tile_position(*chunk, size, j));
                        if chunk.data@[j] == 0 {
                            !self.tiles@.contains_key(key)
                        } else {
                            self.tiles@.contains_key(key) && placed_tile(
                                self.tiles@[key],
                                chunk.data@[j],
                                chunk_tile_position(*chunk, size, j),
                                chunk_tile_outline(*chunk, *params, shapes@, j),
                            )
                        }
                    } by {
                    if j < i {
                        let pj = chunk_tile_position(*chunk, size, j);
                        assert(pj != pos);
                        lemma_position_key_injective(pj, pos);
                    }
                }
                assert forall|k: u64| #[trigger] untouched(*chunk, size, i + 1, k) implies (
                self.tiles@.contains_key(k) == old(self).tiles@.contains_key(k) && (old(
                    self,
                ).tiles@.contains_key(k) ==> self.tiles@[k] == old(self).tiles@[k])) by {
                    assert(position_key(chunk_tile_position(*chunk, size, i as int)) != k);
                    assert(untouched(*chunk, size, i as int, k));
                }
            }
            i = i + 1;
        }
    }
}

/// The outline of the tile at a position, if there is one.
pub open spec fn vertices_at(tiles: Map<u64, TerrainGridTile>, p: TilePosition) -> Option<Seq<Vertex>> {
    match tile_at(tiles, p) {
        Some(t) => Some(t.vertices.data@),
        None => None,
    }
}

/// Both ends of the edge lie in the outline, if there is one.
pub open spec fn covered(edge: Edge, outline: Option<Seq<Vertex>>) -> bool {
    match outline {
        Some(vs) => point_in_polygon(vs, edge.0) && point_in_polygon(vs, edge.1),
        None => false,
    }
}

/// No neighbour of the tile at `p` (left, right, above, below) covers the
/// edge.
pub open spec fn on_surface(tiles: Map<u64, TerrainGridTile>, p: TilePosition, edge: Edge) -> bool {
    !(covered(edge, vertices_at(tiles, (sub1(p.0), p.1))) || covered(edge, vertices_at(tiles, (add1(p.0), p.1)))
        || covered(edge, vertices_at(tiles, (p.0, sub1(p.1)))) || covered(edge, vertices_at(tiles, (p.0, add1(p.1)))))
}

pub open spec fn sub1(v: i32) -> i32 {
    (v - 1) as i32
}

pub open spec fn add1(v: i32) -> i32 {
    (v + 1) as i32
}

/// The edges of a closed outline: from each vertex to the next, and from
/// the last back to the first.
pub open spec fn outline_edges(vs: Seq<Vertex>) -> Seq<Edge> {
    Seq::new(vs.len(), |i: int| if i < vs.len() - 1 { (vs[i], vs[i + 1]) } else { (vs[i], vs[0]) })
}

/// The edges of the tile at `p`, whose outline is `vs`, that lie on the
/// surface, in the order of the outline.
pub open spec fn surface_edges_of(tiles: Map<u64, TerrainGridTile>, p: TilePosition, vs: Seq<Vertex>) -> Seq<Edge> {
    outline_edges(vs).filter(|e: Edge| on_surface(tiles, p, e))
}

/// The outlines of the grid, and what is traced on them, the same in both.
pub open spec fn same_outlines(a: Map<u64, TerrainGridTile>, b: Map<u64, TerrainGridTile>) -> bool {
    &&& a.dom() == b.dom()
    &&& forall|k: u64| #[trigger] a.contains_key(k) ==> a[k].vertices == b[k].vertices && a[k].gid == b[k].gid
        && a[k].position == b[k].position && a[k].edge_polylines == b[k].edge_polylines
}

/// The tile at `p` and its four neighbours, where there are such, have an
/// outline, and the neighbours' positions fit.
pub open spec fn preparable(tiles: Map<u64, TerrainGridTile>, p: TilePosition) -> bool {
    tile_at(tiles, p) is Some ==> {
        &&& i32::MIN < p.0 < i32::MAX
        &&& i32::MIN < p.1 < i32::MAX
        &&& tile_at(tiles, p)->Some_0.vertices.data@.len() > 0
        &&& vertices_at(tiles, (sub1(p.0), p.1)) matches Some(vs) ==> vs.len() > 0
        &&& vertices_at(tiles, (add1(p.0), p.1)) matches Some(vs) ==> vs.len() > 0
        &&& vertices_at(tiles, (p.0, sub1(p.1))) matches Some(vs) ==> vs.len() > 0
        &&& vertices_at(tiles, (p.0, add1(p.1))) matches Some(vs) ==> vs.len() > 0
    }
}

/// The map an association list keyed by edges stands for, later pairs
/// winning.
pub open spec fn edge_map<V>(s: Seq<(Edge, V)>) -> Map<Edge, V>
    decreases s.len(),
{
    if s.len() == 0 {
        Map::empty()
    } else {
        edge_map(s.drop_last()).insert(s.last().0, s.last().1)
    }
}

/// No edge occurs twice.
pub open spec fn unique_edges<V>(s: Seq<(Edge, V)>) -> bool {
    forall|i: int, j: int| 0 <= i < j < s.len() ==> s[i].0 != s[j].0
}

/// The open edges after opening each of `edges` at `p`, in order.
pub open spec fn opened(m: Map<Edge, TilePosition>, edges: Seq<Edge>, p: TilePosition) -> Map<Edge, TilePosition>
    decreases edges.len(),
{
    if edges.len() == 0 {
        m
    } else {
        opened(m, edges.drop_last(), p).insert(edges.last(), p)
    }
}

/// The open edges after preparing the tiles at `positions`, in order: each
/// tile there opens its surface edges.
pub open spec fn prepared_open_edges(
    m: Map<Edge, TilePosition>,
    tiles: Map<u64, TerrainGridTile>,
    positions: Seq<TilePosition>,
) -> Map<Edge, TilePosition>
    decreases positions.len(),
{
    if positions.len() == 0 {
        m
    } else {
        let before = prepared_open_edges(m, tiles, positions.drop_last());
        let p = positions.last();
        match vertices_at(tiles, p) {
            Some(vs) => opened(before, surface_edges_of(tiles, p, vs), p),
            None => before,
        }
    }
}

/// Whether two edges are the same.
pub fn same_edge(a: Edge, b: Edge) -> (same: bool)
    ensures
        same == (a == b),
{
    a.0.0 == b.0.0 && a.0.1 == b.0.1 && a.1.0 == b.1.0 && a.1.1 == b.1.1
}

/// The index of an edge in an association list, if it is there.
pub fn find_edge<V>(list: &Vec<(Edge, V)>, edge: Edge) -> (found: Option<usize>)
    ensures
        match found {
            Some(i) => i < list@.len() && list@[i as int].0 == edge,
            None => forall|k: int| 0 <= k < list@.len() ==> list@[k].0 != edge,
        },
{
    let mut i: usize = 0;
    while i < list.len()
        invariant
            i <= list@.len(),
            forall|k: int| 0 <= k < i ==> list@[k].0 != edge,
        decreases list@.len() - i,
    {
        if same_edge(list[i].0, edge) {
            return Some(i);
        }
        i = i + 1;
    }
    None
}

/// Sets the value of an edge in a list without repeated edges.
pub fn put_edge<V: Copy>(list: &mut Vec<(Edge, V)>, edge: Edge, value: V)
    requires
        unique_edges(old(list)@),
    ensures
        unique_edges(final(list)@),
        edge_map(final(list)@) == edge_map(old(list)@).insert(edge, value),
{
    match find_edge(list, edge) {
        Some(i) => {
            let ghost before = list@;
            list.set(i, (edge, value));
            proof {
                lemma_edge_map_replace(before, i as int, edge, value);
            }
        },
        None => {
            list.push((edge, value));
            proof {
                assert(list@.drop_last() =~= old(list)@);
            }
        },
    }
}

/// Takes an edge out of a list without repeated edges, giving back its
/// value if it was there.
pub fn take_edge<V: Copy>(list: &mut Vec<(Edge, V)>, edge: Edge) -> (taken: Option<V>)
    requires
        unique_edges(old(list)@),
    ensures
        unique_edges(final(list)@),
        edge_map(final(list)@) == edge_map(old(list)@).remove(edge),
        taken == (if edge_map(old(list)@).contains_key(edge) {
            Some(edge_map(old(list)@)[edge])
        } else {
            None
        }),
{
    match find_edge(list, edge) {
        Some(i) => {
            let ghost before = list@;
            proof {
                lemma_edge_map_at(before, i as int);
                lemma_edge_map_remove(before, i as int);
            }
            let (_, value) = list.remove(i);
            proof {
                assert forall|a: int, b: int| 0 <= a < b < list@.len() implies list@[a].0 != list@[b].0 by {
                    if a < i {
                        if b < i {
                        } else {
                            assert(list@[b] == before[b + 1]);
                        }
                    } else {
                        assert(list@[a] == before[a + 1]);
                        assert(list@[b] == before[b + 1]);
                    }
                }
            }
            Some(value)
        },
        None => {
            proof {
                lemma_edge_map_absent(list@, edge);
                assert(edge_map(list@).remove(edge) =~= edge_map(list@));
            }
            None
        },
    }
}

/// A list without repeated edges has as many pairs as its map has keys.
pub proof fn lemma_edge_map_len<V>(s: Seq<(Edge, V)>)
    requires
        unique_edges(s),
    ensures
        edge_map(s).dom().finite(),
        edge_map(s).dom().len() == s.len(),
    decreases s.len(),
{
    if s.len() > 0 {
        let t = s.drop_last();
        lemma_edge_map_len(t);
        assert forall|k: int| 0 <= k < t.len() implies t[k].0 != s.last().0 by {
            assert(s[k].0 != s[s.len() - 1].0);
        }
        lemma_edge_map_absent(t, s.last().0);
        assert(edge_map(s).dom() =~= edge_map(t).dom().insert(s.last().0));
    }
}

/// In a list without repeated edges, the map has each pair of the list.
pub proof fn lemma_edge_map_at<V>(s: Seq<(Edge, V)>, i: int)
    requires
        unique_edges(s),
        0 <= i < s.len(),
    ensures
        edge_map(s).contains_key(s[i].0),
        edge_map(s)[s[i].0] == s[i].1,
    decreases s.len(),
{
    if i < s.len() - 1 {
        lemma_edge_map_at(s.drop_last(), i);
    }
}

/// An edge that no pair of the list has is not in the map.
pub proof fn lemma_edge_map_absent<V>(s: Seq<(Edge, V)>, edge: Edge)
    requires
        forall|k: int| 0 <= k < s.len() ==> s[k].0 != edge,
    ensures
        !edge_map(s).contains_key(edge),
    decreases s.len(),
{
    if s.len() > 0 {
        lemma_edge_map_absent(s.drop_last(), edge);
    }
}

/// Every edge in the map is the edge of some pair of the list.
pub proof fn lemma_edge_map_present<V>(s: Seq<(Edge, V)>, edge: Edge) -> (i: int)
    requires
        edge_map(s).contains_key(edge),
    ensures
        0 <= i < s.len(),
        s[i].0 == edge,
    decreases s.len(),
{
    if s.last().0 == edge {
        s.len() - 1
    } else {
        lemma_edge_map_present(s.drop_last(), edge)
    }
}

proof fn lemma_edge_map_remove<V>(s: Seq<(Edge, V)>, i: int)
    requires
        unique_edges(s),
        0 <= i < s.len(),
    ensures
        edge_map(s.remove(i)) == edge_map(s).remove(s[i].0),
    decreases s.len(),
{
    let t = s.remove(i);
    let e = s[i].0;
    if i == s.len() - 1 {
        assert(t =~= s.drop_last());
        lemma_edge_map_absent(t, e);
        assert(edge_map(t) =~= edge_map(s).remove(e));
    } else {
        lemma_edge_map_remove(s.drop_last(), i);
        assert(t.drop_last() =~= s.drop_last().remove(i));
        assert(t.last() == s.last());
        assert(s.last().0 != e);
        assert(edge_map(t) =~= edge_map(s).remove(e));
    }
}

proof fn lemma_edge_map_replace<V>(s: Seq<(Edge, V)>, i: int, edge: Edge, value: V)
    requires
        unique_edges(s),
        0 <= i < s.len(),
        s[i].0 == edge,
    ensures
        edge_map(s.update(i, (edge, value))) == edge_map(s).insert(edge, value),
    decreases s.len(),
{
    let t = s.update(i, (edge, value));
    if i == s.len() - 1 {
        assert(t.drop_last() =~= s.drop_last());
        assert(edge_map(t) =~= edge_map(s).insert(edge, value));
    } else {
        lemma_edge_map_replace(s.drop_last(), i, edge, value);
        assert(t.drop_last() =~= s.drop_last().update(i, (edge, value)));
        assert(s.last().0 != edge);
        assert(edge_map(t) =~= edge_map(s).insert(edge, value));
    }
}

/// Some of the first `n` positions has key `k`.
pub open spec fn processed(positions: Seq<TilePosition>, n: int, k: u64) -> bool {
    exists|j: int| 0 <= j < n && position_key(#[trigger] positions[j]) == k
}

/// Grids with the same outlines agree on which edges lie on the surface.
pub proof fn lemma_same_outlines_surface(a: Map<u64, TerrainGridTile>, b: Map<u64, TerrainGridTile>, p: TilePosition)
    requires
        same_outlines(a, b),
    ensures
        forall|q: TilePosition| #[trigger] vertices_at(a, q) == vertices_at(b, q),
        forall|vs: Seq<Vertex>| #[trigger] surface_edges_of(a, p, vs) == surface_edges_of(b, p, vs),
{
    assert forall|q: TilePosition| #[trigger] vertices_at(a, q) == vertices_at(b, q) by {
        if a.contains_key(position_key(q)) {
            assert(b.contains_key(position_key(q)));
        } else {
            assert(!b.contains_key(position_key(q)));
        }
    }
    assert forall|vs: Seq<Vertex>| #[trigger] surface_edges_of(a, p, vs) == surface_edges_of(b, p, vs) by {
        let fa = |e: Edge| on_surface(a, p, e);
        let fb = |e: Edge| on_surface(b, p, e);
        assert(fa =~= fb);
    }
}

impl TerrainGrid {
    /// The edges of the tile at `p`, whose outline is `vertices`, that lie on
    /// the surface.
    fn surface_edges_at(&self, p: TilePosition, vertices: &RingVec<Vertex>) -> (edges: RingVec<Edge>)
        requires
            vertices.data@.len() > 0,
            i32::MIN < p.0 < i32::MAX,
            i32::MIN < p.1 < i32::MAX,
            vertices_at(self.tiles@, (sub1(p.0), p.1)) matches Some(vs) ==> vs.len() > 0,
            vertices_at(self.tiles@, (add1(p.0), p.1)) matches Some(vs) ==> vs.len() > 0,
            vertices_at(self.tiles@, (p.0, sub1(p.1))) matches Some(vs) ==> vs.len() > 0,
            vertices_at(self.tiles@, (p.0, add1(p.1))) matches Some(vs) ==> vs.len() > 0,
        ensures
            edges.data@ == surface_edges_of(self.tiles@, p, vertices.data@),
    {
        let all = get_edges_from_vertices(vertices);
        let ghost vs = vertices.data@;
        proof {
            assert(all.data@ =~= outline_edges(vs));
        }
        let left = self.tiles.get(&key_of((p.0 - 1, p.1)));
        let right = self.tiles.get(&key_of((p.0 + 1, p.1)));
        let top = self.tiles.get(&key_of((p.0, p.1 - 1)));
        let bottom = self.tiles.get(&key_of((p.0, p.1 + 1)));
        let ghost pred = |e: Edge| on_surface(self.tiles@, p, e);
        let mut kept: RingVec<Edge> = RingVec::new(8);
        let mut i: usize = 0;
        while i < all.data.len()
            invariant
                i <= all.data@.len(),
                all.data@ == outline_edges(vs),
                pred == (|e: Edge| on_surface(self.tiles@, p, e)),
                left == (if self.tiles@.contains_key(position_key((sub1(p.0), p.1))) { Some(&self.tiles@[position_key((sub1(p.0), p.1))]) } else { None }),
                right == (if self.tiles@.contains_key(position_key((add1(p.0), p.1))) { Some(&self.tiles@[position_key((add1(p.0), p.1))]) } else { None }),
                top == (if self.tiles@.contains_key(position_key((p.0, sub1(p.1)))) { Some(&self.tiles@[position_key((p.0, sub1(p.1)))]) } else { None }),
                bottom == (if self.tiles@.contains_key(position_key((p.0, add1(p.1)))) { Some(&self.tiles@[position_key((p.0, add1(p.1)))]) } else { None }),
                vertices_at(self.tiles@, (sub1(p.0), p.1)) matches Some(vs) ==> vs.len() > 0,
                vertices_at(self.tiles@, (add1(p.0), p.1)) matches Some(vs) ==> vs.len() > 0,
                vertices_at(self.tiles@, (p.0, sub1(p.1))) matches Some(vs) ==> vs.len() > 0,
                vertices_at(self.tiles@, (p.0, add1(p.1))) matches Some(vs) ==> vs.len() > 0,
                kept.data@ == all.data@.take(i as int).filter(pred),
            decreases all.data@.len() - i,
        {
            let edge = all.data[i];
            let keep = is_edge_on_surface(edge, left, right, top, bottom);
            proof {
                assert(keep == pred(edge));
                reveal(Seq::filter);
                assert(all.data@.take(i + 1).drop_last() =~= all.data@.take(i as int));
            }
            if keep {
                kept.data.push(edge);
            }
            i = i + 1;
        }
        proof {
            assert(all.data@.take(all.data@.len() as int) =~= all.data@);
        }
        kept
    }
}

impl TerrainGrid {
    /// Works out, for the tile at each of the positions, the edges of its
    /// outline that no neighbouring tile covers, and opens each of them for
    /// tracing at the tile's position. Positions without a tile are skipped.
    pub fn prepare_polyline_calculation_for_tiles(&mut self, positions: &Vec<TilePosition>)
        requires
            old(self).wf(),
            unique_edges(old(self).open_edges@),
            forall|i: int| 0 <= i < positions@.len() ==> preparable(old(self).tiles@, #[trigger] positions@[i]),
        ensures
            final(self).wf(),
            unique_edges(final(self).open_edges@),
            same_outlines(final(self).tiles@, old(self).tiles@),
            forall|k: u64| #[trigger]
                final(self).tiles@.contains_key(k) ==> if processed(positions@, positions@.len() as int, k) {
                    final(self).tiles@[k].surface_edges.data@ == surface_edges_of(
                        old(self).tiles@,
                        final(self).tiles@[k].position,
                        final(self).tiles@[k].vertices.data@,
                    )
                } else {
                    final(self).tiles@[k] == old(self).tiles@[k]
                },
            edge_map(final(self).open_edges@) == prepared_open_edges(
                edge_map(old(self).open_edges@),
                old(self).tiles@,
                positions@,
            ),
    {
        let ghost start = self.tiles@;
        let mut i: usize = 0;
        proof {
            assert(positions@.take(0) =~= Seq::<TilePosition>::empty());
        }
        while i < positions.len()
            invariant
                i <= positions@.len(),
                self.wf(),
                start == old(self).tiles@,
                unique_edges(self.open_edges@),
                same_outlines(self.tiles@, start),
                forall|j: int| 0 <= j < positions@.len() ==> preparable(start, #[trigger] positions@[j]),
                forall|k: u64| #[trigger]
                    self.tiles@.contains_key(k) ==> if processed(positions@, i as int, k) {
                        self.tiles@[k].surface_edges.data@ == surface_edges_of(
                            start,
                            self.tiles@[k].position,
                            self.tiles@[k].vertices.data@,
                        )
                    } else {
                        self.tiles@[k] == start[k]
                    },
                edge_map(self.open_edges@) == prepared_open_edges(
                    edge_map(old(self).open_edges@),
                    start,
                    positions@.take(i as int),
                ),
            decreases positions@.len() - i,
        {
            let p = positions[i];
            let key = key_of(p);
            let ghost open_before = edge_map(self.open_edges@);
            let ghost tiles_before = self.tiles@;
            proof {
                assert(positions@.take(i + 1).drop_last() =~= positions@.take(i as int));
                assert(positions@.take(i + 1).last() == p);
                lemma_same_outlines_surface(self.tiles@, start, p);
                assert(preparable(start, positions@[i as int]));
            }
            match self.tiles.remove(&key) {
                Some(tile) => {
                    let mut tile = tile;
                    proof {
                        assert(tile == tiles_before[key]);
                        assert(vertices_at(start, p) == Some(tile.vertices.data@));
                    }
                    let edges = {
                        self.tiles.insert(key, tile);
                        let t = self.tiles.get(&key).unwrap();
                        proof {
                            assert(self.tiles@ =~= tiles_before);
                        }
                        let vertices = &t.vertices;
                        let e = self.surface_edges_at(p, vertices);
                        let taken = self.tiles.remove(&key).unwrap();
                        tile = taken;
                        e
                    };
                    proof {
                        lemma_same_outlines_surface(tiles_before, start, p);
                        assert(edges.data@ == surface_edges_of(start, p, tile.vertices.data@));
                        assert(self.tiles@ =~= tiles_before.remove(key));
                    }
                    let ghost after_remove = self.tiles@;
                    let mut j: usize = 0;
                    while j < edges.data.len()
                        invariant
                            self.tiles@ == after_remove,
                            j <= edges.data@.len(),
                            unique_edges(self.open_edges@),
                            edge_map(self.open_edges@) == opened(open_before, edges.data@.take(j as int), p),
                        decreases edges.data@.len() - j,
                    {
                        put_edge(&mut self.open_edges, edges.data[j], p);
                        proof {
                            assert(edges.data@.take(j + 1).drop_last() =~= edges.data@.take(j as int));
                        }
                        j = j + 1;
                    }
                    proof {
                        assert(edges.data@.take(edges.data@.len() as int) =~= edges.data@);
                    }
                    tile.surface_edges = edges;
                    self.tiles.insert(key, tile);
                    proof {
                        assert(tiles_before[key].position == p) by {
                            lemma_position_key_injective(tiles_before[key].position, p);
                        }
                        assert forall|k: u64| #[trigger] self.tiles@.contains_key(k) implies if processed(
                            positions@,
                            i + 1,
                            k,
                        ) {
                            self.tiles@[k].surface_edges.data@ == surface_edges_of(
                                start,
                                self.tiles@[k].position,
                                self.tiles@[k].vertices.data@,
                            )
                        } else {
                            self.tiles@[k] == start[k]
                        } by {
                            if k != key {
                                assert(self.tiles@[k] == tiles_before[k]);
                                if processed(positions@, i + 1, k) {
                                    let w = choose|w: int| 0 <= w < i + 1 && position_key(#[trigger] positions@[w]) == k;
                                    assert(w != i);
                                    assert(processed(positions@, i as int, k));
                                } else {
                                    assert(!processed(positions@, i as int, k));
                                }
                            } else {
                                assert(position_key(positions@[i as int]) == k);
                                assert(processed(positions@, i + 1, k));
                            }
                        }
                        assert(self.tiles@.dom() =~= start.dom());
                    }
                },
                None => {
                    proof {
                        assert(self.tiles@ =~= tiles_before);
                        assert(vertices_at(start, p) is None);
                        assert forall|k: u64| #[trigger] self.tiles@.contains_key(k) implies if processed(
                            positions@,
                            i + 1,
                            k,
                        ) {
                            self.tiles@[k].surface_edges.data@ == surface_edges_of(
                                start,
                                self.tiles@[k].position,
                                self.tiles@[k].vertices.data@,
                            )
                        } else {
                            self.tiles@[k] == start[k]
                        } by {
                            assert(k != key);
                            if processed(positions@, i + 1, k) {
                                let w = choose|w: int| 0 <= w < i + 1 && position_key(#[trigger] positions@[w]) == k;
                                assert(w != i);
                                assert(processed(positions@, i as int, k));
                            } else {
                                assert(!processed(positions@, i as int, k));
                            }
                        }
                    }
                },
            }
            i = i + 1;
        }
        proof {
            assert(positions@.take(positions@.len() as int) =~= positions@);
        }
    }
}

} // verus!
