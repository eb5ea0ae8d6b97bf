use vstd::prelude::*;

use crate::polyline_tracing::{
    lemma_same_traces_polyline, lines_consistent, same_surfaces, traced, traced_to, traces_listed,
    traces_polyline, unique_ids,
};
use crate::blueprint::{Chunk, TerrainParams};
use crate::terrain::{Edge, PolyLineId, TerrainGridTile, TerrainPolyLineBuilder, TilePosition};
use crate::terrain_grid::{
    edge_map, key_of, lemma_edge_map_absent, lemma_edge_map_at, lemma_edge_map_present,
    lemma_position_key_injective, opened, position_key, processed, put_edge, unique_edges, TerrainGrid,
};

verus! {

/// The map without the keys whose value is `id`.
pub open spec fn without_value(m: Map<Edge, PolyLineId>, id: PolyLineId) -> Map<Edge, PolyLineId> {
    Map::new(|e: Edge| m.contains_key(e) && m[e] != id, |e: Edge| m[e])
}

/// Whether a pair's value is not `id`.
pub open spec fn not_of(id: PolyLineId) -> spec_fn((Edge, PolyLineId)) -> bool {
    |p: (Edge, PolyLineId)| p.1 != id
}

/// The pairs of the list whose value is not `id`, in order.
pub open spec fn kept_pairs(s: Seq<(Edge, PolyLineId)>, id: PolyLineId) -> Seq<(Edge, PolyLineId)> {
    s.filter(not_of(id))
}

/// Dropping the pairs of one value from a list without repeated edges
/// drops exactly the keys of that value from its map.
proof fn lemma_kept_pairs(s: Seq<(Edge, PolyLineId)>, id: PolyLineId)
    requires
        unique_edges(s),
    ensures
        unique_edges(kept_pairs(s, id)),
        edge_map(kept_pairs(s, id)) == without_value(edge_map(s), id),
    decreases s.len(),
{
    reveal(Seq::filter);
    if s.len() == 0 {
        assert(edge_map(kept_pairs(s, id)) =~= without_value(edge_map(s), id));
    } else {
        let t = s.drop_last();
        assert(unique_edges(t));
        lemma_kept_pairs(t, id);
        assert forall|k: int| 0 <= k < t.len() implies t[k].0 != s.last().0 by {
            assert(s[k].0 != s[s.len() - 1].0);
        }
        lemma_edge_map_absent(t, s.last().0);
        let kt = kept_pairs(t, id);
        assert forall|k: int| 0 <= k < kt.len() implies kt[k].0 != s.last().0 by {
            assert(kt.contains(kt[k]));
            t.lemma_filter_contains_rev(not_of(id), kt[k]);
            let w = choose|w: int| 0 <= w < t.len() && t[w] == kt[k];
        }
        if s.last().1 != id {
            assert(kept_pairs(s, id) == kt.push(s.last()));
            assert forall|a: int, b: int| 0 <= a < b < kept_pairs(s, id).len() implies kept_pairs(s, id)[a].0
                != kept_pairs(s, id)[b].0 by {
                if b < kt.len() {
                } else {
                    assert(kept_pairs(s, id)[b] == s.last());
                }
            }
            assert(kept_pairs(s, id).drop_last() =~= kt);
        } else {
            assert(kept_pairs(s, id) == kt);
        }
        assert(edge_map(kept_pairs(s, id)) =~= without_value(edge_map(s), id));
    }
}

/// Bounds of a block of positions, `(min_x, max_x, min_y, max_y)`, all
/// included.
pub type Bounds = (i32, i32, i32, i32);

/// The position lies in the block but not on one of its four corners.
pub open spec fn in_region(b: Bounds, p: TilePosition) -> bool {
    &&& b.0 <= p.0 <= b.1
    &&& b.2 <= p.1 <= b.3
    &&& !((p.0 == b.0 || p.0 == b.1) && (p.1 == b.2 || p.1 == b.3))
}

/// Whether the position lies in the block but not on a corner.
pub fn in_region_exec(b: Bounds, p: TilePosition) -> (inside: bool)
    ensures
        inside == in_region(b, p),
{
    b.0 <= p.0 && p.0 <= b.1 && b.2 <= p.1 && p.1 <= b.3 && !((p.0 == b.0 || p.0 == b.1) && (p.1 == b.2
        || p.1 == b.3))
}

/// One of the first `n` tiles of the line is at `pos`, outside the block,
/// and has `e` traced to the line: releasing the line opens `e` there.
pub open spec fn reopened(
    tiles: Map<u64, TerrainGridTile>,
    line: TerrainPolyLineBuilder,
    n: int,
    b: Bounds,
    e: Edge,
    pos: TilePosition,
) -> bool {
    &&& exists|i: int| 0 <= i < n && line.tiles@[i] == pos
    &&& !in_region(b, pos)
    &&& traced_to(tiles, position_key(pos), e, line.id)
}

/// The open edges `after` are those `before` and those reopened, each
/// reopened one at one of the places it was reopened.
pub open spec fn open_after(
    before: Map<Edge, TilePosition>,
    after: Map<Edge, TilePosition>,
    tiles: Map<u64, TerrainGridTile>,
    line: TerrainPolyLineBuilder,
    n: int,
    b: Bounds,
) -> bool {
    &&& forall|e: Edge| #[trigger]
        after.contains_key(e) <==> before.contains_key(e) || exists|pos: TilePosition|
            #[trigger] reopened(tiles, line, n, b, e, pos)
    &&& forall|e: Edge| #[trigger]
        after.contains_key(e) ==> if exists|pos: TilePosition| #[trigger] reopened(tiles, line, n, b, e, pos) {
            reopened(tiles, line, n, b, e, after[e])
        } else {
            after[e] == before[e]
        }
}

impl TerrainGrid {
    /// Untraces, in the tile at `q`, every edge traced to `id`, and gives
    /// those edges back.
    fn untrace_in_tile(&mut self, q: TilePosition, id: PolyLineId) -> (edges: Vec<Edge>)
        requires
            old(self).wf(),
            old(self).tiles@.contains_key(position_key(q)),
        ensures
            final(self).wf(),
            final(self).open_edges == old(self).open_edges,
            same_surfaces(old(self).tiles@, final(self).tiles@),
            forall|k: u64| #[trigger]
                old(self).tiles@.contains_key(k) && k != position_key(q) ==> final(self).tiles@[k] == old(
                    self,
                ).tiles@[k],
            edge_map(final(self).tiles@[position_key(q)].edge_polylines@) == without_value(
                edge_map(old(self).tiles@[position_key(q)].edge_polylines@),
                id,
            ),
            forall|e: Edge| edges@.contains(e) <==> traced_to(old(self).tiles@, position_key(q), e, id),
    {
        let key = key_of(q);
        let ghost before = self.tiles@;
        let mut tile = self.tiles.remove(&key).unwrap();
        let ghost list = tile.edge_polylines@;
        let mut kept: Vec<(Edge, PolyLineId)> = Vec::new();
        let mut edges: Vec<Edge> = Vec::new();
        let mut i: usize = 0;
        while i < tile.edge_polylines.len()
            invariant
                tile.edge_polylines@ == list,
                i <= list.len(),
                kept@ == kept_pairs(list.take(i as int), id),
                forall|e: Edge| edges@.contains(e) <==> exists|j: int| 0 <= j < i && #[trigger] list[j] == (e, id),
            decreases list.len() - i,
        {
            let pair = tile.edge_polylines[i];
            proof {
                reveal(Seq::filter);
                assert(list.take(i + 1).drop_last() =~= list.take(i as int));
            }
            let ghost edges_before = edges@;
            assert(pair == list[i as int]);
            if pair.1 != id {
                kept.push(pair);
                proof {
                    assert forall|e: Edge| edges@.contains(e) <==> exists|j: int| 0 <= j < i + 1 && #[trigger] list[j] == (e, id) by {
                        if exists|j: int| 0 <= j < i + 1 && #[trigger] list[j] == (e, id) {
                            let j = choose|j: int| 0 <= j < i + 1 && #[trigger] list[j] == (e, id);
                            assert(j != i);
                        }
                    }
                }
            } else {
                edges.push(pair.0);
                proof {
                    assert forall|e: Edge| edges@.contains(e) <==> exists|j: int| 0 <= j < i + 1 && #[trigger] list[j] == (e, id) by {
                        if edges@.contains(e) {
                            let w = choose|w: int| 0 <= w < edges@.len() && edges@[w] == e;
                            if w == edges_before.len() {
                                assert(list[i as int] == (e, id));
                            } else {
                                assert(edges_before.contains(e));
                            }
                        }
                        if exists|j: int| 0 <= j < i + 1 && #[trigger] list[j] == (e, id) {
                            let j = choose|j: int| 0 <= j < i + 1 && #[trigger] list[j] == (e, id);
                            if j == i {
                                assert(edges@[edges_before.len() as int] == e);
                            } else {
                                assert(edges_before.contains(e));
                                let w = choose|w: int| 0 <= w < edges_before.len() && edges_before[w] == e;
                                assert(edges@[w] == e);
                            }
                        }
                    }
                }
            }
            i = i + 1;
        }
        proof {
            assert(list.take(list.len() as int) =~= list);
            lemma_kept_pairs(list, id);
            assert forall|e: Edge| edges@.contains(e) <==> traced_to(before, key, e, id) by {
                if edges@.contains(e) {
                    let j = choose|j: int| 0 <= j < list.len() && #[trigger] list[j] == (e, id);
                    lemma_edge_map_at(list, j);
                }
                if traced_to(before, key, e, id) {
                    let j = lemma_edge_map_present(list, e);
                    lemma_edge_map_at(list, j);
                    assert(list[j] == (e, id));
                }
            }
        }
        tile.edge_polylines = kept;
        self.tiles.insert(key, tile);
        proof {
            assert(self.tiles@.dom() =~= before.dom());
        }
        edges
    }
}

/// Opening a list of edges at `p` opens each of them there and leaves the
/// others as they were.
pub proof fn lemma_opened(m: Map<Edge, TilePosition>, es: Seq<Edge>, p: TilePosition)
    ensures
        forall|e: Edge| #[trigger]
            opened(m, es, p).contains_key(e) <==> m.contains_key(e) || es.contains(e),
        forall|e: Edge| #[trigger]
            opened(m, es, p).contains_key(e) ==> opened(m, es, p)[e] == if es.contains(e) {
                p
            } else {
                m[e]
            },
    decreases es.len(),
{
    if es.len() > 0 {
        let d = es.drop_last();
        lemma_opened(m, d, p);
        assert(opened(m, es, p) == opened(m, d, p).insert(es.last(), p));
        assert forall|e: Edge| es.contains(e) <==> d.contains(e) || e == es.last() by {
            if es.contains(e) {
                let i = choose|i: int| 0 <= i < es.len() && es[i] == e;
                if i < es.len() - 1 {
                    assert(es.drop_last()[i] == e);
                }
            }
            if es.drop_last().contains(e) {
                let i = choose|i: int| 0 <= i < es.drop_last().len() && es.drop_last()[i] == e;
                assert(es[i] == e);
            }
            if e == es.last() {
                assert(es[es.len() - 1] == e);
            }
        }
        assert forall|e: Edge| #[trigger] opened(m, es, p).contains_key(e) <==> m.contains_key(e) || es.contains(e) by {
            assert(opened(m, d, p).contains_key(e) <==> m.contains_key(e) || d.contains(e));
        }
        assert forall|e: Edge| #[trigger] opened(m, es, p).contains_key(e) implies opened(m, es, p)[e] == if es.contains(e) {
            p
        } else {
            m[e]
        } by {
            if e != es.last() {
                assert(opened(m, d, p).contains_key(e));
            }
        }
    } else {
        assert forall|e: Edge| !es.contains(e) by {}
    }
}

impl TerrainGrid {
    /// Opens each of the edges at `p`.
    fn reopen_edges(&mut self, edges: &Vec<Edge>, p: TilePosition)
        requires
            unique_edges(old(self).open_edges@),
        ensures
            unique_edges(final(self).open_edges@),
            final(self).tiles == old(self).tiles,
            edge_map(final(self).open_edges@) == opened(edge_map(old(self).open_edges@), edges@, p),
    {
        let mut i: usize = 0;
        while i < edges.len()
            invariant
                i <= edges@.len(),
                self.tiles == old(self).tiles,
                unique_edges(self.open_edges@),
                edge_map(self.open_edges@) == opened(edge_map(old(self).open_edges@), edges@.take(i as int), p),
            decreases edges@.len() - i,
        {
            put_edge(&mut self.open_edges, edges[i], p);
            proof {
                assert(edges@.take(i + 1).drop_last() =~= edges@.take(i as int));
            }
            i = i + 1;
        }
        proof {
            assert(edges@.take(edges@.len() as int) =~= edges@);
        }
    }

    /// Releases a polyline: in each of its tiles, in order, the edges traced
    /// to it are untraced, and, where the tile lies outside the block, opened
    /// again there.
    fn release_polyline(&mut self, line: &TerrainPolyLineBuilder, b: Bounds)
        requires
            old(self).wf(),
            unique_edges(old(self).open_edges@),
        ensures
            final(self).wf(),
            unique_edges(final(self).open_edges@),
            same_surfaces(old(self).tiles@, final(self).tiles@),
            forall|k: u64| #[trigger]
                old(self).tiles@.contains_key(k) ==> if processed(line.tiles@, line.tiles@.len() as int, k) {
                    edge_map(final(self).tiles@[k].edge_polylines@) == without_value(
                        edge_map(old(self).tiles@[k].edge_polylines@),
                        line.id,
                    )
                } else {
                    final(self).tiles@[k] == old(self).tiles@[k]
                },
            open_after(
                edge_map(old(self).open_edges@),
                edge_map(final(self).open_edges@),
                old(self).tiles@,
                *line,
                line.tiles@.len() as int,
                b,
            ),
    {
        let ghost t0 = self.tiles@;
        let ghost o0 = edge_map(self.open_edges@);
        let id = line.id;
        let mut j: usize = 0;
        while j < line.tiles.len()
            invariant
                self.wf(),
                unique_edges(self.open_edges@),
                j <= line.tiles@.len(),
                id == line.id,
                t0 == old(self).tiles@,
                o0 == edge_map(old(self).open_edges@),
                same_surfaces(t0, self.tiles@),
                forall|k: u64| #[trigger]
                    t0.contains_key(k) ==> if processed(line.tiles@, j as int, k) {
                        edge_map(self.tiles@[k].edge_polylines@) == without_value(edge_map(t0[k].edge_polylines@), id)
                    } else {
                        self.tiles@[k] == t0[k]
                    },
                open_after(o0, edge_map(self.open_edges@), t0, *line, j as int, b),
            decreases line.tiles@.len() - j,
        {
            let pos = line.tiles[j];
            let ghost tiles_before = self.tiles@;
            let ghost open_before = edge_map(self.open_edges@);
            let key = key_of(pos);
            if self.tiles.contains_key(&key) {
                let edges = self.untrace_in_tile(pos, id);
                let outside = !in_region_exec(b, pos);
                if outside {
                    self.reopen_edges(&edges, pos);
                }
                proof {
                    let open_now = edge_map(self.open_edges@);
                    let was = processed(line.tiles@, j as int, key);
                    if outside {
                        lemma_opened(open_before, edges@, pos);
                    }
                    assert forall|e: Edge| edges@.contains(e) <==> !was && traced_to(t0, key, e, id) by {
                        if was {
                            assert(!traced_to(tiles_before, key, e, id));
                        }
                    }
                    assert forall|e: Edge, p: TilePosition|
                        #![trigger reopened(t0, *line, j + 1, b, e, p)]
                        #![trigger reopened(t0, *line, j as int, b, e, p)]
                        reopened(t0, *line, j + 1, b, e, p) <==> reopened(t0, *line, j as int, b, e, p) || (p == pos && outside && edges@.contains(e)) by {
                        if reopened(t0, *line, j + 1, b, e, p) && !reopened(t0, *line, j as int, b, e, p) {
                            let i = choose|i: int| 0 <= i < j + 1 && line.tiles@[i] == p;
                            assert(i == j);
                            if was {
                                let w = choose|w: int| 0 <= w < j && position_key(#[trigger] line.tiles@[w]) == key;
                                lemma_position_key_injective(line.tiles@[w], pos);
                                assert(reopened(t0, *line, j as int, b, e, p));
                            }
                        }
                        if p == pos && outside && edges@.contains(e) {
                            assert(line.tiles@[j as int] == pos);
                        }
                    }
                    assert forall|k: u64| #[trigger] t0.contains_key(k) implies if processed(line.tiles@, j + 1, k) {
                        edge_map(self.tiles@[k].edge_polylines@) == without_value(edge_map(t0[k].edge_polylines@), id)
                    } else {
                        self.tiles@[k] == t0[k]
                    } by {
                        if k == key {
                            assert(processed(line.tiles@, j + 1, k));
                            if was {
                                assert(without_value(without_value(edge_map(t0[k].edge_polylines@), id), id) =~= without_value(edge_map(t0[k].edge_polylines@), id));
                            }
                        } else {
                            if processed(line.tiles@, j + 1, k) {
                                let w = choose|w: int| 0 <= w < j + 1 && position_key(#[trigger] line.tiles@[w]) == k;
                                assert(w != j);
                                assert(processed(line.tiles@, j as int, k));
                            }
                        }
                    }
                    assert forall|e: Edge| #[trigger] open_now.contains_key(e) <==> o0.contains_key(e) || exists|p: TilePosition| #[trigger] reopened(t0, *line, j + 1, b, e, p) by {
                        if outside && edges@.contains(e) {
                            assert(reopened(t0, *line, j + 1, b, e, pos));
                        }
                        if outside {
                            assert(open_now.contains_key(e) <==> open_before.contains_key(e) || edges@.contains(e));
                        }
                        if open_before.contains_key(e) && !o0.contains_key(e) {
                            let p = choose|p: TilePosition| #[trigger] reopened(t0, *line, j as int, b, e, p);
                            assert(reopened(t0, *line, j + 1, b, e, p));
                        }
                        if exists|p: TilePosition| #[trigger] reopened(t0, *line, j + 1, b, e, p) {
                            let p = choose|p: TilePosition| #[trigger] reopened(t0, *line, j + 1, b, e, p);
                            if !reopened(t0, *line, j as int, b, e, p) {
                                assert(outside && edges@.contains(e));
                            } else {
                                assert(open_before.contains_key(e));
                            }
                        }
                    }
                    assert forall|e: Edge| #[trigger] open_now.contains_key(e) implies if exists|p: TilePosition| #[trigger] reopened(t0, *line, j + 1, b, e, p) {
                        reopened(t0, *line, j + 1, b, e, open_now[e])
                    } else {
                        open_now[e] == o0[e]
                    } by {
                        if outside && edges@.contains(e) {
                            assert(open_now[e] == pos);
                        } else {
                            assert(open_now[e] == open_before[e]);
                            if exists|p: TilePosition| #[trigger] reopened(t0, *line, j + 1, b, e, p) {
                                let p = choose|p: TilePosition| #[trigger] reopened(t0, *line, j + 1, b, e, p);
                                assert(reopened(t0, *line, j as int, b, e, p));
                                assert(reopened(t0, *line, j as int, b, e, open_before[e]));
                            } else {
                                assert forall|p: TilePosition| !reopened(t0, *line, j as int, b, e, p) by {
                                    assert(!reopened(t0, *line, j + 1, b, e, p));
                                }
                            }
                        }
                    }
                }
            } else {
                proof {
                    assert(!t0.contains_key(key));
                    assert forall|e: Edge, p: TilePosition|
                        #![trigger reopened(t0, *line, j + 1, b, e, p)]
                        #![trigger reopened(t0, *line, j as int, b, e, p)]
                        reopened(t0, *line, j + 1, b, e, p) <==> reopened(t0, *line, j as int, b, e, p) by {
                        if reopened(t0, *line, j + 1, b, e, p) {
                            let i = choose|i: int| 0 <= i < j + 1 && line.tiles@[i] == p;
                            if i == j {
                                assert(t0.contains_key(position_key(p)));
                            }
                        }
                    }
                    assert forall|k: u64| #[trigger] t0.contains_key(k) implies if processed(line.tiles@, j + 1, k) {
                        edge_map(self.tiles@[k].edge_polylines@) == without_value(edge_map(t0[k].edge_polylines@), id)
                    } else {
                        self.tiles@[k] == t0[k]
                    } by {
                        if processed(line.tiles@, j + 1, k) {
                            let w = choose|w: int| 0 <= w < j + 1 && position_key(#[trigger] line.tiles@[w]) == k;
                            assert(w != j);
                            assert(processed(line.tiles@, j as int, k));
                        }
                    }
                }
            }
            j = j + 1;
        }
    }
}

/// The position lies in the block and comes before `(x, y)` column by
/// column.
pub open spec fn scanned(b: Bounds, x: int, y: int, p: TilePosition) -> bool {
    in_region(b, p) && (p.0 < x || (p.0 == x && p.1 < y))
}

/// Some edge of a tile scanned before `(x, y)` is traced to `id`.
pub open spec fn id_seen(tiles: Map<u64, TerrainGridTile>, b: Bounds, x: int, y: int, id: PolyLineId) -> bool {
    exists|p: TilePosition, e: Edge| scanned(b, x, y, p) && #[trigger] traced_to(tiles, position_key(p), e, id)
}

/// Some edge of a tile in the block is traced to `id`.
pub open spec fn traced_in_region(tiles: Map<u64, TerrainGridTile>, b: Bounds, id: PolyLineId) -> bool {
    exists|p: TilePosition, e: Edge| in_region(b, p) && #[trigger] traced_to(tiles, position_key(p), e, id)
}

impl TerrainGrid {
    /// Adds to `ids`, once each, the polylines that edges of the tile at `q`
    /// are traced to.
    fn add_tile_ids(&self, q: TilePosition, ids: &mut Vec<PolyLineId>)
        requires
            self.wf(),
            self.tiles@.contains_key(position_key(q)),
            old(ids)@.no_duplicates(),
        ensures
            final(ids)@.no_duplicates(),
            forall|id: PolyLineId| #[trigger]
                final(ids)@.contains(id) <==> old(ids)@.contains(id) || exists|e: Edge|
                    #[trigger] traced_to(self.tiles@, position_key(q), e, id),
    {
        let tile = self.tiles.get(&key_of(q)).unwrap();
        let ghost list = tile.edge_polylines@;
        let mut i: usize = 0;
        while i < tile.edge_polylines.len()
            invariant
                list == tile.edge_polylines@,
                *tile == self.tiles@[position_key(q)],
                self.wf(),
                self.tiles@.contains_key(position_key(q)),
                i <= list.len(),
                ids@.no_duplicates(),
                forall|id: PolyLineId| #[trigger]
                    ids@.contains(id) <==> old(ids)@.contains(id) || exists|j: int| 0 <= j < i && #[trigger] list[j].1 == id,
            decreases list.len() - i,
        {
            let id = tile.edge_polylines[i].1;
            let mut known = false;
            let mut w: usize = 0;
            while w < ids.len()
                invariant
                    w <= ids@.len(),
                    known == exists|v: int| 0 <= v < w && ids@[v] == id,
                decreases ids@.len() - w,
            {
                if ids[w] == id {
                    known = true;
                }
                w = w + 1;
            }
            let ghost ids_before = ids@;
            if !known {
                ids.push(id);
            }
            proof {
                assert forall|x: PolyLineId| #[trigger] ids@.contains(x) <==> old(ids)@.contains(x) || exists|j: int| 0 <= j < i + 1 && #[trigger] list[j].1 == x by {
                    if x == id {
                        assert(list[i as int].1 == x);
                        if known {
                            let v = choose|v: int| 0 <= v < ids_before.len() && ids_before[v] == id;
                            assert(ids_before.contains(id));
                        } else {
                            assert(ids@[ids_before.len() as int] == id);
                        }
                    } else {
                        if ids@.contains(x) && !known {
                            let v = choose|v: int| 0 <= v < ids@.len() && ids@[v] == x;
                            assert(v < ids_before.len());
                            assert(ids_before.contains(x));
                        }
                        if ids_before.contains(x) && !known {
                            let v = choose|v: int| 0 <= v < ids_before.len() && ids_before[v] == x;
                            assert(ids@[v] == x);
                        }
                        if exists|j: int| 0 <= j < i + 1 && #[trigger] list[j].1 == x {
                            let j = choose|j: int| 0 <= j < i + 1 && #[trigger] list[j].1 == x;
                            assert(j < i);
                        }
                    }
                }
            }
            i = i + 1;
        }
        proof {
            assert forall|id: PolyLineId| #[trigger] ids@.contains(id) <==> old(ids)@.contains(id) || exists|e: Edge|
                #[trigger] traced_to(self.tiles@, position_key(q), e, id) by {
                if exists|j: int| 0 <= j < list.len() && #[trigger] list[j].1 == id {
                    let j = choose|j: int| 0 <= j < list.len() && #[trigger] list[j].1 == id;
                    lemma_edge_map_at(list, j);
                    assert(traced_to(self.tiles@, position_key(q), list[j].0, id));
                }
                if exists|e: Edge| #[trigger] traced_to(self.tiles@, position_key(q), e, id) {
                    let e = choose|e: Edge| #[trigger] traced_to(self.tiles@, position_key(q), e, id);
                    let j = lemma_edge_map_present(list, e);
                    lemma_edge_map_at(list, j);
                    assert(list[j].1 == id);
                }
            }
        }
    }
}

impl TerrainGrid {
    /// The polylines traced in tiles of the block, once each, and the
    /// positions of the block, once each, column by column.
    fn scan_region(&self, b: Bounds) -> (result: (Vec<PolyLineId>, Vec<TilePosition>))
        requires
            self.wf(),
            b.1 < i32::MAX,
            b.3 < i32::MAX,
        ensures
            result.0@.no_duplicates(),
            forall|id: PolyLineId| #[trigger] result.0@.contains(id) <==> traced_in_region(self.tiles@, b, id),
            result.1@.no_duplicates(),
            forall|p: TilePosition| #[trigger] result.1@.contains(p) <==> in_region(b, p),
    {
        let mut ids: Vec<PolyLineId> = Vec::new();
        let mut affected: Vec<TilePosition> = Vec::new();
        let mut x = b.0;
        while x <= b.1
            invariant
                self.wf(),
                b.1 < i32::MAX,
                b.3 < i32::MAX,
                b.0 <= x,
                x <= b.1 + 1 || x == b.0,
                ids@.no_duplicates(),
                forall|id: PolyLineId| #[trigger] ids@.contains(id) <==> id_seen(self.tiles@, b, x as int, b.2 as int, id),
                affected@.no_duplicates(),
                forall|p: TilePosition| #[trigger] affected@.contains(p) <==> scanned(b, x as int, b.2 as int, p),
            decreases b.1 + 1 - x,
        {
            let mut y = b.2;
            while y <= b.3
                invariant
                    self.wf(),
                    b.0 <= x <= b.1,
                    b.3 < i32::MAX,
                    b.2 <= y,
                    y <= b.3 + 1 || y == b.2,
                    ids@.no_duplicates(),
                    forall|id: PolyLineId| #[trigger] ids@.contains(id) <==> id_seen(self.tiles@, b, x as int, y as int, id),
                    affected@.no_duplicates(),
                    forall|p: TilePosition| #[trigger] affected@.contains(p) <==> scanned(b, x as int, y as int, p),
                decreases b.3 + 1 - y,
            {
                let corner = (x == b.0 || x == b.1) && (y == b.2 || y == b.3);
                let ghost ids_before = ids@;
                let ghost affected_before = affected@;
                if !corner {
                    let q = (x, y);
                    if self.tiles.contains_key(&key_of(q)) {
                        self.add_tile_ids(q, &mut ids);
                    }
                    affected.push(q);
                    proof {
                        assert(in_region(b, q));
                        assert forall|p: TilePosition| #[trigger] affected@.contains(p) <==> scanned(b, x as int, y + 1, p) by {
                            if affected@.contains(p) && p != q {
                                let w = choose|w: int| 0 <= w < affected@.len() && affected@[w] == p;
                                assert(affected_before.contains(p));
                            }
                            if affected_before.contains(p) {
                                let w = choose|w: int| 0 <= w < affected_before.len() && affected_before[w] == p;
                                assert(affected@[w] == p);
                            }
                            if p == q {
                                assert(affected@[affected_before.len() as int] == p);
                            }
                        }
                        assert(!affected_before.contains(q));
                    }
                }
                proof {
                    let q = (x, y);
                    assert forall|id: PolyLineId| #[trigger] ids@.contains(id) <==> id_seen(self.tiles@, b, x as int, y + 1, id) by {
                        if id_seen(self.tiles@, b, x as int, y + 1, id) {
                            let (p, e) = choose|p: TilePosition, e: Edge| scanned(b, x as int, y + 1, p) && #[trigger] traced_to(self.tiles@, position_key(p), e, id);
                            if p == q {
                                assert(!corner);
                                assert(traced_to(self.tiles@, position_key(q), e, id));
                            } else {
                                assert(scanned(b, x as int, y as int, p));
                                assert(id_seen(self.tiles@, b, x as int, y as int, id));
                            }
                        }
                        if ids@.contains(id) && !ids_before.contains(id) {
                            let e = choose|e: Edge| #[trigger] traced_to(self.tiles@, position_key(q), e, id);
                            assert(scanned(b, x as int, y + 1, q));
                        }
                        if ids_before.contains(id) {
                            let (p, e) = choose|p: TilePosition, e: Edge| scanned(b, x as int, y as int, p) && #[trigger] traced_to(self.tiles@, position_key(p), e, id);
                            assert(scanned(b, x as int, y + 1, p));
                        }
                    }
                    if corner {
                        assert forall|p: TilePosition| #[trigger] affected@.contains(p) <==> scanned(b, x as int, y + 1, p) by {
                            assert(scanned(b, x as int, y + 1, p) <==> scanned(b, x as int, y as int, p));
                        }
                    }
                }
                y = y + 1;
            }
            proof {
                assert forall|p: TilePosition| scanned(b, x as int, y as int, p) <==> scanned(b, x + 1, b.2 as int, p) by {}
                assert forall|id: PolyLineId| #[trigger] ids@.contains(id) <==> id_seen(self.tiles@, b, x + 1, b.2 as int, id) by {
                    if id_seen(self.tiles@, b, x + 1, b.2 as int, id) {
                        let (p, e) = choose|p: TilePosition, e: Edge| scanned(b, x + 1, b.2 as int, p) && #[trigger] traced_to(self.tiles@, position_key(p), e, id);
                        assert(scanned(b, x as int, y as int, p));
                    }
                    if id_seen(self.tiles@, b, x as int, y as int, id) {
                        let (p, e) = choose|p: TilePosition, e: Edge| scanned(b, x as int, y as int, p) && #[trigger] traced_to(self.tiles@, position_key(p), e, id);
                        assert(scanned(b, x + 1, b.2 as int, p));
                    }
                }
            }
            x = x + 1;
        }
        proof {
            assert forall|id: PolyLineId| #[trigger] ids@.contains(id) <==> traced_in_region(self.tiles@, b, id) by {
                if traced_in_region(self.tiles@, b, id) {
                    let (p, e) = choose|p: TilePosition, e: Edge| in_region(b, p) && #[trigger] traced_to(self.tiles@, position_key(p), e, id);
                    assert(scanned(b, x as int, b.2 as int, p));
                }
            }
        }
        (ids, affected)
    }
}

/// Taking one more element of a sequence adds that element.
proof fn lemma_take_push<A>(s: Seq<A>, i: int)
    requires
        0 <= i < s.len(),
    ensures
        forall|x: A| #[trigger] s.take(i + 1).contains(x) <==> s.take(i).contains(x) || x == s[i],
{
    assert(s.take(i + 1) =~= s.take(i).push(s[i]));
    assert forall|x: A| #[trigger] s.take(i + 1).contains(x) <==> s.take(i).contains(x) || x == s[i] by {
        if s.take(i).contains(x) {
            let t = s.take(i);
            let w = choose|w: int| 0 <= w < t.len() && t[w] == x;
            assert(s.take(i + 1)[w] == x);
        }
        if s.take(i + 1).contains(x) && x != s[i] {
            let t = s.take(i + 1);
            let w = choose|w: int| 0 <= w < t.len() && t[w] == x;
            assert(s.take(i)[w] == x);
        }
        if x == s[i] {
            assert(s.take(i + 1)[i] == x);
        }
    }
}

/// The index of the polyline with the id, if there is one.
fn find_line(lines: &Vec<TerrainPolyLineBuilder>, id: PolyLineId) -> (found: Option<usize>)
    ensures
        match found {
            Some(j) => j < lines@.len() && lines@[j as int].id == id,
            None => forall|j: int| 0 <= j < lines@.len() ==> lines@[j].id != id,
        },
{
    let mut j: usize = 0;
    while j < lines.len()
        invariant
            j <= lines@.len(),
            forall|w: int| 0 <= w < j ==> lines@[w].id != id,
        decreases lines@.len() - j,
    {
        if lines[j].id == id {
            return Some(j);
        }
        j = j + 1;
    }
    None
}

/// The block around a chunk: the chunk's tiles and one more row or column
/// on each side.
pub open spec fn chunk_bounds(chunk: Chunk, size: int) -> Bounds {
    (
        (chunk.position.0 * size - 1) as i32,
        (chunk.position.0 * size + size + 1) as i32,
        (chunk.position.1 * size - 1) as i32,
        (chunk.position.1 * size + size + 1) as i32,
    )
}

/// Some released polyline has the id and passes through the tile under `k`.
pub open spec fn released_at(removed: Seq<TerrainPolyLineBuilder>, k: u64, id: PolyLineId) -> bool {
    exists|i: int|
        0 <= i < removed.len() && #[trigger] removed[i].id == id && processed(
            removed[i].tiles@,
            removed[i].tiles@.len() as int,
            k,
        )
}

/// Some released polyline opens `e` again at `pos`.
pub open spec fn reopened_by(
    tiles: Map<u64, TerrainGridTile>,
    removed: Seq<TerrainPolyLineBuilder>,
    b: Bounds,
    e: Edge,
    pos: TilePosition,
) -> bool {
    exists|i: int| 0 <= i < removed.len() && #[trigger] reopened(tiles, removed[i], removed[i].tiles@.len() as int, b, e, pos)
}

impl TerrainGrid {
    /// Before a chunk is written, releases every polyline that runs through
    /// a tile of the block around it (the chunk's tiles and one more row
    /// and column on each side, corners left out): it leaves `lines`, its
    /// edges are untraced in its tiles, and in its tiles outside the block
    /// they are opened again. Gives back the released polylines and the
    /// positions of the block.
    pub fn remove_polylines_of_chunk_and_its_edges(
        &mut self,
        chunk: &Chunk,
        params: &TerrainParams,
        lines: &mut Vec<TerrainPolyLineBuilder>,
    ) -> (result: (Vec<TerrainPolyLineBuilder>, Vec<TilePosition>))
        requires
            old(self).wf(),
            unique_edges(old(self).open_edges@),
            unique_ids(old(lines)@),
            params.chunk_size <= i32::MAX,
            i32::MIN <= chunk.position.0 * (params.chunk_size as int) - 1,
            chunk.position.0 * (params.chunk_size as int) + params.chunk_size + 1 < i32::MAX,
            i32::MIN <= chunk.position.1 * (params.chunk_size as int) - 1,
            chunk.position.1 * (params.chunk_size as int) + params.chunk_size + 1 < i32::MAX,
        ensures
            ({
                let b = chunk_bounds(*chunk, params.chunk_size as int);
                let t0 = old(self).tiles@;
                let o0 = edge_map(old(self).open_edges@);
                let open = edge_map(final(self).open_edges@);
                &&& result.1@.no_duplicates()
                &&& forall|p: TilePosition| #[trigger] result.1@.contains(p) <==> in_region(b, p)
                &&& unique_ids(result.0@)
                &&& unique_ids(final(lines)@)
                &&& forall|l: TerrainPolyLineBuilder| #[trigger]
                    final(lines)@.contains(l) <==> old(lines)@.contains(l) && !traced_in_region(t0, b, l.id)
                &&& forall|l: TerrainPolyLineBuilder| #[trigger]
                    result.0@.contains(l) <==> old(lines)@.contains(l) && traced_in_region(t0, b, l.id)
                &&& final(self).wf()
                &&& unique_edges(final(self).open_edges@)
                &&& same_surfaces(t0, final(self).tiles@)
                &&& forall|k: u64, e: Edge, id: PolyLineId| #[trigger]
                    traced_to(final(self).tiles@, k, e, id) <==> traced_to(t0, k, e, id) && !released_at(result.0@, k, id)
                &&& forall|e: Edge| #[trigger]
                    open.contains_key(e) <==> o0.contains_key(e) || exists|pos: TilePosition|
                        #[trigger] reopened_by(t0, result.0@, b, e, pos)
                &&& forall|e: Edge| #[trigger]
                    open.contains_key(e) ==> if exists|pos: TilePosition| #[trigger] reopened_by(t0, result.0@, b, e, pos) {
                        reopened_by(t0, result.0@, b, e, open[e])
                    } else {
                        open[e] == o0[e]
                    }
                &&& lines_consistent(t0, old(lines)@) ==> lines_consistent(final(self).tiles@, final(lines)@) && forall|
                    p: TilePosition,
                    e: Edge,
                | in_region(b, p) ==> !#[trigger] traced(final(self).tiles@, position_key(p), e)
            }),
    {
        let size = params.chunk_size as i32;
        let (c_x, c_y) = chunk.position;
        let b: Bounds = (c_x * size - 1, c_x * size + size + 1, c_y * size - 1, c_y * size + size + 1);
        assert(b == chunk_bounds(*chunk, params.chunk_size as int));
        let ghost t0 = self.tiles@;
        let ghost o0 = edge_map(self.open_edges@);
        let ghost lines0 = lines@;
        let (ids, affected) = self.scan_region(b);
        let mut removed: Vec<TerrainPolyLineBuilder> = Vec::new();
        let mut i: usize = 0;
        while i < ids.len()
            invariant
                i <= ids@.len(),
                ids@.no_duplicates(),
                forall|id: PolyLineId| #[trigger] ids@.contains(id) <==> traced_in_region(t0, b, id),
                unique_ids(lines@),
                unique_ids(removed@),
                lines0 == old(lines)@,
                forall|l: TerrainPolyLineBuilder| #[trigger]
                    lines@.contains(l) <==> lines0.contains(l) && !ids@.take(i as int).contains(l.id),
                forall|l: TerrainPolyLineBuilder| #[trigger]
                    removed@.contains(l) <==> lines0.contains(l) && ids@.take(i as int).contains(l.id),
                self.wf(),
                unique_edges(self.open_edges@),
                same_surfaces(t0, self.tiles@),
                forall|k: u64, e: Edge, id: PolyLineId| #[trigger]
                    traced_to(self.tiles@, k, e, id) <==> traced_to(t0, k, e, id) && !released_at(removed@, k, id),
                forall|e: Edge| #[trigger]
                    edge_map(self.open_edges@).contains_key(e) <==> o0.contains_key(e) || exists|pos: TilePosition|
                        #[trigger] reopened_by(t0, removed@, b, e, pos),
                forall|e: Edge| #[trigger]
                    edge_map(self.open_edges@).contains_key(e) ==> if exists|pos: TilePosition| #[trigger] reopened_by(t0, removed@, b, e, pos) {
                        reopened_by(t0, removed@, b, e, edge_map(self.open_edges@)[e])
                    } else {
                        edge_map(self.open_edges@)[e] == o0[e]
                    },
            decreases ids@.len() - i,
        {
            let id = ids[i];
            let ghost tiles_before = self.tiles@;
            let ghost open_before = edge_map(self.open_edges@);
            let ghost lines_before = lines@;
            let ghost removed_before = removed@;
            proof {
                lemma_take_push(ids@, i as int);
                assert(!ids@.take(i as int).contains(id)) by {
                    if ids@.take(i as int).contains(id) {
                        let t = ids@.take(i as int);
                        let w = choose|w: int| 0 <= w < t.len() && t[w] == id;
                        assert(ids@[w] == ids@[i as int]);
                    }
                }
            }
            match find_line(lines, id) {
                Some(j) => {
                    let line = lines.remove(j);
                    self.release_polyline(&line, b);
                    removed.push(line);
                    proof {
                        assert(removed@.drop_last() =~= removed_before);
                        lemma_removed_line(lines0, lines_before, lines@, removed_before, removed@, ids@, i as int, j as int);
                        lemma_release_step(t0, o0, tiles_before, self.tiles@, open_before, edge_map(self.open_edges@), removed_before, removed@, b);
                    }
                },
                None => {
                    proof {
                        assert forall|l: TerrainPolyLineBuilder| #[trigger] lines@.contains(l) <==> lines0.contains(l) && !ids@.take(i + 1).contains(l.id) by {
                            if lines@.contains(l) {
                                let w = choose|w: int| 0 <= w < lines@.len() && lines@[w] == l;
                                assert(lines@[w].id != id);
                            }
                        }
                        assert forall|l: TerrainPolyLineBuilder| #[trigger] removed@.contains(l) <==> lines0.contains(l) && ids@.take(i + 1).contains(l.id) by {
                            if lines0.contains(l) && l.id == id {
                                assert(lines@.contains(l));
                                let w = choose|w: int| 0 <= w < lines@.len() && lines@[w] == l;
                                assert(lines@[w].id != id);
                            }
                        }
                    }
                },
            }
            i = i + 1;
        }
        proof {
            assert(ids@.take(ids@.len() as int) =~= ids@);
            if lines_consistent(t0, lines0) {
                lemma_removal_consistent(t0, self.tiles@, lines0, lines@, removed@, b);
            }
        }
        (removed, affected)
    }
}

/// Moving the polyline with the next id from the live ones to the
/// released ones keeps both lists as the ids seen so far say.
proof fn lemma_removed_line(
    lines0: Seq<TerrainPolyLineBuilder>,
    before: Seq<TerrainPolyLineBuilder>,
    after: Seq<TerrainPolyLineBuilder>,
    removed_before: Seq<TerrainPolyLineBuilder>,
    removed_after: Seq<TerrainPolyLineBuilder>,
    ids: Seq<PolyLineId>,
    i: int,
    j: int,
)
    requires
        0 <= i < ids.len(),
        0 <= j < before.len(),
        before[j].id == ids[i],
        after == before.remove(j),
        removed_after == removed_before.push(before[j]),
        unique_ids(before),
        unique_ids(removed_before),
        !ids.take(i).contains(ids[i]),
        forall|x: PolyLineId| #[trigger] ids.take(i + 1).contains(x) <==> ids.take(i).contains(x) || x == ids[i],
        forall|l: TerrainPolyLineBuilder| #[trigger]
            before.contains(l) <==> lines0.contains(l) && !ids.take(i).contains(l.id),
        forall|l: TerrainPolyLineBuilder| #[trigger]
            removed_before.contains(l) <==> lines0.contains(l) && ids.take(i).contains(l.id),
    ensures
        unique_ids(after),
        unique_ids(removed_after),
        forall|l: TerrainPolyLineBuilder| #[trigger]
            after.contains(l) <==> lines0.contains(l) && !ids.take(i + 1).contains(l.id),
        forall|l: TerrainPolyLineBuilder| #[trigger]
            removed_after.contains(l) <==> lines0.contains(l) && ids.take(i + 1).contains(l.id),
{
    let line = before[j];
    let id = ids[i];
    assert forall|a: int, c: int| 0 <= a < c < after.len() implies after[a].id != after[c].id by {
        let a2 = if a < j { a } else { a + 1 };
        let c2 = if c < j { c } else { c + 1 };
        assert(after[a] == before[a2]);
        assert(after[c] == before[c2]);
    }
    assert forall|l: TerrainPolyLineBuilder| #[trigger] after.contains(l) <==> before.contains(l) && l.id != id by {
        if after.contains(l) {
            let w = choose|w: int| 0 <= w < after.len() && after[w] == l;
            let w2 = if w < j { w } else { w + 1 };
            assert(before[w2] == l);
            assert(w2 != j);
        }
        if before.contains(l) && l.id != id {
            let w = choose|w: int| 0 <= w < before.len() && before[w] == l;
            assert(w != j);
            if w < j {
                assert(after[w] == l);
            } else {
                assert(after[w - 1] == l);
            }
        }
    }
    assert(lines0.contains(line)) by {
        assert(before.contains(line));
    }
    assert forall|l: TerrainPolyLineBuilder| lines0.contains(l) && l.id == id implies l == line by {
        assert(before.contains(l));
        let w = choose|w: int| 0 <= w < before.len() && before[w] == l;
        if w != j {
            assert(before[w].id != before[j].id);
        }
    }
    assert forall|l: TerrainPolyLineBuilder| #[trigger] removed_after.contains(l) <==> removed_before.contains(l) || l == line by {
        if removed_after.contains(l) && l != line {
            let w = choose|w: int| 0 <= w < removed_after.len() && removed_after[w] == l;
            assert(removed_before[w] == l);
        }
        if removed_before.contains(l) {
            let w = choose|w: int| 0 <= w < removed_before.len() && removed_before[w] == l;
            assert(removed_after[w] == l);
        }
        if l == line {
            assert(removed_after[removed_before.len() as int] == l);
        }
    }
    assert forall|a: int, c: int| 0 <= a < c < removed_after.len() implies removed_after[a].id != removed_after[c].id by {
        if c == removed_before.len() {
            assert(removed_before.contains(removed_after[a]));
        }
    }
}

/// Releasing one more polyline, whose id no released one has, keeps the
/// traces and open edges as the released ones say.
proof fn lemma_release_step(
    t0: Map<u64, TerrainGridTile>,
    o0: Map<Edge, TilePosition>,
    tiles_before: Map<u64, TerrainGridTile>,
    tiles_after: Map<u64, TerrainGridTile>,
    open_before: Map<Edge, TilePosition>,
    open_after_map: Map<Edge, TilePosition>,
    removed_before: Seq<TerrainPolyLineBuilder>,
    removed_after: Seq<TerrainPolyLineBuilder>,
    b: Bounds,
)
    requires
        removed_after.len() == removed_before.len() + 1,
        removed_after.drop_last() == removed_before,
        forall|x: int| 0 <= x < removed_before.len() ==> removed_before[x].id != removed_after.last().id,
        same_surfaces(t0, tiles_before),
        same_surfaces(tiles_before, tiles_after),
        forall|k: u64, e: Edge, id: PolyLineId| #[trigger]
            traced_to(tiles_before, k, e, id) <==> traced_to(t0, k, e, id) && !released_at(removed_before, k, id),
        forall|k: u64| #[trigger]
            tiles_before.contains_key(k) ==> if processed(
                removed_after.last().tiles@,
                removed_after.last().tiles@.len() as int,
                k,
            ) {
                edge_map(tiles_after[k].edge_polylines@) == without_value(
                    edge_map(tiles_before[k].edge_polylines@),
                    removed_after.last().id,
                )
            } else {
                tiles_after[k] == tiles_before[k]
            },
        open_after(
            open_before,
            open_after_map,
            tiles_before,
            removed_after.last(),
            removed_after.last().tiles@.len() as int,
            b,
        ),
        forall|e: Edge| #[trigger]
            open_before.contains_key(e) <==> o0.contains_key(e) || exists|pos: TilePosition|
                #[trigger] reopened_by(t0, removed_before, b, e, pos),
        forall|e: Edge| #[trigger]
            open_before.contains_key(e) ==> if exists|pos: TilePosition| #[trigger] reopened_by(t0, removed_before, b, e, pos) {
                reopened_by(t0, removed_before, b, e, open_before[e])
            } else {
                open_before[e] == o0[e]
            },
    ensures
        same_surfaces(t0, tiles_after),
        forall|k: u64, e: Edge, id: PolyLineId| #[trigger]
            traced_to(tiles_after, k, e, id) <==> traced_to(t0, k, e, id) && !released_at(removed_after, k, id),
        forall|e: Edge| #[trigger]
            open_after_map.contains_key(e) <==> o0.contains_key(e) || exists|pos: TilePosition|
                #[trigger] reopened_by(t0, removed_after, b, e, pos),
        forall|e: Edge| #[trigger]
            open_after_map.contains_key(e) ==> if exists|pos: TilePosition| #[trigger] reopened_by(t0, removed_after, b, e, pos) {
                reopened_by(t0, removed_after, b, e, open_after_map[e])
            } else {
                open_after_map[e] == o0[e]
            },
{
    let line = removed_after.last();
    let n = line.tiles@.len() as int;
    let last = removed_before.len() as int;
    assert(removed_after[last] == line);
    assert forall|x: int| 0 <= x < removed_before.len() implies removed_after[x] == removed_before[x] by {
        assert(removed_after.drop_last()[x] == removed_before[x]);
    }
    assert forall|k: u64, id: PolyLineId| #[trigger] released_at(removed_after, k, id) <==> released_at(removed_before, k, id) || (id == line.id && processed(line.tiles@, n, k)) by {
        if released_at(removed_after, k, id) {
            let x = choose|x: int| 0 <= x < removed_after.len() && #[trigger] removed_after[x].id == id && processed(removed_after[x].tiles@, removed_after[x].tiles@.len() as int, k);
            if x < last {
                assert(removed_before[x].id == id);
            }
        }
        if released_at(removed_before, k, id) {
            let x = choose|x: int| 0 <= x < removed_before.len() && #[trigger] removed_before[x].id == id && processed(removed_before[x].tiles@, removed_before[x].tiles@.len() as int, k);
            assert(removed_after[x].id == id);
        }
        if id == line.id && processed(line.tiles@, n, k) {
            assert(removed_after[last].id == id);
        }
    }
    assert forall|k: u64| !released_at(removed_before, k, line.id) by {
        if released_at(removed_before, k, line.id) {
            let x = choose|x: int| 0 <= x < removed_before.len() && #[trigger] removed_before[x].id == line.id && processed(removed_before[x].tiles@, removed_before[x].tiles@.len() as int, k);
        }
    }
    assert forall|e: Edge, pos: TilePosition| #[trigger] reopened(tiles_before, line, n, b, e, pos) <==> reopened(t0, line, n, b, e, pos) by {
        assert(traced_to(tiles_before, position_key(pos), e, line.id) <==> traced_to(t0, position_key(pos), e, line.id));
    }
    assert forall|e: Edge, pos: TilePosition|
        #![trigger reopened_by(t0, removed_after, b, e, pos)]
        #![trigger reopened_by(t0, removed_before, b, e, pos)]
        #![trigger reopened(t0, line, n, b, e, pos)]
        reopened_by(t0, removed_after, b, e, pos) <==> reopened_by(t0, removed_before, b, e, pos) || reopened(t0, line, n, b, e, pos) by {
        if reopened_by(t0, removed_after, b, e, pos) {
            let x = choose|x: int| 0 <= x < removed_after.len() && #[trigger] reopened(t0, removed_after[x], removed_after[x].tiles@.len() as int, b, e, pos);
            if x < last {
                assert(reopened(t0, removed_before[x], removed_before[x].tiles@.len() as int, b, e, pos));
            }
        }
        if reopened_by(t0, removed_before, b, e, pos) {
            let x = choose|x: int| 0 <= x < removed_before.len() && #[trigger] reopened(t0, removed_before[x], removed_before[x].tiles@.len() as int, b, e, pos);
            assert(reopened(t0, removed_after[x], removed_after[x].tiles@.len() as int, b, e, pos));
        }
        if reopened(t0, line, n, b, e, pos) {
            assert(reopened(t0, removed_after[last], removed_after[last].tiles@.len() as int, b, e, pos));
        }
    }
    assert forall|k: u64, e: Edge, id: PolyLineId| #[trigger]
        traced_to(tiles_after, k, e, id) <==> traced_to(t0, k, e, id) && !released_at(removed_after, k, id) by {
        if tiles_before.contains_key(k) {
            assert(traced_to(tiles_after, k, e, id) <==> traced_to(tiles_before, k, e, id) && !(id == line.id && processed(line.tiles@, n, k)));
        }
    }
    assert forall|e: Edge| #[trigger]
        open_after_map.contains_key(e) <==> o0.contains_key(e) || exists|pos: TilePosition|
            #[trigger] reopened_by(t0, removed_after, b, e, pos) by {
        if exists|pos: TilePosition| #[trigger] reopened_by(t0, removed_after, b, e, pos) {
            let pos = choose|pos: TilePosition| #[trigger] reopened_by(t0, removed_after, b, e, pos);
            if reopened(t0, line, n, b, e, pos) {
                assert(reopened(tiles_before, line, n, b, e, pos));
            } else {
                assert(open_before.contains_key(e));
            }
        }
        if open_after_map.contains_key(e) && !open_before.contains_key(e) {
            let pos = choose|pos: TilePosition| #[trigger] reopened(tiles_before, line, n, b, e, pos);
            assert(reopened_by(t0, removed_after, b, e, pos));
        }
        if open_before.contains_key(e) && !o0.contains_key(e) {
            let pos = choose|pos: TilePosition| #[trigger] reopened_by(t0, removed_before, b, e, pos);
            assert(reopened_by(t0, removed_after, b, e, pos));
        }
    }
    assert forall|e: Edge| #[trigger]
        open_after_map.contains_key(e) implies if exists|pos: TilePosition| #[trigger] reopened_by(t0, removed_after, b, e, pos) {
            reopened_by(t0, removed_after, b, e, open_after_map[e])
        } else {
            open_after_map[e] == o0[e]
        } by {
        if exists|pos: TilePosition| #[trigger] reopened(tiles_before, line, n, b, e, pos) {
            assert(reopened(tiles_before, line, n, b, e, open_after_map[e]));
            assert(reopened_by(t0, removed_after, b, e, open_after_map[e]));
        } else {
            assert(open_after_map[e] == open_before[e]);
            assert(open_before.contains_key(e));
            if exists|pos: TilePosition| #[trigger] reopened_by(t0, removed_after, b, e, pos) {
                let pos = choose|pos: TilePosition| #[trigger] reopened_by(t0, removed_after, b, e, pos);
                if reopened(t0, line, n, b, e, pos) {
                    assert(reopened(tiles_before, line, n, b, e, pos));
                }
                assert(reopened_by(t0, removed_before, b, e, pos));
                assert(reopened_by(t0, removed_before, b, e, open_before[e]));
            } else {
                assert forall|pos: TilePosition| !reopened_by(t0, removed_before, b, e, pos) by {
                    assert(!reopened_by(t0, removed_after, b, e, pos));
                }
            }
        }
    }
}

/// Releasing the polylines that run through the block keeps the live
/// polylines consistent with the traced edges, and leaves nothing traced
/// in the block.
proof fn lemma_removal_consistent(
    t0: Map<u64, TerrainGridTile>,
    t1: Map<u64, TerrainGridTile>,
    lines0: Seq<TerrainPolyLineBuilder>,
    lines1: Seq<TerrainPolyLineBuilder>,
    removed: Seq<TerrainPolyLineBuilder>,
    b: Bounds,
)
    requires
        forall|k: u64| #[trigger] t0.contains_key(k) ==> k == position_key(t0[k].position),
        lines_consistent(t0, lines0),
        unique_ids(lines1),
        same_surfaces(t0, t1),
        forall|l: TerrainPolyLineBuilder| #[trigger]
            lines1.contains(l) <==> lines0.contains(l) && !traced_in_region(t0, b, l.id),
        forall|l: TerrainPolyLineBuilder| #[trigger]
            removed.contains(l) <==> lines0.contains(l) && traced_in_region(t0, b, l.id),
        forall|k: u64, e: Edge, id: PolyLineId| #[trigger]
            traced_to(t1, k, e, id) <==> traced_to(t0, k, e, id) && !released_at(removed, k, id),
    ensures
        lines_consistent(t1, lines1),
        forall|p: TilePosition, e: Edge| in_region(b, p) ==> !#[trigger] traced(t1, position_key(p), e),
{
    // An edge traced to a released polyline lies in one of its tiles, so
    // it is untraced now.
    assert forall|i: int, k: u64, e: Edge|
        0 <= i < lines0.len() && #[trigger] traced_to(t0, k, e, lines0[i].id) && removed.contains(lines0[i])
            implies released_at(removed, k, lines0[i].id) by {
        let l = lines0[i];
        assert(traces_polyline(t0, l));
        assert(traces_listed(t0, l.vertices@, l.tiles@, l.id));
        assert(l.tiles@.contains(t0[k].position));
        let w = choose|w: int| 0 <= w < l.tiles@.len() && l.tiles@[w] == t0[k].position;
        assert(position_key(l.tiles@[w]) == k);
        assert(processed(l.tiles@, l.tiles@.len() as int, k));
        let x = choose|x: int| 0 <= x < removed.len() && removed[x] == l;
        assert(removed[x].id == l.id);
    }
    assert forall|p: TilePosition, e: Edge| in_region(b, p) implies !#[trigger] traced(t1, position_key(p), e) by {
        if traced(t1, position_key(p), e) {
            let k = position_key(p);
            let id = edge_map(t1[k].edge_polylines@)[e];
            assert(traced_to(t1, k, e, id));
            assert(traced_to(t0, k, e, id));
            assert(traced(t0, k, e));
            let i = choose|i: int| 0 <= i < lines0.len() && #[trigger] lines0[i].id == edge_map(t0[k].edge_polylines@)[e];
            assert(traced_in_region(t0, b, id));
            assert(lines0.contains(lines0[i]));
            assert(removed.contains(lines0[i]));
        }
    }
    assert forall|l: TerrainPolyLineBuilder, k: u64| #[trigger] lines1.contains(l) implies !#[trigger] released_at(removed, k, l.id) by {
        if released_at(removed, k, l.id) {
            let x = choose|x: int| 0 <= x < removed.len() && #[trigger] removed[x].id == l.id && processed(removed[x].tiles@, removed[x].tiles@.len() as int, k);
            assert(removed.contains(removed[x]));
        }
    }
    assert forall|i: int| 0 <= i < lines1.len() implies traces_polyline(t1, #[trigger] lines1[i]) by {
        let l = lines1[i];
        assert(lines1.contains(l));
        let j = choose|j: int| 0 <= j < lines0.len() && lines0[j] == l;
        assert(traces_polyline(t0, lines0[j]));
        assert forall|k: u64, e: Edge| #[trigger] traced_to(t1, k, e, l.id) <==> traced_to(t0, k, e, l.id) by {
            assert(!released_at(removed, k, l.id));
        }
        lemma_same_traces_polyline(t0, t1, l);
    }
    assert forall|k: u64, e: Edge| #[trigger] traced(t1, k, e) implies exists|i: int|
        0 <= i < lines1.len() && #[trigger] lines1[i].id == edge_map(t1[k].edge_polylines@)[e] by {
        let id = edge_map(t1[k].edge_polylines@)[e];
        assert(traced_to(t1, k, e, id));
        assert(traced_to(t0, k, e, id));
        assert(traced(t0, k, e));
        let i = choose|i: int| 0 <= i < lines0.len() && #[trigger] lines0[i].id == edge_map(t0[k].edge_polylines@)[e];
        let l = lines0[i];
        assert(lines0.contains(l));
        if traced_in_region(t0, b, id) {
            assert(removed.contains(l));
            assert(released_at(removed, k, id));
        }
        assert(lines1.contains(l));
        let j = choose|j: int| 0 <= j < lines1.len() && lines1[j] == l;
        assert(lines1[j].id == id);
    }
}

} // verus!
