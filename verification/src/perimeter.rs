//! The covered rim of a set of tiles.

use std::collections::HashSet;
use vstd::prelude::*;
use crate::field::MineField;
use crate::neighbors::lemma_neighbors_are_adjacent;
use crate::tile::{is_covered, Tile};
use crate::view::{lemma_index_injective, FieldView};

verus! {

impl FieldView {
    /// Whether `t` is the snapshot of a covered cell that touches one of `tiles`.
    pub open spec fn on_perimeter(self, tiles: Seq<Tile>, t: Tile) -> bool {
        &&& is_covered(t.val)
        &&& exists|i: int|
            0 <= i < tiles.len() && self.is_neighbor_tile(
                (#[trigger] tiles[i]).x as int,
                tiles[i].y as int,
                t,
            )
    }

    /// The position of the cell a snapshot was taken of.
    spec fn position_of(self, t: Tile) -> usize {
        self.index_of(t.x as int, t.y as int) as usize
    }
}

/// Whether one of the snapshots found was taken at position `k`.
spec fn found_at(v: FieldView, found: Seq<Tile>, k: usize) -> bool {
    exists|p: int| 0 <= p < found.len() && v.position_of(#[trigger] found[p]) == k
}

/// What holds of the snapshots found so far: each lies on the perimeter, none
/// occurs twice, and `seen` holds exactly their positions.
spec fn gathered(v: FieldView, tiles: Seq<Tile>, seen: Set<usize>, found: Seq<Tile>) -> bool {
    &&& forall|p: int| 0 <= p < found.len() ==> v.on_perimeter(tiles, #[trigger] found[p])
    &&& forall|p: int, q: int| 0 <= p < q < found.len() ==> found[p] != found[q]
    &&& forall|k: usize| seen.contains(k) <==> found_at(v, found, k)
}

/// Two snapshots of the same field taken at the same position are the same.
proof fn lemma_same_position(v: FieldView, a: Tile, b: Tile)
    requires
        v.wf(),
        v.in_bounds(a.x as int, a.y as int),
        v.in_bounds(b.x as int, b.y as int),
        a == v.tile(a.x as int, a.y as int),
        b == v.tile(b.x as int, b.y as int),
        v.position_of(a) == v.position_of(b),
    ensures
        a == b,
{
    crate::view::lemma_index_in_range(v, a.x as int, a.y as int);
    crate::view::lemma_index_in_range(v, b.x as int, b.y as int);
    lemma_index_injective(v, a.x as int, a.y as int, b.x as int, b.y as int);
}

/// Taking in a perimeter snapshot whose position is new keeps what was
/// gathered in order; one whose position was seen is among those found.
proof fn lemma_gather(v: FieldView, tiles: Seq<Tile>, seen: Set<usize>, found: Seq<Tile>, t: Tile)
    requires
        v.wf(),
        gathered(v, tiles, seen, found),
        v.on_perimeter(tiles, t),
    ensures
        seen.contains(v.position_of(t)) ==> found.contains(t),
        !seen.contains(v.position_of(t)) ==> gathered(
            v,
            tiles,
            seen.insert(v.position_of(t)),
            found.push(t),
        ),
{
    let k = v.position_of(t);
    if seen.contains(k) {
        assert(found_at(v, found, k));
        let p = choose|p: int| 0 <= p < found.len() && v.position_of(#[trigger] found[p]) == k;
        assert(v.on_perimeter(tiles, found[p]));
        lemma_same_position(v, found[p], t);
    } else {
        let more = found.push(t);
        let wider = seen.insert(k);
        assert forall|p: int| 0 <= p < more.len() implies v.on_perimeter(
            tiles,
            #[trigger] more[p],
        ) by {
            if p < found.len() {
                assert(more[p] == found[p]);
            }
        }
        assert forall|p: int, q: int| 0 <= p < q < more.len() implies more[p] != more[q] by {
            assert(more[p] == found[p]);
            if q < found.len() {
                assert(more[q] == found[q]);
            } else {
                if found[p] == t {
                    assert(found_at(v, found, k));
                }
            }
        }
        assert forall|j: usize| wider.contains(j) <==> found_at(v, more, j) by {
            if wider.contains(j) {
                if j == k {
                    assert(v.position_of(more[found.len() as int]) == j);
                } else {
                    assert(found_at(v, found, j));
                    let p = choose|p: int|
                        0 <= p < found.len() && v.position_of(#[trigger] found[p]) == j;
                    assert(v.position_of(more[p]) == j);
                }
            }
            if found_at(v, more, j) {
                let p = choose|p: int| 0 <= p < more.len() && v.position_of(#[trigger] more[p]) == j;
                if p < found.len() {
                    assert(more[p] == found[p]);
                    assert(found_at(v, found, j));
                }
            }
        }
    }
}

impl MineField {
    /// The covered cells around the given tiles, each once, in no particular
    /// order. Only the coordinates of the given tiles count.
    pub fn get_perimiter(&self, tiles: &Vec<Tile>) -> (perimiter: Vec<Tile>)
        requires
            self.wf(),
        ensures
            forall|p: int, q: int| 0 <= p < q < perimiter@.len() ==> perimiter@[p] != perimiter@[q],
            forall|t: Tile| perimiter@.contains(t) <==> self@.on_perimeter(tiles@, t),
    {
        broadcast use vstd::std_specs::hash::group_hash_axioms;

        let mut seen: HashSet<usize> = HashSet::new();
        let mut perimiter: Vec<Tile> = Vec::new();
        let mut i: usize = 0;
        while i < tiles.len()
            invariant
                self.wf(),
                i <= tiles.len(),
                gathered(self@, tiles@, seen@, perimiter@),
                forall|m: int, t: Tile|
                    0 <= m < i && self@.is_neighbor_tile(
                        (#[trigger] tiles@[m]).x as int,
                        tiles@[m].y as int,
                        t,
                    ) && is_covered(t.val) ==> #[trigger] perimiter@.contains(t),
            decreases tiles.len() - i,
        {
            let around = self.neighbors(tiles[i].x, tiles[i].y);
            proof {
                lemma_neighbors_are_adjacent(self@, tiles@[i as int].x as int, tiles@[i as int].y as int);
            }
            let mut j: usize = 0;
            while j < around.len()
                invariant
                    self.wf(),
                    i < tiles.len(),
                    j <= around.len(),
                    around@ == self@.neighbors(tiles@[i as int].x as int, tiles@[i as int].y as int),
                    forall|t: Tile|
                        around@.contains(t) <==> self@.is_neighbor_tile(
                            tiles@[i as int].x as int,
                            tiles@[i as int].y as int,
                            t,
                        ),
                    gathered(self@, tiles@, seen@, perimiter@),
                    forall|m: int, t: Tile|
                        0 <= m < i && self@.is_neighbor_tile(
                            (#[trigger] tiles@[m]).x as int,
                            tiles@[m].y as int,
                            t,
                        ) && is_covered(t.val) ==> #[trigger] perimiter@.contains(t),
                    forall|n: int|
                        0 <= n < j && is_covered((#[trigger] around@[n]).val) ==> perimiter@.contains(
                            around@[n],
                        ),
                decreases around.len() - j,
            {
                let tile = around[j];
                if tile.is_up() {
                    assert(around@.contains(tile));
                    assert(self@.is_neighbor_tile(
                        tiles@[i as int].x as int,
                        tiles@[i as int].y as int,
                        tile,
                    ));
                    assert(self@.on_perimeter(tiles@, tile));
                    let k: usize = self.index(tile.x, tile.y);
                    let ghost before = perimiter@;
                    proof {
                        lemma_gather(self@, tiles@, seen@, perimiter@, tile);
                    }
                    if seen.insert(k) {
                        perimiter.push(tile);
                        proof {
                            assert(perimiter@[before.len() as int] == tile);
                            assert forall|t: Tile| before.contains(t) implies perimiter@.contains(
                                t,
                            ) by {
                                let p = choose|p: int| 0 <= p < before.len() && before[p] == t;
                                assert(perimiter@[p] == t);
                            }
                            assert forall|m: int, t: Tile|
                                0 <= m < i && self@.is_neighbor_tile(
                                    (#[trigger] tiles@[m]).x as int,
                                    tiles@[m].y as int,
                                    t,
                                ) && is_covered(t.val) implies #[trigger] perimiter@.contains(
                                t,
                            ) by {
                                assert(before.contains(t));
                            }
                            assert forall|n: int|
                                0 <= n < j && is_covered(
                                    (#[trigger] around@[n]).val,
                                ) implies perimiter@.contains(around@[n]) by {
                                assert(before.contains(around@[n]));
                            }
                        }
                    }
                }
                j = j + 1;
            }
            proof {
                assert forall|t: Tile|
                    self@.is_neighbor_tile(
                        tiles@[i as int].x as int,
                        tiles@[i as int].y as int,
                        t,
                    ) && is_covered(t.val) implies perimiter@.contains(t) by {
                    assert(around@.contains(t));
                    let n = choose|n: int| 0 <= n < around@.len() && around@[n] == t;
                    assert(is_covered(around@[n].val));
                }
            }
            i = i + 1;
        }
        proof {
            assert forall|t: Tile| self@.on_perimeter(tiles@, t) implies perimiter@.contains(t) by {
                let m = choose|m: int|
                    0 <= m < tiles@.len() && self@.is_neighbor_tile(
                        (#[trigger] tiles@[m]).x as int,
                        tiles@[m].y as int,
                        t,
                    );
                assert(perimiter@.contains(t));
            }
            assert forall|t: Tile| perimiter@.contains(t) implies self@.on_perimeter(tiles@, t) by {
                let p = choose|p: int| 0 <= p < perimiter@.len() && perimiter@[p] == t;
                assert(self@.on_perimeter(tiles@, perimiter@[p]));
            }
        }
        perimiter
    }
}

} // verus!
