use vstd::prelude::*;
use crate::counting::{
    count_matching, lemma_count_matching_none, lemma_count_matching_update,
};
use crate::rng::random_below;
use crate::tile::Tile;
use crate::tile_map::tile_is_bomb;
use vstd::pervasive::VecAdditionalExecFns;

verus! {

/// One face of the cube board, numbered 0 to 5. Faces come in opposite
/// pairs: 0 and 1, 2 and 3, 4 and 5.
#[derive(Clone, Copy, Hash, PartialEq, Eq, Structural, Debug)]
pub struct FaceIndex {
    pub i: u16,
}

/// The face opposite to `f`.
pub open spec fn cube_opposite(f: int) -> int {
    if f % 2 == 0 {
        f + 1
    } else {
        f - 1
    }
}

/// Two distinct faces of the cube that share an edge: every pair except a
/// face and its opposite.
pub open spec fn cube_adjacent(a: int, b: int) -> bool {
    &&& 0 <= a < 6
    &&& 0 <= b < 6
    &&& b != a
    &&& b != cube_opposite(a)
}

/// The six-face cube board: a tile per face and the configured mine count.
///
/// Well-formedness (`wf`) requires exactly six tiles with `bomb_count` of
/// them mines; `counts_consistent` requires every non-mine face to carry the
/// true count of mines among its four edge-sharing neighbor faces.
#[derive(Debug, Clone)]
pub struct TileCube {
    pub bomb_count: u16,
    pub map: Vec<Tile>,
}

impl TileCube {
    pub open spec fn is_mine_at(self, f: int) -> bool {
        0 <= f < 6 && self.map@[f] is Bomb
    }

    pub open spec fn mine_ind(self, f: int) -> int {
        if self.is_mine_at(f) {
            1
        } else {
            0
        }
    }

    /// The number of mines among the four faces that share an edge with `f`.
    pub open spec fn adjacent_mines(self, f: int) -> int {
        if f == 0 || f == 1 {
            self.mine_ind(3) + self.mine_ind(4) + self.mine_ind(2) + self.mine_ind(5)
        } else if f == 2 || f == 3 {
            self.mine_ind(4) + self.mine_ind(0) + self.mine_ind(1) + self.mine_ind(5)
        } else {
            self.mine_ind(2) + self.mine_ind(0) + self.mine_ind(3) + self.mine_ind(1)
        }
    }

    pub open spec fn num_mines(self) -> int {
        count_matching(self.map@, tile_is_bomb())
    }

    pub open spec fn wf(self) -> bool {
        &&& self.map@.len() == 6
        &&& self.bomb_count == self.num_mines()
    }

    /// The face at `f` carries its true neighbor count: `Empty` when no mine
    /// borders it, `BombNeighbour(n)` for `n >= 1` bordering mines.
    pub open spec fn consistent_at(self, f: int) -> bool {
        self.map@[f] == (if self.adjacent_mines(f) == 0 {
            Tile::Empty
        } else {
            Tile::BombNeighbour(self.adjacent_mines(f) as u8)
        })
    }

    /// Every non-mine face carries its true neighbor count.
    pub open spec fn counts_consistent(self) -> bool {
        forall|f: int| 0 <= f < 6 && !(#[trigger] self.map@[f] is Bomb) ==> self.consistent_at(f)
    }

    /// A fresh cube: every face `Empty`, no mine placed yet.
    pub fn new() -> (r: TileCube)
        ensures
            r.wf(),
            r.counts_consistent(),
            r.num_mines() == 0,
            forall|f: int| 0 <= f < 6 ==> #[trigger] r.map@[f] == Tile::Empty,
    {
        let map: Vec<Tile> = vec![
            Tile::Empty,
            Tile::Empty,
            Tile::Empty,
            Tile::Empty,
            Tile::Empty,
            Tile::Empty,
        ];
        let r = TileCube { bomb_count: 0, map };
        proof {
            lemma_count_matching_none(r.map@, tile_is_bomb());
        }
        r
    }

    /// The four faces that share an edge with `index`, each once; for an
    /// index beyond the six faces, four zero entries come back.
    pub fn safe_square_at(&self, index: FaceIndex) -> (r: Vec<u16>)
        ensures
            r@.len() == 4,
            index.i < 6 ==> {
                &&& forall|k: int| 0 <= k < 4 ==> cube_adjacent(index.i as int, #[trigger] r@[k] as int)
                &&& forall|k: int, l: int| 0 <= k < l < 4 ==> r@[k] != r@[l]
                &&& forall|g: int|
                    cube_adjacent(index.i as int, g) ==> r@.contains(g as u16)
            },
            index.i >= 6 ==> r@ =~= seq![0u16, 0u16, 0u16, 0u16],
    {
        let r: Vec<u16> = match index.i {
            0 | 1 => vec![3, 4, 2, 5],
            2 | 3 => vec![4, 0, 1, 5],
            4 | 5 => vec![2, 0, 3, 1],
            _ => vec![0, 0, 0, 0],
        };
        proof {
            if index.i < 6 {
                assert forall|g: int| cube_adjacent(index.i as int, g) implies r@.contains(
                    g as u16,
                ) by {
                    assert(r@[0] as int == g || r@[1] as int == g || r@[2] as int == g || r@[3] as int
                        == g);
                }
            }
        }
        r
    }

    /// Whether the face at `index` holds a mine.
    pub fn is_bomb_at(&self, index: u16) -> (r: bool)
        requires
            self.wf(),
            index < 6,
        ensures
            r == self.is_mine_at(index as int),
    {
        self.map[index as usize].is_bomb()
    }

    /// 0 if the face itself holds a mine, else the number of mines among its
    /// four edge-sharing neighbor faces.
    pub fn bomb_count_at(&self, index: FaceIndex) -> (r: u8)
        requires
            self.wf(),
            index.i < 6,
        ensures
            r as int == (if self.is_mine_at(index.i as int) {
                0int
            } else {
                self.adjacent_mines(index.i as int)
            }),
            r <= 4,
    {
        if self.is_bomb_at(index.i) {
            return 0;
        }
        let faces = self.safe_square_at(index);
        let mut count: u8 = 0;
        if self.is_bomb_at(faces[0]) {
            count = count + 1;
        }
        if self.is_bomb_at(faces[1]) {
            count = count + 1;
        }
        if self.is_bomb_at(faces[2]) {
            count = count + 1;
        }
        if self.is_bomb_at(faces[3]) {
            count = count + 1;
        }
        proof {
            assert(count as int == self.adjacent_mines(index.i as int));
        }
        count
    }

    /// Place `bomb_count` mines, each drawn uniformly among the faces that
    /// hold no mine yet, on a fresh cube, then write every non-mine face's
    /// neighbor count.
    pub fn set_bombs(&mut self, bomb_count: u16)
        requires
            old(self).wf(),
            forall|f: int| 0 <= f < 6 ==> #[trigger] old(self).map@[f] == Tile::Empty,
            bomb_count <= 6,
        ensures
            final(self).wf(),
            final(self).counts_consistent(),
            final(self).bomb_count == bomb_count,
            final(self).num_mines() == bomb_count,
    {
        proof {
            lemma_count_matching_none(self.map@, tile_is_bomb());
        }
        self.bomb_count = bomb_count;
        let mut free: Vec<usize> = vec![0, 1, 2, 3, 4, 5];
        let mut placed: u16 = 0;
        while placed < bomb_count
            invariant
                placed <= bomb_count <= 6,
                self.map@.len() == 6,
                self.bomb_count == bomb_count,
                free@.len() + placed as int == 6,
                forall|j: int|
                    0 <= j < free@.len() ==> (#[trigger] free@[j]) < 6 && !(self.map@[free@[j] as int] is Bomb),
                forall|j: int, k: int| 0 <= j < k < free@.len() ==> free@[j] != free@[k],
                forall|f: int|
                    0 <= f < 6 && !(#[trigger] self.map@[f] is Bomb) ==> self.map@[f] == Tile::Empty,
                self.num_mines() == placed,
            decreases bomb_count - placed,
        {
            let ghost prefree = free@;
            let j = random_below(free.len());
            let idx = free[j];
            let _ = free.swap_remove(j);
            proof {
                lemma_count_matching_update(self.map@, tile_is_bomb(), idx as int, Tile::Bomb);
            }
            self.map.set(idx, Tile::Bomb);
            placed = placed + 1;
            proof {
                assert forall|jj: int|
                    0 <= jj < free@.len() implies (#[trigger] free@[jj]) < 6 && !(self.map@[free@[jj] as int] is Bomb) by {
                    if jj == j as int {
                        assert(free@[jj] == prefree[prefree.len() - 1]);
                    } else {
                        assert(free@[jj] == prefree[jj]);
                    }
                    assert(free@[jj] != idx);
                }
            }
        }
        // Second pass: write the neighbor count of every non-mine face.
        let ghost mines_done = *self;
        let mut f: usize = 0;
        while f < 6
            invariant
                f <= 6,
                self.map@.len() == 6,
                self.bomb_count == bomb_count,
                self.num_mines() == bomb_count,
                forall|g: int| 0 <= g < 6 ==> #[trigger] self.map@[g] is Bomb == mines_done.map@[g] is Bomb,
                forall|g: int|
                    (f <= g < 6 && !(#[trigger] self.map@[g] is Bomb)) ==> self.map@[g]
                        == Tile::Empty,
                forall|g: int|
                    (0 <= g < f && !(#[trigger] self.map@[g] is Bomb)) ==> self.consistent_at(g),
            decreases 6 - f,
        {
            let ghost pre = *self;
            let face = FaceIndex { i: f as u16 };
            let n = self.bomb_count_at(face);
            if n > 0 {
                proof {
                    lemma_count_matching_update(
                        self.map@,
                        tile_is_bomb(),
                        f as int,
                        Tile::BombNeighbour(n),
                    );
                }
                self.map.set(f, Tile::BombNeighbour(n));
                proof {
                    assert forall|g: int|
                        (0 <= g < f + 1 && !(#[trigger] self.map@[g] is Bomb))
                            implies self.consistent_at(g) by {
                        assert(self.adjacent_mines(g) == pre.adjacent_mines(g));
                        if g < f as int {
                            assert(pre.consistent_at(g));
                        }
                    }
                }
            }
            f = f + 1;
        }
    }

    pub fn get_bomb_count(&self) -> (r: u16)
        ensures
            r == self.bomb_count,
    {
        self.bomb_count
    }
}

} // verus!
