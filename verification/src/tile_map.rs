use vstd::prelude::*;
use crate::coordinates::{is_adjacent, Coordinates};
use crate::counting::{
    count_matching, lemma_count_matching_none, lemma_count_matching_push,
    lemma_count_matching_take_all, lemma_count_matching_take_step, lemma_count_matching_update,
};
use crate::rng::random_below;
use crate::tile::Tile;
use vstd::arithmetic::div_mod::{lemma_fundamental_div_mod, lemma_mod_bound};
use vstd::pervasive::VecAdditionalExecFns;
use vstd::seq_lib::lemma_seq_contains_after_push;

verus! {

/// Whether a tile is a mine: the indicator that the mine-count specs sum.
pub open spec fn tile_is_bomb() -> spec_fn(Tile) -> bool {
    |t: Tile| t is Bomb
}

/// A rectangular `width x height` grid of tiles, stored row-major, together
/// with the configured mine count and the coordinates of every mine.
///
/// Well-formedness (`wf`) ties the pieces together: the grid has exactly
/// `width * height` cells, `bomb_count` equals the number of `Bomb` tiles,
/// and `bomb_coordinates` lists exactly the mine cells, each once. On top of
/// that, `counts_consistent` states that every non-mine cell carries the true
/// count of mines among its up to 8 neighbors (`Empty` when that count is
/// zero); it holds of every map that leaves `new` or `set_bombs`.
#[derive(Debug, Clone)]
pub struct TileMap {
    pub bomb_coordinates: Vec<Coordinates>,
    pub bomb_count: u16,
    pub height: u16,
    pub width: u16,
    pub map: Vec<Tile>,
}

impl TileMap {
    /// The flattened index of the cell at `(x, y)`.
    pub open spec fn idx(self, x: int, y: int) -> int {
        y * self.width + x
    }

    pub open spec fn in_bounds(self, x: int, y: int) -> bool {
        0 <= x < self.width && 0 <= y < self.height
    }

    pub open spec fn total(self) -> int {
        self.width * self.height
    }

    /// The tile stored at an in-bounds position.
    pub open spec fn tile_at_spec(self, x: int, y: int) -> Tile {
        self.map@[self.idx(x, y)]
    }

    /// The coordinate of the cell stored at flat index `i`.
    pub open spec fn coord_of(self, i: int) -> Coordinates {
        Coordinates { x: (i % self.width as int) as u16, y: (i / self.width as int) as u16 }
    }

    /// Whether an arbitrary (possibly out-of-range) position holds a mine:
    /// false everywhere outside the grid.
    pub open spec fn is_mine(self, x: int, y: int) -> bool {
        self.in_bounds(x, y) && self.tile_at_spec(x, y) is Bomb
    }

    pub open spec fn mine_ind(self, x: int, y: int) -> int {
        if self.is_mine(x, y) {
            1
        } else {
            0
        }
    }

    /// The true number of mines among the up to 8 neighbors of `(x, y)`;
    /// positions outside the grid contribute nothing.
    pub open spec fn adjacent_mines(self, x: int, y: int) -> int {
        self.mine_ind(x - 1, y - 1) + self.mine_ind(x, y - 1) + self.mine_ind(x + 1, y - 1)
            + self.mine_ind(x - 1, y) + self.mine_ind(x + 1, y) + self.mine_ind(x - 1, y + 1)
            + self.mine_ind(x, y + 1) + self.mine_ind(x + 1, y + 1)
    }

    /// The number of `Bomb` tiles in the grid.
    pub open spec fn num_mines(self) -> int {
        count_matching(self.map@, tile_is_bomb())
    }

    pub open spec fn wf(self) -> bool {
        &&& self.width >= 1
        &&& self.height >= 1
        &&& self.map@.len() == self.total()
        &&& self.bomb_count == self.num_mines()
        &&& self.bomb_coordinates@.len() == self.num_mines()
        &&& forall|c: Coordinates| self.bomb_coordinates@.contains(c) <==> self.is_mine(c.x as int, c.y as int)
        &&& forall|i: int, j: int|
            0 <= i < j < self.bomb_coordinates@.len() ==> self.bomb_coordinates@[i]
                != self.bomb_coordinates@[j]
    }

    /// The cell at `(x, y)` carries its true neighbor count: `Empty` when no
    /// mine is adjacent, `BombNeighbour(n)` for `n >= 1` adjacent mines.
    pub open spec fn consistent_at(self, x: int, y: int) -> bool {
        self.tile_at_spec(x, y) == (if self.adjacent_mines(x, y) == 0 {
            Tile::Empty
        } else {
            Tile::BombNeighbour(self.adjacent_mines(x, y) as u8)
        })
    }

    /// Every non-mine cell carries its true neighbor count.
    pub open spec fn counts_consistent(self) -> bool {
        forall|x: int, y: int|
            self.in_bounds(x, y) && !(#[trigger] self.tile_at_spec(x, y) is Bomb)
                ==> self.consistent_at(x, y)
    }

    /// Both maps hold mines at exactly the same positions.
    pub open spec fn mines_match(self, other: TileMap) -> bool {
        forall|x: int, y: int| #[trigger] self.is_mine(x, y) == other.is_mine(x, y)
    }

    /// A fresh board: every cell `Empty`, no mine placed yet.
    pub fn new(width: u16, height: u16) -> (r: TileMap)
        requires
            width >= 1,
            height >= 1,
        ensures
            r.wf(),
            r.counts_consistent(),
            r.width == width,
            r.height == height,
            r.num_mines() == 0,
            forall|x: int, y: int| r.in_bounds(x, y) ==> r.tile_at_spec(x, y) == Tile::Empty,
    {
        proof {
            lemma_total_bounds(width as int, height as int);
        }
        let total: usize = (width as usize) * (height as usize);
        let mut map: Vec<Tile> = Vec::new();
        let mut i: usize = 0;
        while i < total
            invariant
                i <= total,
                map@.len() == i,
                forall|j: int| 0 <= j < i ==> map@[j] == Tile::Empty,
                count_matching(map@, tile_is_bomb()) == 0,
            decreases total - i,
        {
            proof {
                lemma_count_matching_push(map@, tile_is_bomb(), Tile::Empty);
            }
            map.push(Tile::Empty);
            i = i + 1;
        }
        let r = TileMap { bomb_coordinates: Vec::new(), bomb_count: 0, height, width, map };
        proof {
            assert forall|x: int, y: int| r.in_bounds(x, y) implies r.tile_at_spec(x, y)
                == Tile::Empty by {
                lemma_idx_bounds(r.width as int, r.height as int, x, y);
            }
        }
        r
    }

    /// False for any position outside `[0, width) x [0, height)`, else
    /// whether the cell holds a mine.
    pub fn is_bomb_at(&self, coordinates: Coordinates) -> (r: bool)
        requires
            self.wf(),
        ensures
            r == self.is_mine(coordinates.x as int, coordinates.y as int),
    {
        if coordinates.x >= self.width || coordinates.y >= self.height {
            return false;
        }
        proof {
            lemma_idx_bounds(
                self.width as int,
                self.height as int,
                coordinates.x as int,
                coordinates.y as int,
            );
        }
        let i: usize = (coordinates.y as usize) * (self.width as usize) + (coordinates.x as usize);
        self.map[i].is_bomb()
    }

    /// Whether the cell one step of `(dx, dy)` away from `c` holds a mine.
    /// Steps that leave the coordinate range land outside the grid and so
    /// count as no mine.
    fn neighbor_mine(&self, c: Coordinates, dx: i8, dy: i8) -> (r: bool)
        requires
            self.wf(),
            -1 <= dx <= 1,
            -1 <= dy <= 1,
        ensures
            r == self.is_mine(c.x + dx, c.y + dy),
    {
        if (dx < 0 && c.x == 0) || (dy < 0 && c.y == 0) || (dx > 0 && c.x == u16::MAX) || (dy > 0
            && c.y == u16::MAX) {
            return false;
        }
        let x: u16 = (c.x as i32 + dx as i32) as u16;
        let y: u16 = (c.y as i32 + dy as i32) as u16;
        self.is_bomb_at(Coordinates { x, y })
    }

    /// 0 if the coordinate itself holds a mine, else the number of mines
    /// among its up to 8 neighbors.
    pub fn bomb_count_at(&self, coordinates: Coordinates) -> (r: u8)
        requires
            self.wf(),
        ensures
            r as int == (if self.is_mine(coordinates.x as int, coordinates.y as int) {
                0int
            } else {
                self.adjacent_mines(coordinates.x as int, coordinates.y as int)
            }),
            r <= 8,
    {
        if self.is_bomb_at(coordinates) {
            return 0;
        }
        let mut count: u8 = 0;
        if self.neighbor_mine(coordinates, -1, -1) {
            count = count + 1;
        }
        if self.neighbor_mine(coordinates, 0, -1) {
            count = count + 1;
        }
        if self.neighbor_mine(coordinates, 1, -1) {
            count = count + 1;
        }
        if self.neighbor_mine(coordinates, -1, 0) {
            count = count + 1;
        }
        if self.neighbor_mine(coordinates, 1, 0) {
            count = count + 1;
        }
        if self.neighbor_mine(coordinates, -1, 1) {
            count = count + 1;
        }
        if self.neighbor_mine(coordinates, 0, 1) {
            count = count + 1;
        }
        if self.neighbor_mine(coordinates, 1, 1) {
            count = count + 1;
        }
        count
    }

    /// The up to 8 neighboring coordinates of `coordinates`, each once.
    /// Offsets that would leave the coordinate range produce no entry; the
    /// result may still hold positions beyond the grid's edge, which the
    /// lookups that consume them treat as empty space.
    pub fn safe_square_at(&self, coordinates: Coordinates) -> (r: Vec<Coordinates>)
        ensures
            forall|i: int| 0 <= i < r@.len() ==> is_adjacent(coordinates, #[trigger] r@[i]),
            forall|i: int, j: int| 0 <= i < j < r@.len() ==> r@[i] != r@[j],
            forall|p: Coordinates| is_adjacent(coordinates, p) ==> r@.contains(p),
    {
        proof {
            broadcast use lemma_seq_contains_after_push;

        }
        let mut r: Vec<Coordinates> = Vec::new();
        push_neighbor(&mut r, coordinates, -1, -1);
        push_neighbor(&mut r, coordinates, 0, -1);
        push_neighbor(&mut r, coordinates, 1, -1);
        push_neighbor(&mut r, coordinates, -1, 0);
        push_neighbor(&mut r, coordinates, 1, 0);
        push_neighbor(&mut r, coordinates, -1, 1);
        push_neighbor(&mut r, coordinates, 0, 1);
        push_neighbor(&mut r, coordinates, 1, 1);
        r
    }

    /// Place `bomb_count` mines, each drawn uniformly among the cells that
    /// hold no mine yet, on a board whose cells are all still `Empty`.
    /// Neighbor counts are not touched here; `compute_neighbour_counts`
    /// derives them afterwards.
    fn place_mines_random(&mut self, bomb_count: u16)
        requires
            old(self).wf(),
            forall|x: int, y: int|
                old(self).in_bounds(x, y) ==> old(self).tile_at_spec(x, y) == Tile::Empty,
            bomb_count as int <= old(self).total(),
        ensures
            final(self).wf(),
            final(self).width == old(self).width,
            final(self).height == old(self).height,
            final(self).bomb_count == bomb_count,
            final(self).num_mines() == bomb_count,
            forall|x: int, y: int|
                final(self).in_bounds(x, y) && !final(self).is_mine(x, y)
                    ==> final(self).tile_at_spec(x, y) == Tile::Empty,
    {
        proof {
            lemma_total_bounds(self.width as int, self.height as int);
            assert forall|i: int| 0 <= i < self.map@.len() implies !(tile_is_bomb()(
                #[trigger] self.map@[i],
            )) by {
                let w = self.width as int;
                let h = self.height as int;
                lemma_flat_to_coords(i, w, h);
                assert(self.in_bounds(i % w, i / w));
                assert(self.tile_at_spec(i % w, i / w) == self.map@[i]);
            }
            lemma_count_matching_none(self.map@, tile_is_bomb());
        }
        let ghost orig = *self;
        let total: usize = (self.width as usize) * (self.height as usize);
        // All cells are free: no mine has been placed yet.
        let mut free: Vec<usize> = Vec::new();
        let mut i: usize = 0;
        while i < total
            invariant
                i <= total,
                free@.len() == i,
                forall|j: int| 0 <= j < i ==> free@[j] == j,
            decreases total - i,
        {
            free.push(i);
            i = i + 1;
        }
        self.bomb_count = bomb_count;
        // The mine list starts over: nothing has been placed.
        self.bomb_coordinates = Vec::new();
        proof {
            assert forall|x: int, y: int| self.in_bounds(x, y) implies self.tile_at_spec(x, y)
                == Tile::Empty by {
                assert(orig.in_bounds(x, y) ==> orig.tile_at_spec(x, y) == Tile::Empty);
            }
        }
        let mut placed: u16 = 0;
        while placed < bomb_count
            invariant
                placed <= bomb_count,
                self.width == orig.width,
                self.height == orig.height,
                self.width >= 1,
                self.height >= 1,
                self.bomb_count == bomb_count,
                bomb_count as int <= self.total(),
                total == self.total(),
                self.map@.len() == self.total(),
                free@.len() + placed as int == self.total(),
                forall|j: int|
                    0 <= j < free@.len() ==> (#[trigger] free@[j]) < self.total() && !(self.map@[free@[j] as int] is Bomb),
                forall|j: int, k: int| 0 <= j < k < free@.len() ==> free@[j] != free@[k],
                forall|x: int, y: int|
                    self.in_bounds(x, y) && !self.is_mine(x, y) ==> self.tile_at_spec(x, y)
                        == Tile::Empty,
                self.num_mines() == placed,
                self.bomb_coordinates@.len() == placed,
                forall|c: Coordinates|
                    self.bomb_coordinates@.contains(c) <==> self.is_mine(c.x as int, c.y as int),
                forall|j: int, k: int|
                    0 <= j < k < self.bomb_coordinates@.len() ==> self.bomb_coordinates@[j]
                        != self.bomb_coordinates@[k],
            decreases bomb_count - placed,
        {
            let ghost pre = *self;
            let ghost prefree = free@;
            let j = random_below(free.len());
            let idx = free[j];
            let _ = free.swap_remove(j);
            proof {
                lemma_flat_to_coords(idx as int, self.width as int, self.height as int);
            }
            let x: u16 = (idx % (self.width as usize)) as u16;
            let y: u16 = (idx / (self.width as usize)) as u16;
            let newc = Coordinates { x, y };
            self.map.set(idx, Tile::Bomb);
            self.bomb_coordinates.push(newc);
            placed = placed + 1;
            proof {
                broadcast use lemma_seq_contains_after_push;

                let w = self.width as int;
                let h = self.height as int;
                lemma_count_matching_update(pre.map@, tile_is_bomb(), idx as int, Tile::Bomb);
                // The free list after removal still lists distinct mine-free cells.
                assert forall|jj: int|
                    0 <= jj < free@.len() implies (#[trigger] free@[jj]) < self.total() && !(self.map@[free@[jj] as int] is Bomb) by {
                    let fv = free@[jj];
                    if jj == j as int {
                        assert(fv == prefree[prefree.len() - 1]);
                    } else {
                        assert(fv == prefree[jj]);
                    }
                    assert(fv != idx as usize);
                }
                // The new coordinate stands exactly for the cell at `idx`.
                assert(newc.y as int * w + newc.x as int == idx);
                assert(self.is_mine(newc.x as int, newc.y as int));
                // Cells that still hold no mine are untouched and stay Empty.
                assert forall|x: int, y: int|
                    self.in_bounds(x, y) && !self.is_mine(x, y) implies self.tile_at_spec(x, y)
                    == Tile::Empty by {
                    lemma_idx_bounds(w, h, x, y);
                    if y * w + x != idx {
                        assert(self.tile_at_spec(x, y) == pre.tile_at_spec(x, y));
                        assert(!pre.is_mine(x, y));
                    }
                }
                // The mine list keeps listing exactly the mine cells, each once.
                assert forall|c: Coordinates| self.bomb_coordinates@.contains(c) implies self.is_mine(
                    c.x as int,
                    c.y as int,
                ) by {
                    if c != newc {
                        assert(pre.bomb_coordinates@.contains(c));
                        assert(pre.is_mine(c.x as int, c.y as int));
                        lemma_idx_bounds(w, h, c.x as int, c.y as int);
                        if c.y as int * w + c.x as int == idx {
                            lemma_idx_injective(
                                w,
                                c.x as int,
                                c.y as int,
                                newc.x as int,
                                newc.y as int,
                            );
                        }
                    }
                }
                assert forall|c: Coordinates| self.is_mine(c.x as int, c.y as int) implies self.bomb_coordinates@.contains(
                    c,
                ) by {
                    lemma_idx_bounds(w, h, c.x as int, c.y as int);
                    if c.y as int * w + c.x as int == idx {
                        lemma_idx_injective(w, c.x as int, c.y as int, newc.x as int, newc.y as int);
                        assert(c == newc);
                    } else {
                        assert(pre.is_mine(c.x as int, c.y as int));
                    }
                }
                assert(!pre.bomb_coordinates@.contains(newc));
            }
        }
        proof {
            assert(self.wf());
        }
    }

    /// Second placement pass: walk every cell and write the `BombNeighbour`
    /// value of each non-mine cell that borders a mine. Cells bordering none
    /// stay `Empty`; mines are untouched.
    #[verifier::rlimit(60)]
    fn compute_neighbour_counts(&mut self)
        requires
            old(self).wf(),
            forall|x: int, y: int|
                old(self).in_bounds(x, y) && !old(self).is_mine(x, y) ==> old(self).tile_at_spec(
                    x,
                    y,
                ) == Tile::Empty,
        ensures
            final(self).wf(),
            final(self).counts_consistent(),
            final(self).width == old(self).width,
            final(self).height == old(self).height,
            final(self).bomb_count == old(self).bomb_count,
            final(self).bomb_coordinates@ == old(self).bomb_coordinates@,
            final(self).mines_match(*old(self)),
            final(self).num_mines() == old(self).num_mines(),
    {
        let ghost orig = *self;
        let w: u16 = self.width;
        let h: u16 = self.height;
        let mut y: u16 = 0;
        while y < h
            invariant
                y <= h,
                w == self.width,
                h == self.height,
                w == orig.width,
                h == orig.height,
                self.wf(),
                self.bomb_count == orig.bomb_count,
                self.bomb_coordinates@ == orig.bomb_coordinates@,
                self.num_mines() == orig.num_mines(),
                self.mines_match(orig),
                forall|a: int, b: int|
                    self.in_bounds(a, b) && b >= y ==> self.tile_at_spec(a, b) == orig.tile_at_spec(
                        a,
                        b,
                    ),
                forall|a: int, b: int|
                    self.in_bounds(a, b) && b < y && !self.is_mine(a, b) ==> self.consistent_at(
                        a,
                        b,
                    ),
                forall|a: int, b: int|
                    orig.in_bounds(a, b) && !orig.is_mine(a, b) ==> orig.tile_at_spec(a, b)
                        == Tile::Empty,
            decreases h - y,
        {
            let mut x: u16 = 0;
            while x < w
                invariant
                    x <= w,
                    y < h,
                    w == self.width,
                    h == self.height,
                    w == orig.width,
                    h == orig.height,
                    self.wf(),
                    self.bomb_count == orig.bomb_count,
                    self.bomb_coordinates@ == orig.bomb_coordinates@,
                    self.num_mines() == orig.num_mines(),
                    self.mines_match(orig),
                    forall|a: int, b: int|
                        self.in_bounds(a, b) && (b > y || (b == y && a >= x))
                            ==> self.tile_at_spec(a, b) == orig.tile_at_spec(a, b),
                    forall|a: int, b: int|
                        self.in_bounds(a, b) && (b < y || (b == y && a < x)) && !self.is_mine(a, b)
                            ==> self.consistent_at(a, b),
                    forall|a: int, b: int|
                        orig.in_bounds(a, b) && !orig.is_mine(a, b) ==> orig.tile_at_spec(a, b)
                            == Tile::Empty,
                decreases w - x,
            {
                let ghost pre = *self;
                let c = Coordinates { x, y };
                let n = self.bomb_count_at(c);
                if n > 0 {
                    proof {
                        lemma_idx_bounds(w as int, h as int, x as int, y as int);
                    }
                    let i: usize = (y as usize) * (w as usize) + (x as usize);
                    self.map.set(i, Tile::BombNeighbour(n));
                    proof {
                        let wi = w as int;
                        let hi = h as int;
                        let ii = y as int * wi + x as int;
                        lemma_count_matching_update(
                            pre.map@,
                            tile_is_bomb(),
                            ii,
                            Tile::BombNeighbour(n),
                        );
                        // Any other in-bounds cell flattens to another index,
                        // so its tile is untouched.
                        assert forall|a: int, b: int|
                            self.in_bounds(a, b) && (a != x as int || b != y as int)
                            implies #[trigger] self.tile_at_spec(a, b) == pre.tile_at_spec(
                            a,
                            b,
                        ) by {
                            lemma_idx_bounds(wi, hi, a, b);
                            if b * wi + a == ii {
                                lemma_idx_injective(wi, a, b, x as int, y as int);
                            }
                        }
                        // Only the cell at `(x, y)` changed, and not into or
                        // out of a mine.
                        assert forall|a: int, b: int| #[trigger] self.is_mine(a, b) == pre.is_mine(
                            a,
                            b,
                        ) by {
                            if self.in_bounds(a, b) && a == x as int && b == y as int {
                                lemma_idx_bounds(wi, hi, a, b);
                            }
                        }
                        assert forall|c2: Coordinates| self.bomb_coordinates@.contains(c2)
                            <==> self.is_mine(c2.x as int, c2.y as int) by {
                            assert(pre.bomb_coordinates@.contains(c2) <==> pre.is_mine(
                                c2.x as int,
                                c2.y as int,
                            ));
                            assert(self.is_mine(c2.x as int, c2.y as int) == pre.is_mine(
                                c2.x as int,
                                c2.y as int,
                            ));
                        }
                        // Cells before the scan point stay consistent: their
                        // tile and every mine around them are unchanged.
                        assert forall|a: int, b: int|
                            self.in_bounds(a, b) && (b < y || (b == y && a < x)) && !self.is_mine(
                                a,
                                b,
                            ) implies self.consistent_at(a, b) by {
                            assert(self.tile_at_spec(a, b) == pre.tile_at_spec(a, b));
                            assert(!pre.is_mine(a, b));
                            assert(pre.consistent_at(a, b));
                            assert(self.adjacent_mines(a, b) == pre.adjacent_mines(a, b));
                        }
                        // The freshly written cell is consistent.
                        lemma_idx_bounds(wi, hi, x as int, y as int);
                        assert(self.tile_at_spec(x as int, y as int) == Tile::BombNeighbour(n));
                        assert(self.adjacent_mines(x as int, y as int) == pre.adjacent_mines(
                            x as int,
                            y as int,
                        ));
                        assert(self.adjacent_mines(x as int, y as int) == n as int);
                        lemma_consistent_after_write(*self, x as int, y as int, n);
                        assert(self.consistent_at(x as int, y as int));
                        // Cells after the scan point are still as they were.
                        assert forall|a: int, b: int|
                            self.in_bounds(a, b) && (b > y || (b == y && a >= x + 1))
                            implies self.tile_at_spec(a, b) == orig.tile_at_spec(a, b) by {
                            assert(self.tile_at_spec(a, b) == pre.tile_at_spec(a, b));
                        }
                    }
                } else {
                    proof {
                        // Nothing written: a mine keeps its tile, and a
                        // non-mine cell with no adjacent mine is Empty and
                        // thereby consistent.
                        if !self.is_mine(x as int, y as int) {
                            assert(!orig.is_mine(x as int, y as int));
                            assert(orig.tile_at_spec(x as int, y as int) == Tile::Empty);
                            assert(self.tile_at_spec(x as int, y as int) == orig.tile_at_spec(
                                x as int,
                                y as int,
                            ));
                            lemma_consistent_empty(*self, x as int, y as int);
                            assert(self.consistent_at(x as int, y as int));
                        }
                    }
                }
                x = x + 1;
            }
            y = y + 1;
        }
    }

    /// Place `bomb_count` mines at uniformly random distinct cells of a fresh
    /// board, then derive every neighbor count. Afterwards exactly
    /// `bomb_count` cells are mines and every non-mine cell carries its true
    /// 8-neighborhood mine count.
    pub fn set_bombs(&mut self, bomb_count: u16)
        requires
            old(self).wf(),
            forall|x: int, y: int|
                old(self).in_bounds(x, y) ==> old(self).tile_at_spec(x, y) == Tile::Empty,
            bomb_count as int <= old(self).total(),
        ensures
            final(self).wf(),
            final(self).counts_consistent(),
            final(self).width == old(self).width,
            final(self).height == old(self).height,
            final(self).bomb_count == bomb_count,
            final(self).num_mines() == bomb_count,
    {
        self.place_mines_random(bomb_count);
        self.compute_neighbour_counts();
    }

    /// Place mines at exactly the given distinct in-bounds coordinates of a
    /// fresh board, then derive every neighbor count.
    pub fn set_bombs_at(&mut self, mines: &Vec<Coordinates>)
        requires
            old(self).wf(),
            forall|x: int, y: int|
                old(self).in_bounds(x, y) ==> old(self).tile_at_spec(x, y) == Tile::Empty,
            mines@.len() <= u16::MAX,
            forall|i: int|
                0 <= i < mines@.len() ==> old(self).in_bounds(
                    #[trigger] mines@[i].x as int,
                    mines@[i].y as int,
                ),
            forall|i: int, j: int| 0 <= i < j < mines@.len() ==> mines@[i] != mines@[j],
        ensures
            final(self).wf(),
            final(self).counts_consistent(),
            final(self).width == old(self).width,
            final(self).height == old(self).height,
            final(self).bomb_count == mines@.len(),
            final(self).num_mines() == mines@.len(),
            forall|c: Coordinates|
                final(self).is_mine(c.x as int, c.y as int) <==> mines@.contains(c),
    {
        proof {
            assert forall|i: int| 0 <= i < self.map@.len() implies !(tile_is_bomb()(
                #[trigger] self.map@[i],
            )) by {
                let w = self.width as int;
                let h = self.height as int;
                lemma_flat_to_coords(i, w, h);
                assert(self.in_bounds(i % w, i / w));
                assert(self.tile_at_spec(i % w, i / w) == self.map@[i]);
            }
            lemma_count_matching_none(self.map@, tile_is_bomb());
        }
        let ghost orig = *self;
        self.bomb_count = mines.len() as u16;
        self.bomb_coordinates = Vec::new();
        proof {
            assert forall|x: int, y: int| self.in_bounds(x, y) implies self.tile_at_spec(x, y)
                == Tile::Empty by {
                assert(orig.in_bounds(x, y) ==> orig.tile_at_spec(x, y) == Tile::Empty);
            }
        }
        let count: usize = mines.len();
        let mut k: usize = 0;
        while k < count
            invariant
                k <= count,
                count == mines@.len() <= u16::MAX,
                self.width == orig.width,
                self.height == orig.height,
                self.width >= 1,
                self.height >= 1,
                self.bomb_count == count,
                self.map@.len() == self.total(),
                forall|i: int|
                    0 <= i < mines@.len() ==> orig.in_bounds(
                        #[trigger] mines@[i].x as int,
                        mines@[i].y as int,
                    ),
                forall|i: int, j: int| 0 <= i < j < mines@.len() ==> mines@[i] != mines@[j],
                forall|x: int, y: int|
                    self.in_bounds(x, y) && !self.is_mine(x, y) ==> self.tile_at_spec(x, y)
                        == Tile::Empty,
                self.num_mines() == k,
                self.bomb_coordinates@ == mines@.take(k as int),
                forall|c: Coordinates|
                    self.bomb_coordinates@.contains(c) <==> self.is_mine(c.x as int, c.y as int),
            decreases count - k,
        {
            let ghost pre = *self;
            let newc = mines[k];
            proof {
                lemma_idx_bounds(
                    self.width as int,
                    self.height as int,
                    newc.x as int,
                    newc.y as int,
                );
                // A coordinate not placed yet holds no mine, so the write
                // below adds exactly one.
                assert(!pre.bomb_coordinates@.contains(newc)) by {
                    if pre.bomb_coordinates@.contains(newc) {
                        let j = choose|j: int|
                            0 <= j < pre.bomb_coordinates@.len() && pre.bomb_coordinates@[j]
                                == newc;
                        assert(mines@[j] == newc);
                    }
                }
            }
            let i: usize = (newc.y as usize) * (self.width as usize) + (newc.x as usize);
            self.map.set(i, Tile::Bomb);
            self.bomb_coordinates.push(newc);
            k = k + 1;
            proof {
                broadcast use lemma_seq_contains_after_push;

                let w = self.width as int;
                let h = self.height as int;
                let ii = newc.y as int * w + newc.x as int;
                lemma_count_matching_update(pre.map@, tile_is_bomb(), ii, Tile::Bomb);
                assert(self.bomb_coordinates@ =~= mines@.take(k as int));
                assert(self.is_mine(newc.x as int, newc.y as int));
                assert forall|c: Coordinates| self.bomb_coordinates@.contains(c) implies self.is_mine(
                    c.x as int,
                    c.y as int,
                ) by {
                    if c != newc {
                        assert(pre.bomb_coordinates@.contains(c));
                        assert(pre.is_mine(c.x as int, c.y as int));
                        lemma_idx_bounds(w, h, c.x as int, c.y as int);
                        if c.y as int * w + c.x as int == ii {
                            lemma_idx_injective(
                                w,
                                c.x as int,
                                c.y as int,
                                newc.x as int,
                                newc.y as int,
                            );
                        }
                    }
                }
                assert forall|c: Coordinates| self.is_mine(c.x as int, c.y as int) implies self.bomb_coordinates@.contains(
                    c,
                ) by {
                    lemma_idx_bounds(w, h, c.x as int, c.y as int);
                    if c.y as int * w + c.x as int == ii {
                        lemma_idx_injective(w, c.x as int, c.y as int, newc.x as int, newc.y as int);
                        assert(c == newc);
                    } else {
                        assert(pre.is_mine(c.x as int, c.y as int));
                    }
                }
                // Cells that still hold no mine are untouched and stay Empty.
                assert forall|x: int, y: int|
                    self.in_bounds(x, y) && !self.is_mine(x, y) implies self.tile_at_spec(x, y)
                    == Tile::Empty by {
                    lemma_idx_bounds(w, h, x, y);
                    if y * w + x != ii {
                        assert(self.tile_at_spec(x, y) == pre.tile_at_spec(x, y));
                        assert(!pre.is_mine(x, y));
                    }
                }
            }
        }
        proof {
            assert(self.bomb_coordinates@ =~= mines@);
            assert(self.wf());
        }
        let ghost mid = *self;
        self.compute_neighbour_counts();
        proof {
            assert forall|c: Coordinates| self.is_mine(c.x as int, c.y as int) <==> mines@.contains(
                c,
            ) by {
                assert(self.is_mine(c.x as int, c.y as int) == mid.is_mine(c.x as int, c.y as int));
                assert(mid.bomb_coordinates@.contains(c) <==> mid.is_mine(c.x as int, c.y as int));
            }
        }
    }

    /// The designated first-reveal cell for an easy-mode session: the first
    /// `Empty` cell in scan order, or the first non-mine cell when no cell is
    /// free of adjacent mines. With fewer mines than cells such a cell
    /// always exists, and it is never a mine.
    pub fn safe_start_coordinate(&self) -> (r: Coordinates)
        requires
            self.wf(),
            self.num_mines() < self.total(),
        ensures
            self.in_bounds(r.x as int, r.y as int),
            !self.is_mine(r.x as int, r.y as int),
            (exists|x: int, y: int|
                self.in_bounds(x, y) && #[trigger] self.tile_at_spec(x, y) == Tile::Empty)
                ==> self.tile_at_spec(r.x as int, r.y as int) == Tile::Empty,
    {
        proof {
            lemma_total_bounds(self.width as int, self.height as int);
        }
        let w = self.width;
        let h = self.height;
        let total: usize = (w as usize) * (h as usize);
        let mut i: usize = 0;
        while i < total
            invariant
                i <= total,
                self.wf(),
                w == self.width,
                h == self.height,
                total == self.total(),
                forall|j: int| 0 <= j < i ==> #[trigger] self.map@[j] != Tile::Empty,
            decreases total - i,
        {
            proof {
                lemma_flat_to_coords(i as int, w as int, h as int);
            }
            if matches!(self.map[i], Tile::Empty) {
                let r = Coordinates { x: (i % (w as usize)) as u16, y: (i / (w as usize)) as u16 };
                proof {
                    assert(self.tile_at_spec(r.x as int, r.y as int) == self.map@[i as int]);
                }
                return r;
            }
            i = i + 1;
        }
        // No cell is free of adjacent mines: fall back to the first cell
        // that holds no mine, which exists since not every cell is a mine.
        proof {
            assert forall|x: int, y: int|
                self.in_bounds(x, y) implies #[trigger] self.tile_at_spec(x, y) != Tile::Empty by {
                lemma_idx_bounds(self.width as int, self.height as int, x, y);
            }
        }
        let mut k: usize = 0;
        while k < total
            invariant
                k <= total,
                self.wf(),
                w == self.width,
                h == self.height,
                total == self.total(),
                count_matching(self.map@.take(k as int), tile_is_bomb()) == k,
                forall|x: int, y: int|
                    self.in_bounds(x, y) ==> #[trigger] self.tile_at_spec(x, y) != Tile::Empty,
            decreases total - k,
        {
            proof {
                lemma_flat_to_coords(k as int, w as int, h as int);
                lemma_count_matching_take_step(self.map@, tile_is_bomb(), k as int);
            }
            if !self.map[k].is_bomb() {
                let r = Coordinates { x: (k % (w as usize)) as u16, y: (k / (w as usize)) as u16 };
                proof {
                    assert(self.tile_at_spec(r.x as int, r.y as int) == self.map@[k as int]);
                }
                return r;
            }
            k = k + 1;
        }
        proof {
            lemma_count_matching_take_all(self.map@, tile_is_bomb());
            assert(false);
        }
        Coordinates { x: 0, y: 0 }
    }

    pub fn get_width(&self) -> (r: u16)
        ensures
            r == self.width,
    {
        self.width
    }

    pub fn get_height(&self) -> (r: u16)
        ensures
            r == self.height,
    {
        self.height
    }

    pub fn get_bomb_count(&self) -> (r: u16)
        ensures
            r == self.bomb_count,
    {
        self.bomb_count
    }

    /// The coordinates of every mine, each exactly once.
    pub fn get_bomb_tiles(&self) -> (r: Vec<Coordinates>)
        requires
            self.wf(),
        ensures
            r@ == self.bomb_coordinates@,
            forall|c: Coordinates| r@.contains(c) <==> self.is_mine(c.x as int, c.y as int),
    {
        self.bomb_coordinates.clone()
    }

    /// The tile at an in-bounds coordinate.
    pub fn tile_at(&self, coordinates: Coordinates) -> (r: Tile)
        requires
            self.wf(),
            self.in_bounds(coordinates.x as int, coordinates.y as int),
        ensures
            r == self.tile_at_spec(coordinates.x as int, coordinates.y as int),
    {
        proof {
            lemma_idx_bounds(
                self.width as int,
                self.height as int,
                coordinates.x as int,
                coordinates.y as int,
            );
        }
        let i: usize = (coordinates.y as usize) * (self.width as usize) + (coordinates.x as usize);
        self.map[i]
    }
}

/// Flattening a coordinate and splitting the index again round-trips.
pub proof fn lemma_coord_roundtrip(m: TileMap, c: Coordinates)
    requires
        m.width >= 1,
        m.height >= 1,
        m.in_bounds(c.x as int, c.y as int),
    ensures
        m.coord_of(m.idx(c.x as int, c.y as int)) == c,
        0 <= m.idx(c.x as int, c.y as int) < m.total(),
{
    let w = m.width as int;
    let h = m.height as int;
    let i = m.idx(c.x as int, c.y as int);
    lemma_idx_bounds(w, h, c.x as int, c.y as int);
    lemma_flat_to_coords(i, w, h);
    lemma_idx_injective(w, i % w, i / w, c.x as int, c.y as int);
}

/// A cell that was just written with its positive neighbor count is
/// consistent.
proof fn lemma_consistent_after_write(m: TileMap, x: int, y: int, n: u8)
    requires
        m.tile_at_spec(x, y) == Tile::BombNeighbour(n),
        n as int == m.adjacent_mines(x, y),
        n > 0,
    ensures
        m.consistent_at(x, y),
{
}

/// A cell that stayed `Empty` and borders no mine is consistent.
proof fn lemma_consistent_empty(m: TileMap, x: int, y: int)
    requires
        m.tile_at_spec(x, y) == Tile::Empty,
        m.adjacent_mines(x, y) == 0,
    ensures
        m.consistent_at(x, y),
{
}

/// Append the coordinate one step of `(dx, dy)` away from `c`, or nothing
/// when that step leaves the coordinate range.
fn push_neighbor(r: &mut Vec<Coordinates>, c: Coordinates, dx: i8, dy: i8)
    requires
        -1 <= dx <= 1,
        -1 <= dy <= 1,
        !(dx == 0 && dy == 0),
    ensures
        (if 0 <= c.x + dx <= u16::MAX && 0 <= c.y + dy <= u16::MAX {
            final(r)@ == old(r)@.push(
                Coordinates { x: (c.x + dx) as u16, y: (c.y + dy) as u16 },
            )
        } else {
            final(r)@ == old(r)@
        }),
{
    if (dx < 0 && c.x == 0) || (dy < 0 && c.y == 0) || (dx > 0 && c.x == u16::MAX) || (dy > 0 && c.y
        == u16::MAX) {
        return ;
    }
    let x: u16 = (c.x as i32 + dx as i32) as u16;
    let y: u16 = (c.y as i32 + dy as i32) as u16;
    r.push(Coordinates { x, y });
}

/// An in-bounds position flattens to an index below `width * height`, which
/// itself stays within the `u32` range for `u16` dimensions.
pub proof fn lemma_idx_bounds(width: int, height: int, x: int, y: int)
    by (nonlinear_arith)
    requires
        0 <= x < width <= 0xffff,
        0 <= y < height <= 0xffff,
    ensures
        0 <= y * width + x < width * height,
        y * width <= 0xfffe0001,
        width * height <= 0xfffe0001,
{
}

/// The cell count of a grid with `u16` dimensions fits in a `u32`.
pub proof fn lemma_total_bounds(width: int, height: int)
    by (nonlinear_arith)
    requires
        0 <= width <= 0xffff,
        0 <= height <= 0xffff,
    ensures
        0 <= width * height <= 0xfffe0001,
{
}

/// Splitting a flat index into a column and a row inverts the row-major
/// layout.
pub proof fn lemma_flat_to_coords(idx: int, w: int, h: int)
    requires
        w >= 1,
        h >= 1,
        0 <= idx < w * h,
    ensures
        0 <= idx % w < w,
        0 <= idx / w < h,
        (idx / w) * w + (idx % w) == idx,
{
    lemma_fundamental_div_mod(idx, w);
    lemma_mod_bound(idx, w);
    let q = idx / w;
    let r = idx % w;
    assert(0 <= q && q < h) by (nonlinear_arith)
        requires
            idx == w * q + r,
            0 <= r < w,
            w >= 1,
            h >= 1,
            0 <= idx < w * h,
    ;
    assert(q * w == w * q) by (nonlinear_arith);
}

/// Flattened indices agree only on equal positions: the grid layout stores
/// each cell at its own slot.
pub proof fn lemma_idx_injective(width: int, x1: int, y1: int, x2: int, y2: int)
    by (nonlinear_arith)
    requires
        0 <= x1 < width,
        0 <= x2 < width,
        y1 * width + x1 == y2 * width + x2,
    ensures
        x1 == x2 && y1 == y2,
{
}

} // verus!
