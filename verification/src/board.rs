use vstd::prelude::*;
use crate::coordinates::{is_adjacent, Coordinates};
use crate::counting::{
    count_matching, lemma_count_matching_pos, lemma_count_matching_push,
    lemma_count_matching_update,
};
use crate::tile::Tile;
use crate::tile_map::{
    lemma_coord_roundtrip, lemma_flat_to_coords, lemma_idx_bounds, lemma_total_bounds, TileMap,
};

verus! {

/// The result of revealing one coordinate: nothing to do, a mine was struck
/// (with the cover handles of every still-covered mine), or one or more safe
/// cells were revealed (with their cover handles).
pub enum RevealOutcome {
    Nothing,
    Exploded(Vec<u64>),
    Revealed(Vec<u64>),
}

/// Whether a cover entry is still present: the indicator that the covered
/// count sums.
pub open spec fn cover_present() -> spec_fn(Option<u64>) -> bool {
    |o: Option<u64>| o is Some
}

/// Whether a flag is set: the indicator that the flagged count sums.
pub open spec fn flag_set() -> spec_fn(bool) -> bool {
    |b: bool| b
}

/// The result of toggling a flag: the flag was placed, the flag was removed,
/// or the coordinate was not covered and nothing happened. The payload is the
/// cover handle of the toggled cell.
#[derive(Debug, Clone, Copy, PartialEq, Eq, Structural)]
pub enum FlagToggle {
    FlagIsSet(u64),
    FlagIsUnset(u64),
    Nothing,
}

/// The player-facing state of one game session: the tile map, the mapping
/// from each still-covered coordinate to its opaque cover handle, and the set
/// of flagged coordinates.
///
/// The cover mapping and the flag set are stored as arrays over the grid's
/// flat indices. The handle of the cell at flat index `i` is `i as u64`: an
/// arena index that the presentation layer resolves to its overlay object.
/// Well-formedness (`wf`) requires that every flagged cell is still covered
/// and that the cached counts equal the true number of covered entries and
/// set flags.
#[derive(Debug, Clone)]
pub struct Board {
    pub tile_map: TileMap,
    pub covered: Vec<Option<u64>>,
    pub flagged: Vec<bool>,
    pub covered_count: usize,
    pub flagged_count: usize,
}

impl Board {
    pub open spec fn total(self) -> int {
        self.tile_map.total()
    }

    pub open spec fn index_of(self, c: Coordinates) -> int {
        self.tile_map.idx(c.x as int, c.y as int)
    }

    pub open spec fn coord_in_bounds(self, c: Coordinates) -> bool {
        self.tile_map.in_bounds(c.x as int, c.y as int)
    }

    /// The cover handle of the cell at `c`: its flat index.
    pub open spec fn handle_at(self, c: Coordinates) -> u64 {
        self.index_of(c) as u64
    }

    /// Whether the cell at `c` is still covered. Positions outside the grid
    /// count as not covered.
    pub open spec fn covered_at(self, c: Coordinates) -> bool {
        self.coord_in_bounds(c) && self.covered@[self.index_of(c)] is Some
    }

    /// Whether the cell at `c` is flagged. Positions outside the grid count
    /// as not flagged.
    pub open spec fn flagged_at(self, c: Coordinates) -> bool {
        self.coord_in_bounds(c) && self.flagged@[self.index_of(c)]
    }

    pub open spec fn wf(self) -> bool {
        &&& self.tile_map.wf()
        &&& self.covered@.len() == self.total()
        &&& self.flagged@.len() == self.total()
        &&& self.covered_count == count_matching(self.covered@, cover_present())
        &&& self.flagged_count == count_matching(self.flagged@, flag_set())
        &&& forall|i: int|
            0 <= i < self.total() ==> ((#[trigger] self.flagged@[i]) ==> self.covered@[i] is Some)
        &&& forall|i: int|
            0 <= i < self.total() ==> ((#[trigger] self.covered@[i]) is Some ==> self.covered@[i]->0
                == i as u64)
    }

    /// The win condition. With `flag_mode` on, every covered cell must be a
    /// flagged mine and every mine flagged; with it off, everything but the
    /// mines must be revealed, flags regardless.
    pub open spec fn win_spec(self, flag_mode: bool) -> bool {
        if flag_mode {
            self.flagged_count == self.tile_map.bomb_count && self.covered_count
                == self.tile_map.bomb_count
        } else {
            self.covered_count == self.tile_map.bomb_count
        }
    }

    /// A coordinate a reveal may take the cover off: still covered and not
    /// blocked by a flag.
    pub open spec fn eligible(self, c: Coordinates) -> bool {
        self.covered_at(c) && !self.flagged_at(c)
    }

    /// `eligible`, stated over a flat index.
    pub open spec fn eligible_i(self, i: int) -> bool {
        self.covered@[i] is Some && !self.flagged@[i]
    }

    /// A cell through which a cascade propagates: coverable and with no mine
    /// adjacent, so that revealing it reveals its whole neighborhood.
    pub open spec fn cascades(self, c: Coordinates) -> bool {
        self.eligible(c) && self.tile_map.tile_at_spec(c.x as int, c.y as int) == Tile::Empty
    }

    /// A walk of the cascade: it starts at `s`, moves one neighbor at a
    /// time, and passes only through cascading cells.
    pub open spec fn cascade_path(self, s: Coordinates, p: Seq<Coordinates>) -> bool {
        &&& p.len() >= 1
        &&& p[0] == s
        &&& forall|i: int| 0 <= i < p.len() ==> self.cascades(#[trigger] p[i])
        &&& forall|i: int| 0 <= i < p.len() - 1 ==> is_adjacent(#[trigger] p[i], p[i + 1])
    }

    /// The cascade from `s` reaches `c`: some walk of the cascade ends there.
    pub open spec fn propagates(self, s: Coordinates, c: Coordinates) -> bool {
        exists|p: Seq<Coordinates>| #[trigger] self.cascade_path(s, p) && p.last() == c
    }

    /// `c` is the start itself or borders a cell the cascade reaches.
    pub open spec fn cascade_edge(self, s: Coordinates, c: Coordinates) -> bool {
        c == s || exists|m: Coordinates| #[trigger] self.propagates(s, m) && is_adjacent(m, c)
    }

    /// The set of cells that revealing `s` takes the cover off: every
    /// coverable cell that is `s` itself or borders a cell of the connected
    /// zero-count region around `s`. When the tile at `s` borders a mine, the
    /// cascade reaches nothing and this set is `{ s }` alone.
    pub open spec fn revealed_from(self, s: Coordinates, c: Coordinates) -> bool {
        self.eligible(c) && self.cascade_edge(s, c)
    }

    /// Wrap a tile map into a fresh session: every cell covered under its
    /// handle, nothing flagged.
    pub fn new(tile_map: TileMap) -> (r: Board)
        requires
            tile_map.wf(),
        ensures
            r.wf(),
            r.tile_map == tile_map,
            r.covered_count == r.total(),
            r.flagged_count == 0,
            forall|c: Coordinates| r.coord_in_bounds(c) ==> r.covered_at(c),
            forall|c: Coordinates| !r.flagged_at(c),
    {
        proof {
            crate::tile_map::lemma_total_bounds(tile_map.width as int, tile_map.height as int);
        }
        let total: usize = (tile_map.width as usize) * (tile_map.height as usize);
        let mut covered: Vec<Option<u64>> = Vec::new();
        let mut flagged: Vec<bool> = Vec::new();
        let mut i: usize = 0;
        while i < total
            invariant
                i <= total,
                covered@.len() == i,
                flagged@.len() == i,
                forall|j: int| 0 <= j < i ==> (#[trigger] covered@[j]) == Some(j as u64),
                forall|j: int| 0 <= j < i ==> !(#[trigger] flagged@[j]),
                count_matching(covered@, cover_present()) == i,
                count_matching(flagged@, flag_set()) == 0,
            decreases total - i,
        {
            proof {
                lemma_count_matching_push(covered@, cover_present(), Some(i as u64));
                lemma_count_matching_push(flagged@, flag_set(), false);
            }
            covered.push(Some(i as u64));
            flagged.push(false);
            i = i + 1;
        }
        let r = Board { tile_map, covered, flagged, covered_count: total, flagged_count: 0 };
        proof {
            assert forall|c: Coordinates| r.coord_in_bounds(c) implies r.covered_at(c) by {
                lemma_idx_bounds(
                    r.tile_map.width as int,
                    r.tile_map.height as int,
                    c.x as int,
                    c.y as int,
                );
            }
            assert forall|c: Coordinates| !r.flagged_at(c) by {
                if r.coord_in_bounds(c) {
                    lemma_idx_bounds(
                        r.tile_map.width as int,
                        r.tile_map.height as int,
                        c.x as int,
                        c.y as int,
                    );
                }
            }
        }
        r
    }

    /// The flat index of an in-bounds coordinate.
    fn flat_index(&self, coordinates: &Coordinates) -> (r: usize)
        requires
            self.wf(),
            self.coord_in_bounds(*coordinates),
        ensures
            r == self.index_of(*coordinates),
            r < self.covered@.len(),
    {
        proof {
            lemma_idx_bounds(
                self.tile_map.width as int,
                self.tile_map.height as int,
                coordinates.x as int,
                coordinates.y as int,
            );
        }
        (coordinates.y as usize) * (self.tile_map.width as usize) + (coordinates.x as usize)
    }

    /// The cover handle of a still-covered coordinate, without revealing it.
    pub fn tile_selected(&self, coordinates: &Coordinates) -> (r: Option<u64>)
        requires
            self.wf(),
        ensures
            r is Some <==> self.covered_at(*coordinates),
            r is Some ==> r->0 == self.handle_at(*coordinates),
    {
        if coordinates.x >= self.tile_map.width || coordinates.y >= self.tile_map.height {
            return None;
        }
        let i = self.flat_index(coordinates);
        self.covered[i]
    }

    /// Reveal the tile at a coordinate. Returns its cover handle, removed
    /// from the covered mapping; a flagged, already-revealed, or out-of-range
    /// coordinate is left untouched and yields `None`.
    pub fn try_uncover_tile(&mut self, coordinates: &Coordinates) -> (r: Option<u64>)
        requires
            old(self).wf(),
        ensures
            final(self).wf(),
            final(self).tile_map == old(self).tile_map,
            final(self).flagged@ == old(self).flagged@,
            final(self).flagged_count == old(self).flagged_count,
            r is Some <==> (old(self).covered_at(*coordinates) && !old(self).flagged_at(
                *coordinates,
            )),
            r is Some ==> {
                &&& r->0 == old(self).handle_at(*coordinates)
                &&& final(self).covered@ == old(self).covered@.update(
                    old(self).index_of(*coordinates),
                    None,
                )
                &&& final(self).covered_count == old(self).covered_count - 1
            },
            r is None ==> *final(self) == *old(self),
    {
        if coordinates.x >= self.tile_map.width || coordinates.y >= self.tile_map.height {
            return None;
        }
        let i = self.flat_index(coordinates);
        if self.flagged[i] {
            return None;
        }
        match self.covered[i] {
            Some(h) => {
                proof {
                    lemma_count_matching_pos(self.covered@, cover_present(), i as int);
                    lemma_count_matching_update(self.covered@, cover_present(), i as int, None);
                }
                self.covered.set(i, None);
                self.covered_count = self.covered_count - 1;
                Some(h)
            },
            None => None,
        }
    }

    /// Toggle the flag on a covered coordinate: place it if absent, lift it
    /// if present, and return the cell's cover handle. A coordinate that is
    /// not covered (never placed, already revealed, or out of range) is left
    /// untouched.
    pub fn try_toggle_flag(&mut self, coordinates: &Coordinates) -> (r: FlagToggle)
        requires
            old(self).wf(),
        ensures
            final(self).wf(),
            final(self).tile_map == old(self).tile_map,
            final(self).covered@ == old(self).covered@,
            final(self).covered_count == old(self).covered_count,
            match r {
                FlagToggle::Nothing => !old(self).covered_at(*coordinates) && *final(self) == *old(
                    self,
                ),
                FlagToggle::FlagIsSet(h) => {
                    &&& old(self).covered_at(*coordinates)
                    &&& !old(self).flagged_at(*coordinates)
                    &&& h == old(self).handle_at(*coordinates)
                    &&& final(self).flagged@ == old(self).flagged@.update(
                        old(self).index_of(*coordinates),
                        true,
                    )
                    &&& final(self).flagged_count == old(self).flagged_count + 1
                },
                FlagToggle::FlagIsUnset(h) => {
                    &&& old(self).covered_at(*coordinates)
                    &&& old(self).flagged_at(*coordinates)
                    &&& h == old(self).handle_at(*coordinates)
                    &&& final(self).flagged@ == old(self).flagged@.update(
                        old(self).index_of(*coordinates),
                        false,
                    )
                    &&& final(self).flagged_count == old(self).flagged_count - 1
                },
            },
    {
        if coordinates.x >= self.tile_map.width || coordinates.y >= self.tile_map.height {
            return FlagToggle::Nothing;
        }
        let i = self.flat_index(coordinates);
        match self.covered[i] {
            Some(h) => {
                if self.flagged[i] {
                    proof {
                        lemma_count_matching_pos(self.flagged@, flag_set(), i as int);
                        lemma_count_matching_update(self.flagged@, flag_set(), i as int, false);
                    }
                    self.flagged.set(i, false);
                    self.flagged_count = self.flagged_count - 1;
                    FlagToggle::FlagIsUnset(h)
                } else {
                    proof {
                        lemma_count_matching_update(self.flagged@, flag_set(), i as int, true);
                        crate::counting::lemma_count_matching_bounds(self.flagged@, flag_set());
                        crate::tile_map::lemma_total_bounds(
                            self.tile_map.width as int,
                            self.tile_map.height as int,
                        );
                    }
                    self.flagged.set(i, true);
                    self.flagged_count = self.flagged_count + 1;
                    FlagToggle::FlagIsSet(h)
                }
            },
            None => FlagToggle::Nothing,
        }
    }

    /// The cover handles of all still-covered neighbors of `coordinate`,
    /// each once: what a cascading reveal has to take off next.
    pub fn uncover_tile_neighbour(&self, coordinate: Coordinates) -> (r: Vec<u64>)
        requires
            self.wf(),
        ensures
            forall|k: int|
                #![trigger r@[k]]
                0 <= k < r@.len() ==> {
                    let c = self.tile_map.coord_of(r@[k] as int);
                    is_adjacent(coordinate, c) && self.covered_at(c) && r@[k] == self.handle_at(c)
                },
            forall|c: Coordinates|
                is_adjacent(coordinate, c) && self.covered_at(c) ==> r@.contains(self.handle_at(c)),
            forall|k: int, l: int| 0 <= k < l < r@.len() ==> r@[k] != r@[l],
    {
        let neigh = self.tile_map.safe_square_at(coordinate);
        let mut r: Vec<u64> = Vec::new();
        let ghost mut src: Seq<int> = Seq::empty();
        let mut k: usize = 0;
        while k < neigh.len()
            invariant
                self.wf(),
                k <= neigh@.len(),
                forall|j: int|
                    0 <= j < neigh@.len() ==> is_adjacent(coordinate, #[trigger] neigh@[j]),
                forall|j: int, l: int| 0 <= j < l < neigh@.len() ==> neigh@[j] != neigh@[l],
                src.len() == r@.len(),
                forall|m: int| 0 <= m < src.len() ==> 0 <= #[trigger] src[m] < k,
                forall|m: int, l: int| 0 <= m < l < src.len() ==> src[m] < src[l],
                forall|m: int|
                    0 <= m < src.len() ==> self.covered_at(#[trigger] neigh@[src[m]]) && r@[m]
                        == self.handle_at(neigh@[src[m]]),
                forall|j: int|
                    0 <= j < k && self.covered_at(#[trigger] neigh@[j]) ==> r@.contains(
                        self.handle_at(neigh@[j]),
                    ),
            decreases neigh@.len() - k,
        {
            proof {
                broadcast use vstd::seq_lib::lemma_seq_contains_after_push;

            }
            let c = neigh[k];
            match self.tile_selected(&c) {
                Some(h) => {
                    r.push(h);
                    proof {
                        src = src.push(k as int);
                    }
                },
                None => {},
            }
            k = k + 1;
        }
        proof {
            let w = self.tile_map.width as int;
            let h = self.tile_map.height as int;
            assert forall|m: int|
                #![trigger r@[m]]
                0 <= m < r@.len() implies {
                let c = self.tile_map.coord_of(r@[m] as int);
                is_adjacent(coordinate, c) && self.covered_at(c) && r@[m] == self.handle_at(c)
            } by {
                let c = neigh@[src[m]];
                assert(self.covered_at(c) && r@[m] == self.handle_at(c));
                crate::tile_map::lemma_total_bounds(
                    self.tile_map.width as int,
                    self.tile_map.height as int,
                );
                crate::tile_map::lemma_coord_roundtrip(self.tile_map, c);
                assert(r@[m] as int == self.index_of(c));
                assert(self.tile_map.coord_of(r@[m] as int) == c);
            }
            assert forall|m: int, l: int| 0 <= m < l < r@.len() implies r@[m] != r@[l] by {
                let cm = neigh@[src[m]];
                let cl = neigh@[src[l]];
                lemma_idx_bounds(w, h, cm.x as int, cm.y as int);
                lemma_idx_bounds(w, h, cl.x as int, cl.y as int);
                if self.index_of(cm) == self.index_of(cl) {
                    crate::tile_map::lemma_idx_injective(
                        w,
                        cm.x as int,
                        cm.y as int,
                        cl.x as int,
                        cl.y as int,
                    );
                }
            }
            assert forall|c: Coordinates|
                is_adjacent(coordinate, c) && self.covered_at(c) implies r@.contains(
                self.handle_at(c),
            ) by {
                assert(neigh@.contains(c));
                let j = choose|j: int| 0 <= j < neigh@.len() && neigh@[j] == c;
                assert(self.covered_at(neigh@[j]));
            }
        }
        r
    }

    /// The cover handles of every still-covered mine cell, each once: what a
    /// loss reveals all at once.
    pub fn uncover_bomb(&self) -> (r: Vec<u64>)
        requires
            self.wf(),
        ensures
            forall|k: int|
                #![trigger r@[k]]
                0 <= k < r@.len() ==> {
                    let c = self.tile_map.coord_of(r@[k] as int);
                    self.tile_map.is_mine(c.x as int, c.y as int) && self.covered_at(c) && r@[k]
                        == self.handle_at(c)
                },
            forall|c: Coordinates|
                self.tile_map.is_mine(c.x as int, c.y as int) && self.covered_at(c)
                    ==> r@.contains(self.handle_at(c)),
            forall|k: int, l: int| 0 <= k < l < r@.len() ==> r@[k] != r@[l],
    {
        let bombs = self.tile_map.get_bomb_tiles();
        let mut r: Vec<u64> = Vec::new();
        let ghost mut src: Seq<int> = Seq::empty();
        let mut k: usize = 0;
        while k < bombs.len()
            invariant
                self.wf(),
                k <= bombs@.len(),
                bombs@ == self.tile_map.bomb_coordinates@,
                src.len() == r@.len(),
                forall|m: int| 0 <= m < src.len() ==> 0 <= #[trigger] src[m] < k,
                forall|m: int, l: int| 0 <= m < l < src.len() ==> src[m] < src[l],
                forall|m: int|
                    0 <= m < src.len() ==> self.covered_at(#[trigger] bombs@[src[m]]) && r@[m]
                        == self.handle_at(bombs@[src[m]]),
                forall|j: int|
                    0 <= j < k && self.covered_at(#[trigger] bombs@[j]) ==> r@.contains(
                        self.handle_at(bombs@[j]),
                    ),
            decreases bombs@.len() - k,
        {
            proof {
                broadcast use vstd::seq_lib::lemma_seq_contains_after_push;

            }
            let c = bombs[k];
            match self.tile_selected(&c) {
                Some(h) => {
                    r.push(h);
                    proof {
                        src = src.push(k as int);
                    }
                },
                None => {},
            }
            k = k + 1;
        }
        proof {
            let w = self.tile_map.width as int;
            let h = self.tile_map.height as int;
            assert forall|m: int|
                #![trigger r@[m]]
                0 <= m < r@.len() implies {
                let c = self.tile_map.coord_of(r@[m] as int);
                self.tile_map.is_mine(c.x as int, c.y as int) && self.covered_at(c) && r@[m]
                    == self.handle_at(c)
            } by {
                let c = bombs@[src[m]];
                assert(self.tile_map.bomb_coordinates@.contains(c));
                assert(self.tile_map.is_mine(c.x as int, c.y as int) && self.covered_at(c) && r@[m]
                    == self.handle_at(c));
                crate::tile_map::lemma_total_bounds(
                    self.tile_map.width as int,
                    self.tile_map.height as int,
                );
                crate::tile_map::lemma_coord_roundtrip(self.tile_map, c);
                assert(r@[m] as int == self.index_of(c));
                assert(self.tile_map.coord_of(r@[m] as int) == c);
            }
            assert forall|m: int, l: int| 0 <= m < l < r@.len() implies r@[m] != r@[l] by {
                let cm = bombs@[src[m]];
                let cl = bombs@[src[l]];
                assert(self.covered_at(cm) && self.covered_at(cl));
                lemma_idx_bounds(w, h, cm.x as int, cm.y as int);
                lemma_idx_bounds(w, h, cl.x as int, cl.y as int);
                if self.index_of(cm) == self.index_of(cl) {
                    crate::tile_map::lemma_idx_injective(
                        w,
                        cm.x as int,
                        cm.y as int,
                        cl.x as int,
                        cl.y as int,
                    );
                }
            }
            assert forall|c: Coordinates|
                self.tile_map.is_mine(c.x as int, c.y as int) && self.covered_at(c)
                    implies r@.contains(self.handle_at(c)) by {
                assert(self.tile_map.bomb_coordinates@.contains(c));
                let j = choose|j: int| 0 <= j < bombs@.len() && bombs@[j] == c;
                assert(self.covered_at(bombs@[j]));
            }
        }
        r
    }

    /// Reveal the tile at a coordinate, running any cascade to completion.
    ///
    /// A flagged, already-revealed, or out-of-range coordinate is a no-op.
    /// Striking a covered, unflagged mine loses the game: the board is left
    /// as it is, and the handles of every covered mine come back, to be
    /// shown all at once. Revealing a covered, unflagged safe cell takes its
    /// cover off; when the cell borders no mine, the reveal flows outward
    /// through the connected region of zero-count cells and the one layer of
    /// numbered cells bordering it, skips flagged cells, and touches each
    /// cell at most once.
    #[verifier::rlimit(100)]
    pub fn uncover_tiles(&mut self, coordinates: Coordinates) -> (r: RevealOutcome)
        requires
            old(self).wf(),
        ensures
            final(self).wf(),
            final(self).tile_map == old(self).tile_map,
            final(self).flagged@ == old(self).flagged@,
            final(self).flagged_count == old(self).flagged_count,
            match r {
                RevealOutcome::Nothing => {
                    &&& !old(self).eligible(coordinates)
                    &&& *final(self) == *old(self)
                },
                RevealOutcome::Exploded(hs) => {
                    &&& old(self).eligible(coordinates)
                    &&& old(self).tile_map.is_mine(coordinates.x as int, coordinates.y as int)
                    &&& *final(self) == *old(self)
                    &&& forall|k: int|
                        #![trigger hs@[k]]
                        0 <= k < hs@.len() ==> {
                            let c = old(self).tile_map.coord_of(hs@[k] as int);
                            old(self).tile_map.is_mine(c.x as int, c.y as int) && old(
                                self,
                            ).covered_at(c) && hs@[k] == old(self).handle_at(c)
                        }
                    &&& forall|c: Coordinates|
                        old(self).tile_map.is_mine(c.x as int, c.y as int) && old(self).covered_at(
                            c,
                        ) ==> hs@.contains(old(self).handle_at(c))
                    &&& forall|k: int, l: int| 0 <= k < l < hs@.len() ==> hs@[k] != hs@[l]
                },
                RevealOutcome::Revealed(hs) => {
                    &&& old(self).eligible(coordinates)
                    &&& !old(self).tile_map.is_mine(coordinates.x as int, coordinates.y as int)
                    &&& forall|c: Coordinates|
                        #[trigger] final(self).covered_at(c) <==> (old(self).covered_at(c) && !old(
                            self,
                        ).revealed_from(coordinates, c))
                    &&& forall|k: int|
                        #![trigger hs@[k]]
                        0 <= k < hs@.len() ==> {
                            let c = old(self).tile_map.coord_of(hs@[k] as int);
                            old(self).revealed_from(coordinates, c) && hs@[k] == old(
                                self,
                            ).handle_at(c)
                        }
                    &&& forall|c: Coordinates|
                        old(self).revealed_from(coordinates, c) ==> hs@.contains(
                            old(self).handle_at(c),
                        )
                    &&& forall|k: int, l: int| 0 <= k < l < hs@.len() ==> hs@[k] != hs@[l]
                    &&& final(self).covered_count == old(self).covered_count - hs@.len()
                },
            },
    {
        if coordinates.x >= self.tile_map.width || coordinates.y >= self.tile_map.height {
            return RevealOutcome::Nothing;
        }
        let start = self.flat_index(&coordinates);
        if self.flagged[start] {
            return RevealOutcome::Nothing;
        }
        if self.covered[start].is_none() {
            return RevealOutcome::Nothing;
        }
        if self.tile_map.map[start].is_bomb() {
            return RevealOutcome::Exploded(self.uncover_bomb());
        }
        let ghost b0 = *self;
        let ghost s = coordinates;
        proof {
            lemma_total_bounds(self.tile_map.width as int, self.tile_map.height as int);
        }
        let width = self.tile_map.width;
        let height = self.tile_map.height;
        let total: usize = (width as usize) * (height as usize);
        let mut queued: Vec<bool> = Vec::new();
        let mut i: usize = 0;
        while i < total
            invariant
                i <= total,
                queued@.len() == i,
                forall|j: int| 0 <= j < i ==> !(#[trigger] queued@[j]),
            decreases total - i,
        {
            queued.push(false);
            i = i + 1;
        }
        let mut work: Vec<usize> = Vec::new();
        queued.set(start, true);
        work.push(start);
        let mut out: Vec<u64> = Vec::new();
        let ghost mut processed: Set<int> = Set::empty();
        proof {
            lemma_coord_roundtrip(b0.tile_map, s);
            assert(work@[0] == start);
            assert(work@.contains(start));
            assert forall|i2: int|
                0 <= i2 < total && #[trigger] queued@[i2] implies (processed.contains(i2)
                    || work@.contains(i2 as usize)) by {
                assert(i2 == start as int);
                assert(i2 as usize == start);
            }
            assert forall|i2: int|
                0 <= i2 < total && #[trigger] queued@[i2] implies b0.cascade_edge(
                s,
                b0.tile_map.coord_of(i2),
            ) by {
                assert(i2 == start as int);
                assert(b0.tile_map.coord_of(i2) == s);
            }
        }
        while work.len() > 0
            invariant
                self.wf(),
                b0.wf(),
                self.tile_map == b0.tile_map,
                self.flagged@ == b0.flagged@,
                self.flagged_count == b0.flagged_count,
                width == b0.tile_map.width,
                height == b0.tile_map.height,
                total == b0.total(),
                b0.coord_in_bounds(s),
                start == b0.index_of(s),
                start < total,
                b0.eligible(s),
                queued@.len() == total,
                queued@[start as int],
                forall|k: int| 0 <= k < work@.len() ==> (#[trigger] work@[k]) < total,
                forall|k: int| 0 <= k < work@.len() ==> queued@[#[trigger] work@[k] as int],
                forall|k: int, l: int| 0 <= k < l < work@.len() ==> work@[k] != work@[l],
                forall|k: int|
                    0 <= k < work@.len() ==> !processed.contains(#[trigger] work@[k] as int),
                forall|i2: int|
                    0 <= i2 < total && #[trigger] queued@[i2] ==> (processed.contains(i2)
                        || work@.contains(i2 as usize)),
                forall|i2: int| #[trigger] processed.contains(i2) ==> 0 <= i2 < total && queued@[i2],
                processed.finite(),
                processed.len() <= total,
                forall|i2: int|
                    0 <= i2 < total && #[trigger] queued@[i2] ==> b0.cascade_edge(
                        s,
                        b0.tile_map.coord_of(i2),
                    ),
                forall|i2: int|
                    0 <= i2 < total ==> #[trigger] self.covered@[i2] == (if processed.contains(i2)
                        && b0.eligible_i(i2) {
                        Option::<u64>::None
                    } else {
                        b0.covered@[i2]
                    }),
                forall|m: int|
                    #![trigger out@[m]]
                    0 <= m < out@.len() ==> {
                        &&& 0 <= out@[m] < total
                        &&& processed.contains(out@[m] as int)
                        &&& b0.eligible_i(out@[m] as int)
                    },
                forall|m: int, l: int| 0 <= m < l < out@.len() ==> out@[m] != out@[l],
                forall|i2: int|
                    #[trigger] processed.contains(i2) && 0 <= i2 < total && b0.eligible_i(i2)
                        ==> out@.contains(i2 as u64),
                forall|i2: int, c2: Coordinates|
                    processed.contains(i2) && b0.cascades(#[trigger] b0.tile_map.coord_of(i2))
                        && is_adjacent(b0.tile_map.coord_of(i2), c2) && b0.coord_in_bounds(c2)
                        ==> queued@[#[trigger] b0.index_of(c2)],
                self.covered_count == b0.covered_count - out@.len(),
            decreases total - processed.len(),
        {
            proof {
                broadcast use vstd::seq_lib::lemma_seq_contains_after_push;
                broadcast use vstd::set::axiom_set_insert_len;

            }
            let ghost prev_work = work@;
            let ghost prev_queued = queued@;
            let i = work[work.len() - 1];
            let _ = work.pop();
            proof {
                lemma_flat_to_coords(i as int, width as int, height as int);
            }
            let cx: u16 = (i % (width as usize)) as u16;
            let cy: u16 = (i / (width as usize)) as u16;
            let c = Coordinates { x: cx, y: cy };
            proof {
                assert(c == b0.tile_map.coord_of(i as int));
                assert(b0.coord_in_bounds(c));
                assert(b0.index_of(c) == i as int);
            }
            if !self.flagged[i] {
                let cover = self.covered[i];
                match cover {
                    Some(h) => {
                        proof {
                            assert(b0.covered@[i as int] is Some);
                            assert(b0.eligible(c));
                            lemma_count_matching_pos(self.covered@, cover_present(), i as int);
                            lemma_count_matching_update(
                                self.covered@,
                                cover_present(),
                                i as int,
                                None,
                            );
                        }
                        self.covered.set(i, None);
                        self.covered_count = self.covered_count - 1;
                        out.push(h);
                        let t = self.tile_map.map[i];
                        if matches!(t, Tile::Empty) {
                            proof {
                                assert(b0.cascades(c));
                                lemma_edge_and_cascades_propagates(b0, s, c);
                            }
                            enqueue_neighbors(&self.tile_map, &mut queued, &mut work, c);
                            proof {
                                // Every in-bounds neighbor of `c` is seen
                                // now, and earlier marks are kept.
                                assert forall|c2: Coordinates|
                                    is_adjacent(c, c2) && b0.coord_in_bounds(c2)
                                    implies queued@[b0.index_of(c2)] by {
                                    lemma_coord_roundtrip(b0.tile_map, c2);
                                }
                            }
                        }
                    },
                    None => {},
                }
            }
            proof {
                processed = processed.insert(i as int);
                vstd::set_lib::lemma_int_range(0, total as int);
                assert(processed.subset_of(vstd::set_lib::set_int_range(0, total as int)));
                vstd::set_lib::lemma_len_subset(
                    processed,
                    vstd::set_lib::set_int_range(0, total as int),
                );
                let ghost base = prev_work.drop_last();
                // The part of the worklist the pop left is the old list
                // without its last entry; what follows was appended by the
                // enqueues.
                assert(base.len() <= work@.len());
                assert(forall|k: int| 0 <= k < base.len() ==> #[trigger] work@[k] == prev_work[k]);
                // Nothing listed is processed: the popped index left, old
                // entries differ from it, and fresh entries were unseen.
                assert forall|k: int|
                    0 <= k < work@.len() implies !processed.contains(
                    #[trigger] work@[k] as int,
                ) by {
                    if k < base.len() {
                        assert(work@[k] == prev_work[k]);
                        assert(prev_work[k] != prev_work[prev_work.len() - 1]);
                    } else {
                        assert(!prev_queued[work@[k] as int]);
                    }
                }
                // Processed cascading cells keep all neighbors seen: old
                // marks are kept, and the fresh cell's neighbors were just
                // marked.
                assert forall|i2: int, c2: Coordinates|
                    processed.contains(i2) && b0.cascades(#[trigger] b0.tile_map.coord_of(i2))
                        && is_adjacent(b0.tile_map.coord_of(i2), c2) && b0.coord_in_bounds(c2)
                        implies queued@[#[trigger] b0.index_of(c2)] by {
                    lemma_idx_bounds(width as int, height as int, c2.x as int, c2.y as int);
                    if i2 != i as int {
                        assert(prev_queued[b0.index_of(c2)]);
                    }
                }
                // Marked cells are still processed or listed.
                assert forall|i2: int|
                    0 <= i2 < total && #[trigger] queued@[i2] implies (processed.contains(i2)
                        || work@.contains(i2 as usize)) by {
                    if i2 == i as int {
                    } else if !processed.contains(i2) {
                        if prev_queued[i2] {
                            assert(prev_work.contains(i2 as usize));
                            let k = choose|k: int|
                                0 <= k < prev_work.len() && prev_work[k] == i2 as usize;
                            assert(k < prev_work.len() - 1);
                            assert(work@[k] == i2 as usize);
                            assert(work@.contains(i2 as usize));
                        } else {
                            let k = choose|k: int|
                                base.len() <= k < work@.len() && work@[k] == i2 as usize;
                            assert(work@.contains(i2 as usize));
                        }
                    }
                }
            }
        }
        proof {
            lemma_reveal_summary(b0, *self, s, queued@, processed, out@, total as int);
        }
        RevealOutcome::Revealed(out)
    }

    /// The cover handles of every flagged cell that holds no mine, each
    /// once: the flags a loss exposes as wrong.
    pub fn uncover_wrong_flags(&self) -> (r: Vec<u64>)
        requires
            self.wf(),
        ensures
            forall|k: int|
                #![trigger r@[k]]
                0 <= k < r@.len() ==> {
                    let c = self.tile_map.coord_of(r@[k] as int);
                    self.flagged_at(c) && !self.tile_map.is_mine(c.x as int, c.y as int) && r@[k]
                        == self.handle_at(c)
                },
            forall|c: Coordinates|
                self.flagged_at(c) && !self.tile_map.is_mine(c.x as int, c.y as int)
                    ==> r@.contains(self.handle_at(c)),
            forall|k: int, l: int| 0 <= k < l < r@.len() ==> r@[k] != r@[l],
    {
        proof {
            lemma_total_bounds(self.tile_map.width as int, self.tile_map.height as int);
        }
        let total: usize = (self.tile_map.width as usize) * (self.tile_map.height as usize);
        let mut r: Vec<u64> = Vec::new();
        let mut i: usize = 0;
        while i < total
            invariant
                self.wf(),
                i <= total,
                total == self.total(),
                forall|m: int|
                    #![trigger r@[m]]
                    0 <= m < r@.len() ==> {
                        &&& r@[m] < i
                        &&& self.flagged@[r@[m] as int]
                        &&& !(self.tile_map.map@[r@[m] as int] is Bomb)
                    },
                forall|j: int|
                    0 <= j < i && #[trigger] self.flagged@[j] && !(self.tile_map.map@[j] is Bomb)
                        ==> r@.contains(j as u64),
                forall|m: int, l: int| 0 <= m < l < r@.len() ==> r@[m] != r@[l],
            decreases total - i,
        {
            proof {
                broadcast use vstd::seq_lib::lemma_seq_contains_after_push;

            }
            if self.flagged[i] && !self.tile_map.map[i].is_bomb() {
                r.push(i as u64);
            }
            i = i + 1;
        }
        proof {
            assert forall|k: int|
                #![trigger r@[k]]
                0 <= k < r@.len() implies {
                let c = self.tile_map.coord_of(r@[k] as int);
                self.flagged_at(c) && !self.tile_map.is_mine(c.x as int, c.y as int) && r@[k]
                    == self.handle_at(c)
            } by {
                let i2 = r@[k] as int;
                lemma_flat_to_coords(i2, self.tile_map.width as int, self.tile_map.height as int);
                let c = self.tile_map.coord_of(i2);
                lemma_coord_roundtrip(self.tile_map, c);
                assert(self.index_of(c) == i2);
            }
            assert forall|c: Coordinates|
                self.flagged_at(c) && !self.tile_map.is_mine(c.x as int, c.y as int)
                    implies r@.contains(self.handle_at(c)) by {
                lemma_coord_roundtrip(self.tile_map, c);
                let i2 = self.index_of(c);
                assert(self.flagged@[i2] && !(self.tile_map.map@[i2] is Bomb));
                assert(r@.contains(i2 as u64));
            }
        }
        r
    }

    /// Whether the session is won. With `flag_mode` on, win means the number
    /// of flags and the number of covered cells both equal the mine count;
    /// with it off, only the covered count matters.
    pub fn is_win(&self, flag_mode: bool) -> (r: bool)
        requires
            self.wf(),
        ensures
            r == self.win_spec(flag_mode),
    {
        let mines = self.tile_map.bomb_count as usize;
        if flag_mode {
            mines == self.flagged_count && mines == self.covered_count
        } else {
            mines == self.covered_count
        }
    }
}

/// Uncovering is idempotent. A first reveal of a covered, unflagged
/// coordinate hands its cover out and leaves a board with no cover entry
/// there, so by the contract of `try_uncover_tile` an immediate second call
/// on the same coordinate returns `None` and leaves the board untouched.
pub proof fn lemma_uncover_idempotent(b: Board, b2: Board, c: Coordinates)
    requires
        b.wf(),
        b.covered_at(c),
        !b.flagged_at(c),
        b2.tile_map == b.tile_map,
        b2.covered@ == b.covered@.update(b.index_of(c), None::<u64>),
    ensures
        !b2.covered_at(c),
{
    lemma_idx_bounds(
        b.tile_map.width as int,
        b.tile_map.height as int,
        c.x as int,
        c.y as int,
    );
}

/// Toggling a flag twice is a true no-op. Placing the flag on a covered,
/// unflagged coordinate and lifting it again — the two states that the
/// contract of `try_toggle_flag` describes — returns the board to exactly
/// its original state, so nothing about it changes, the win condition
/// included.
pub proof fn lemma_flag_toggle_roundtrip(b: Board, b2: Board, b3: Board, c: Coordinates)
    requires
        b.wf(),
        b.covered_at(c),
        !b.flagged_at(c),
        b2.tile_map == b.tile_map,
        b2.covered@ == b.covered@,
        b2.covered_count == b.covered_count,
        b2.flagged@ == b.flagged@.update(b.index_of(c), true),
        b2.flagged_count == b.flagged_count + 1,
        b3.tile_map == b2.tile_map,
        b3.covered@ == b2.covered@,
        b3.covered_count == b2.covered_count,
        b3.flagged@ == b2.flagged@.update(b2.index_of(c), false),
        b3.flagged_count == b2.flagged_count - 1,
    ensures
        b3.tile_map == b.tile_map,
        b3.covered@ == b.covered@,
        b3.flagged@ == b.flagged@,
        b3.covered_count == b.covered_count,
        b3.flagged_count == b.flagged_count,
        forall|flag_mode: bool| b3.win_spec(flag_mode) == b.win_spec(flag_mode),
{
    lemma_idx_bounds(
        b.tile_map.width as int,
        b.tile_map.height as int,
        c.x as int,
        c.y as int,
    );
    assert(b3.flagged@ =~= b.flagged@);
}

/// Build one game session from its configuration: a tile map with
/// `bomb_count` randomly placed mines wrapped in a fully covered, unflagged
/// board. The configuration is rejected unless both dimensions are at least
/// 1 and at least one cell is free of a mine. With `easy_mode` on, the
/// result carries a designated first-reveal coordinate, which is never a
/// mine.
pub fn create_board(width: u16, height: u16, bomb_count: u16, easy_mode: bool) -> (r: Option<
    (Board, Option<Coordinates>),
>)
    ensures
        r is Some <==> (width >= 1 && height >= 1 && (bomb_count as int) < (width as int) * (
        height as int)),
        r matches Some((b, sc)) ==> {
            &&& b.wf()
            &&& b.tile_map.counts_consistent()
            &&& b.tile_map.width == width
            &&& b.tile_map.height == height
            &&& b.tile_map.bomb_count == bomb_count
            &&& b.tile_map.num_mines() == bomb_count
            &&& b.covered_count == b.total()
            &&& b.flagged_count == 0
            &&& (forall|c: Coordinates| b.coord_in_bounds(c) ==> b.covered_at(c))
            &&& (forall|c: Coordinates| !b.flagged_at(c))
            &&& (easy_mode ==> (sc matches Some(c) && b.coord_in_bounds(c) && !b.tile_map.is_mine(
                c.x as int,
                c.y as int,
            )))
            &&& (!easy_mode ==> sc is None)
        },
{
    if width < 1 || height < 1 {
        return None;
    }
    proof {
        lemma_total_bounds(width as int, height as int);
    }
    if !((bomb_count as u32) < (width as u32) * (height as u32)) {
        return None;
    }
    let mut tile_map = TileMap::new(width, height);
    tile_map.set_bombs(bomb_count);
    let safe_start: Option<Coordinates> = if easy_mode {
        Some(tile_map.safe_start_coordinate())
    } else {
        None
    };
    let board = Board::new(tile_map);
    Some((board, safe_start))
}

/// Mark a cell as seen and append it to the worklist, unless it was already
/// seen.
fn enqueue_candidate(queued: &mut Vec<bool>, work: &mut Vec<usize>, i: usize)
    requires
        i < old(queued)@.len(),
    ensures
        (if old(queued)@[i as int] {
            *final(queued) == *old(queued) && *final(work) == *old(work)
        } else {
            final(queued)@ == old(queued)@.update(i as int, true) && final(work)@ == old(
                work,
            )@.push(i)
        }),
{
    if !queued[i] {
        queued.set(i, true);
        work.push(i);
    }
}

/// The offset the neighbor scan tries at step `d`, in scan order.
pub open spec fn delta_spec(d: int) -> (int, int) {
    if d == 0 {
        (-1, -1)
    } else if d == 1 {
        (0, -1)
    } else if d == 2 {
        (1, -1)
    } else if d == 3 {
        (-1, 0)
    } else if d == 4 {
        (1, 0)
    } else if d == 5 {
        (-1, 1)
    } else if d == 6 {
        (0, 1)
    } else {
        (1, 1)
    }
}

/// Whether the first `d` steps of the neighbor scan try the offset leading
/// from `a` to `b`.
pub open spec fn delta_done(a: Coordinates, b: Coordinates, d: int) -> bool {
    exists|e: int| 0 <= e < d && (#[trigger] delta_spec(e)) == (b.x - a.x, b.y - a.y)
}

/// The offset of step `d` of the neighbor scan.
fn delta_of(d: usize) -> (r: (i8, i8))
    requires
        d < 8,
    ensures
        (r.0 as int, r.1 as int) == delta_spec(d as int),
        -1 <= r.0 <= 1,
        -1 <= r.1 <= 1,
        !(r.0 == 0 && r.1 == 0),
{
    match d {
        0 => (-1, -1),
        1 => (0, -1),
        2 => (1, -1),
        3 => (-1, 0),
        4 => (1, 0),
        5 => (-1, 1),
        6 => (0, 1),
        _ => (1, 1),
    }
}

/// The flat index of the cell one step of `(dx, dy)` away from `c`, or
/// `None` when that step leaves the grid.
fn neighbor_index_of(tm: &TileMap, c: Coordinates, dx: i8, dy: i8) -> (r: Option<usize>)
    requires
        tm.wf(),
        -1 <= dx <= 1,
        -1 <= dy <= 1,
        !(dx == 0 && dy == 0),
    ensures
        match r {
            Some(i) => {
                &&& 0 <= i < tm.total()
                &&& tm.in_bounds(c.x + dx, c.y + dy)
                &&& i == tm.idx(c.x + dx, c.y + dy)
                &&& tm.coord_of(i as int) == (Coordinates {
                    x: (c.x + dx) as u16,
                    y: (c.y + dy) as u16,
                })
                &&& is_adjacent(c, tm.coord_of(i as int))
            },
            None => !tm.in_bounds(c.x + dx, c.y + dy),
        },
{
    if (dx < 0 && c.x == 0) || (dy < 0 && c.y == 0) || (dx > 0 && c.x == u16::MAX) || (dy > 0 && c.y
        == u16::MAX) {
        return None;
    }
    let x: u16 = (c.x as i32 + dx as i32) as u16;
    let y: u16 = (c.y as i32 + dy as i32) as u16;
    if x >= tm.width || y >= tm.height {
        return None;
    }
    proof {
        lemma_idx_bounds(tm.width as int, tm.height as int, x as int, y as int);
        lemma_coord_roundtrip(*tm, Coordinates { x, y });
    }
    Some((y as usize) * (tm.width as usize) + (x as usize))
}

/// Mark every in-bounds neighbor of `c` as seen, appending each index that
/// was not seen before to the worklist, each exactly once.
#[verifier::rlimit(60)]
fn enqueue_neighbors(tm: &TileMap, queued: &mut Vec<bool>, work: &mut Vec<usize>, c: Coordinates)
    requires
        tm.wf(),
        old(queued)@.len() == tm.total(),
        tm.in_bounds(c.x as int, c.y as int),
    ensures
        final(queued)@.len() == old(queued)@.len(),
        forall|i2: int|
            0 <= i2 < tm.total() ==> ((#[trigger] final(queued)@[i2]) <==> (old(queued)@[i2]
                || is_adjacent(c, tm.coord_of(i2)))),
        final(work)@.len() >= old(work)@.len(),
        forall|k: int| 0 <= k < old(work)@.len() ==> #[trigger] final(work)@[k] == old(work)@[k],
        forall|k: int|
            old(work)@.len() <= k < final(work)@.len() ==> {
                let j = #[trigger] final(work)@[k];
                &&& j < tm.total()
                &&& !old(queued)@[j as int]
                &&& is_adjacent(c, tm.coord_of(j as int))
            },
        forall|k: int, l: int|
            old(work)@.len() <= k < l < final(work)@.len() ==> final(work)@[k] != final(work)@[l],
        forall|i2: int|
            0 <= i2 < tm.total() && !old(queued)@[i2] && is_adjacent(c, tm.coord_of(i2))
                ==> exists|k: int|
                old(work)@.len() <= k < final(work)@.len() && #[trigger] final(work)@[k] == i2 as usize,
{
    proof {
        lemma_total_bounds(tm.width as int, tm.height as int);
    }
    let ghost q0 = queued@;
    let ghost w0 = work@;
    let mut d: usize = 0;
    while d < 8
        invariant
            d <= 8,
            tm.wf(),
            queued@.len() == q0.len() == tm.total(),
            tm.in_bounds(c.x as int, c.y as int),
            work@.len() >= w0.len(),
            forall|k: int| 0 <= k < w0.len() ==> #[trigger] work@[k] == w0[k],
            forall|i2: int|
                0 <= i2 < tm.total() ==> ((#[trigger] queued@[i2]) <==> (q0[i2] || (is_adjacent(
                    c,
                    tm.coord_of(i2),
                ) && delta_done(c, tm.coord_of(i2), d as int)))),
            forall|k: int|
                w0.len() <= k < work@.len() ==> {
                    let j = #[trigger] work@[k];
                    &&& j < tm.total()
                    &&& !q0[j as int]
                    &&& is_adjacent(c, tm.coord_of(j as int))
                    &&& delta_done(c, tm.coord_of(j as int), d as int)
                },
            forall|k: int, l: int| w0.len() <= k < l < work@.len() ==> work@[k] != work@[l],
            forall|i2: int|
                0 <= i2 < tm.total() && !q0[i2] && is_adjacent(c, tm.coord_of(i2)) && delta_done(
                    c,
                    tm.coord_of(i2),
                    d as int,
                ) ==> exists|k: int|
                    w0.len() <= k < work@.len() && #[trigger] work@[k] == i2 as usize,
        decreases 8 - d,
    {
        let (dx, dy): (i8, i8) = delta_of(d);
        let ghost wpre = work@;
        let ghost qpre = queued@;
        let nopt = neighbor_index_of(tm, c, dx, dy);
        if let Some(j) = nopt {
            enqueue_candidate(queued, work, j);
        }
        proof {
            let dd = d as int;
            // The scan step `d` marks exactly the cell one `delta_spec(d)`
            // step away, when that cell lies on the grid.
            assert forall|i2: int|
                0 <= i2 < tm.total() implies ((#[trigger] queued@[i2]) <==> (q0[i2] || (
            is_adjacent(c, tm.coord_of(i2)) && delta_done(c, tm.coord_of(i2), dd + 1)))) by {
                lemma_flat_to_coords(i2, tm.width as int, tm.height as int);
                lemma_coord_roundtrip(*tm, tm.coord_of(i2));
                let b = tm.coord_of(i2);
                if delta_done(c, b, dd + 1) && !delta_done(c, b, dd) && is_adjacent(c, b) {
                    // the offset matched only at step `d`
                    let e = choose|e: int|
                        0 <= e < dd + 1 && (#[trigger] delta_spec(e)) == (b.x - c.x, b.y - c.y);
                    assert(e == dd);
                    assert(tm.in_bounds(c.x + dx, c.y + dy));
                    assert(i2 == tm.idx(c.x + dx, c.y + dy));
                }
                if delta_done(c, b, dd) {
                    let e = choose|e: int|
                        0 <= e < dd && (#[trigger] delta_spec(e)) == (b.x - c.x, b.y - c.y);
                    assert(0 <= e < dd + 1 && delta_spec(e) == (b.x - c.x, b.y - c.y));
                }
            }
            // Entries appended so far keep their step records; a fresh one
            // records step `d`.
            assert forall|k: int|
                w0.len() <= k < work@.len() implies {
                let j = #[trigger] work@[k];
                &&& j < tm.total()
                &&& !q0[j as int]
                &&& is_adjacent(c, tm.coord_of(j as int))
                &&& delta_done(c, tm.coord_of(j as int), dd + 1)
            } by {
                if k < wpre.len() {
                    let j = work@[k];
                    assert(wpre[k] == j);
                    let e = choose|e: int|
                        0 <= e < dd && (#[trigger] delta_spec(e)) == (tm.coord_of(j as int).x - c.x,
                        tm.coord_of(j as int).y - c.y);
                    assert(0 <= e < dd + 1 && delta_spec(e) == (tm.coord_of(j as int).x - c.x,
                    tm.coord_of(j as int).y - c.y));
                } else {
                    let j = work@[k];
                    assert(delta_spec(dd) == (tm.coord_of(j as int).x - c.x, tm.coord_of(
                        j as int,
                    ).y - c.y));
                }
            }
            // A fresh entry was unseen before this step, while every earlier
            // appended entry was already marked.
            assert forall|k: int, l: int|
                w0.len() <= k < l < work@.len() implies work@[k] != work@[l] by {
                if l >= wpre.len() {
                    assert(!qpre[work@[l] as int]);
                    assert(qpre[work@[k] as int]);
                }
            }
            assert forall|i2: int|
                0 <= i2 < tm.total() && !q0[i2] && is_adjacent(c, tm.coord_of(i2)) && delta_done(
                    c,
                    tm.coord_of(i2),
                    dd + 1,
                ) implies exists|k: int|
                w0.len() <= k < work@.len() && #[trigger] work@[k] == i2 as usize by {
                lemma_flat_to_coords(i2, tm.width as int, tm.height as int);
                lemma_coord_roundtrip(*tm, tm.coord_of(i2));
                let b = tm.coord_of(i2);
                if delta_done(c, b, dd) {
                    let k = choose|k: int|
                        w0.len() <= k < wpre.len() && #[trigger] wpre[k] == i2 as usize;
                    assert(work@[k] == i2 as usize);
                } else {
                    // matched at step `d` exactly: the cell was enqueued now
                    let e = choose|e: int|
                        0 <= e < dd + 1 && (#[trigger] delta_spec(e)) == (b.x - c.x, b.y - c.y);
                    assert(e == dd);
                    assert(!qpre[i2]);
                    assert(work@[work@.len() - 1] == i2 as usize);
                }
            }
        }
        d = d + 1;
    }
    proof {
        assert(delta_spec(0) == (-1int, -1int));
        assert(delta_spec(1) == (0int, -1int));
        assert(delta_spec(2) == (1int, -1int));
        assert(delta_spec(3) == (-1int, 0int));
        assert(delta_spec(4) == (1int, 0int));
        assert(delta_spec(5) == (-1int, 1int));
        assert(delta_spec(6) == (0int, 1int));
        assert(delta_spec(7) == (1int, 1int));
        assert forall|b: Coordinates| is_adjacent(c, b) implies delta_done(c, b, 8) by {}
    }
}

/// A cascading cell is reached by its own cascade: the one-cell walk.
proof fn lemma_propagates_base(b: Board, s: Coordinates)
    requires
        b.cascades(s),
    ensures
        b.propagates(s, s),
{
    let p: Seq<Coordinates> = seq![s];
    assert(b.cascade_path(s, p));
    assert(p.last() == s);
}

/// Extending a walk of the cascade by an adjacent cascading cell keeps it a
/// walk.
proof fn lemma_propagates_step(b: Board, s: Coordinates, m: Coordinates, c: Coordinates)
    requires
        b.propagates(s, m),
        is_adjacent(m, c),
        b.cascades(c),
    ensures
        b.propagates(s, c),
{
    let p = choose|p: Seq<Coordinates>| #[trigger] b.cascade_path(s, p) && p.last() == m;
    let p2 = p.push(c);
    assert(b.cascade_path(s, p2)) by {
        assert(forall|i: int| 0 <= i < p.len() ==> p2[i] == p[i]);
        assert(p2[p.len() as int] == c);
        assert(p[p.len() - 1] == m);
    }
    assert(p2.last() == c);
}

/// A cell at the cascade's edge that itself cascades is reached by the
/// cascade.
proof fn lemma_edge_and_cascades_propagates(b: Board, s: Coordinates, c: Coordinates)
    requires
        b.cascade_edge(s, c),
        b.cascades(c),
    ensures
        b.propagates(s, c),
{
    if c == s {
        lemma_propagates_base(b, s);
    } else {
        let m = choose|m: Coordinates| #[trigger] b.propagates(s, m) && is_adjacent(m, c);
        lemma_propagates_step(b, s, m, c);
    }
}

/// Once the worklist is empty, the set of seen cells is closed under
/// cascading, so it holds the end of every walk of the cascade.
proof fn lemma_cascade_closed(b0: Board, s: Coordinates, queued: Seq<bool>, p: Seq<Coordinates>)
    requires
        b0.wf(),
        queued.len() == b0.total(),
        b0.coord_in_bounds(s),
        queued[b0.index_of(s)],
        forall|i: int, c2: Coordinates|
            0 <= i < b0.total() && queued[i] && b0.cascades(#[trigger] b0.tile_map.coord_of(i))
                && is_adjacent(b0.tile_map.coord_of(i), c2) && b0.coord_in_bounds(c2)
                ==> queued[#[trigger] b0.index_of(c2)],
        b0.cascade_path(s, p),
    ensures
        b0.coord_in_bounds(p.last()),
        queued[b0.index_of(p.last())],
    decreases p.len(),
{
    let c = p.last();
    assert(b0.cascades(c));
    if p.len() == 1 {
        assert(c == s);
    } else {
        let q = p.drop_last();
        assert(b0.cascade_path(s, q)) by {
            assert(forall|i: int| 0 <= i < q.len() ==> q[i] == p[i]);
        }
        lemma_cascade_closed(b0, s, queued, q);
        let m = q.last();
        assert(m == p[p.len() - 2]);
        assert(is_adjacent(m, c));
        lemma_coord_roundtrip(b0.tile_map, m);
        assert(b0.tile_map.coord_of(b0.index_of(m)) == m);
        assert(queued[b0.index_of(c)]);
    }
}

/// What the finished worklist run means: the cells that lost their cover
/// are exactly the revealed set of the start coordinate, and the collected
/// handles list exactly those cells.
#[verifier::rlimit(60)]
proof fn lemma_reveal_summary(
    b0: Board,
    bf: Board,
    s: Coordinates,
    queued: Seq<bool>,
    processed: Set<int>,
    out: Seq<u64>,
    total: int,
)
    requires
        b0.wf(),
        total == b0.total(),
        b0.coord_in_bounds(s),
        b0.eligible(s),
        bf.tile_map == b0.tile_map,
        bf.flagged@ == b0.flagged@,
        bf.covered@.len() == total,
        b0.covered@.len() == total,
        queued.len() == total,
        queued[b0.index_of(s)],
        forall|i2: int| 0 <= i2 < total && #[trigger] queued[i2] ==> processed.contains(i2),
        forall|i2: int| #[trigger] processed.contains(i2) ==> 0 <= i2 < total && queued[i2],
        forall|i2: int|
            0 <= i2 < total && #[trigger] queued[i2] ==> b0.cascade_edge(
                s,
                b0.tile_map.coord_of(i2),
            ),
        forall|i2: int|
            0 <= i2 < total ==> #[trigger] bf.covered@[i2] == (if processed.contains(i2)
                && b0.eligible_i(i2) {
                Option::<u64>::None
            } else {
                b0.covered@[i2]
            }),
        forall|m: int|
            #![trigger out[m]]
            0 <= m < out.len() ==> {
                &&& 0 <= out[m] < total
                &&& processed.contains(out[m] as int)
                &&& b0.eligible_i(out[m] as int)
            },
        forall|i2: int|
            #[trigger] processed.contains(i2) && 0 <= i2 < total && b0.eligible_i(i2)
                ==> out.contains(i2 as u64),
        forall|i2: int, c2: Coordinates|
            processed.contains(i2) && b0.cascades(#[trigger] b0.tile_map.coord_of(i2))
                && is_adjacent(b0.tile_map.coord_of(i2), c2) && b0.coord_in_bounds(c2)
                ==> queued[#[trigger] b0.index_of(c2)],
    ensures
        forall|c: Coordinates|
            #[trigger] bf.covered_at(c) <==> (b0.covered_at(c) && !b0.revealed_from(s, c)),
        forall|m: int|
            #![trigger out[m]]
            0 <= m < out.len() ==> {
                let c = b0.tile_map.coord_of(out[m] as int);
                b0.revealed_from(s, c) && out[m] == b0.handle_at(c)
            },
        forall|c: Coordinates| b0.revealed_from(s, c) ==> out.contains(b0.handle_at(c)),
{
    lemma_total_bounds(b0.tile_map.width as int, b0.tile_map.height as int);
    // Every cell of the revealed set was processed.
    assert forall|c2: Coordinates|
        b0.revealed_from(s, c2) implies processed.contains(b0.index_of(c2)) && b0.coord_in_bounds(
        c2,
    ) && b0.eligible_i(b0.index_of(c2)) by {
        assert(b0.covered_at(c2));
        lemma_coord_roundtrip(b0.tile_map, c2);
        if c2 == s {
        } else {
            let m = choose|m: Coordinates| #[trigger] b0.propagates(s, m) && is_adjacent(m, c2);
            let p = choose|p: Seq<Coordinates>| #[trigger] b0.cascade_path(s, p) && p.last() == m;
            lemma_cascade_closed(b0, s, queued, p);
            lemma_coord_roundtrip(b0.tile_map, m);
            assert(queued[b0.index_of(m)]);
            assert(processed.contains(b0.index_of(m)));
            assert(b0.cascades(m));
            assert(queued[b0.index_of(c2)]);
        }
    }
    // Conversely, every processed coverable cell lies in the revealed set.
    assert forall|c2: Coordinates|
        b0.coord_in_bounds(c2) && processed.contains(b0.index_of(c2)) && b0.eligible_i(
        b0.index_of(c2)) implies b0.revealed_from(s, c2) by {
        lemma_coord_roundtrip(b0.tile_map, c2);
        let i2 = b0.index_of(c2);
        assert(queued[i2]);
        assert(b0.tile_map.coord_of(i2) == c2);
        assert(b0.cascade_edge(s, c2));
        assert(b0.eligible(c2));
    }
    assert forall|c: Coordinates|
        #[trigger] bf.covered_at(c) <==> (b0.covered_at(c) && !b0.revealed_from(s, c)) by {
        if b0.coord_in_bounds(c) {
            lemma_coord_roundtrip(b0.tile_map, c);
            let i2 = b0.index_of(c);
            assert(bf.covered@[i2] == (if processed.contains(i2) && b0.eligible_i(i2) {
                Option::<u64>::None
            } else {
                b0.covered@[i2]
            }));
            if b0.revealed_from(s, c) {
                assert(!(bf.covered@[i2] is Some));
            }
        }
    }
    assert forall|c: Coordinates| b0.revealed_from(s, c) implies out.contains(b0.handle_at(c)) by {
        lemma_coord_roundtrip(b0.tile_map, c);
        let i2 = b0.index_of(c);
        assert(out.contains(i2 as u64));
        assert(i2 as u64 == b0.handle_at(c));
    }
    assert forall|m: int|
        #![trigger out[m]]
        0 <= m < out.len() implies {
        let c = b0.tile_map.coord_of(out[m] as int);
        b0.revealed_from(s, c) && out[m] == b0.handle_at(c)
    } by {
        let i2 = out[m] as int;
        let c = b0.tile_map.coord_of(i2);
        lemma_flat_to_coords(i2, b0.tile_map.width as int, b0.tile_map.height as int);
        lemma_coord_roundtrip(b0.tile_map, c);
        assert(b0.coord_in_bounds(c));
        assert(b0.index_of(c) == i2);
        assert(b0.revealed_from(s, c));
    }
}

} // verus!

