use minesweeper_core::{Coordinates, Tile, TileMap};

fn coords(x: u16, y: u16) -> Coordinates {
    Coordinates { x, y }
}

/// The 5x5 layout used across the suite: three mines clustered in the
/// top-left corner.
fn three_mine_map() -> TileMap {
    let mut tm = TileMap::new(5, 5);
    let mines = vec![coords(0, 0), coords(1, 0), coords(0, 1)];
    tm.set_bombs_at(&mines);
    tm
}

#[test]
fn new_map_is_all_empty() {
    let tm = TileMap::new(4, 3);
    assert_eq!(tm.get_width(), 4);
    assert_eq!(tm.get_height(), 3);
    assert_eq!(tm.get_bomb_count(), 0);
    for y in 0..3 {
        for x in 0..4 {
            assert_eq!(tm.tile_at(coords(x, y)), Tile::Empty);
            assert!(!tm.is_bomb_at(coords(x, y)));
        }
    }
}

#[test]
fn deterministic_placement_counts_every_neighbor() {
    let tm = three_mine_map();
    assert_eq!(tm.get_bomb_count(), 3);
    // Mines sit exactly where they were placed.
    assert!(tm.is_bomb_at(coords(0, 0)));
    assert!(tm.is_bomb_at(coords(1, 0)));
    assert!(tm.is_bomb_at(coords(0, 1)));
    // Every numbered cell carries the exact count of adjacent mines.
    assert_eq!(tm.tile_at(coords(2, 0)), Tile::BombNeighbour(1));
    assert_eq!(tm.tile_at(coords(1, 1)), Tile::BombNeighbour(3));
    assert_eq!(tm.tile_at(coords(2, 1)), Tile::BombNeighbour(1));
    assert_eq!(tm.tile_at(coords(0, 2)), Tile::BombNeighbour(1));
    assert_eq!(tm.tile_at(coords(1, 2)), Tile::BombNeighbour(1));
    // Everything else borders no mine and stays empty.
    let numbered = [(2, 0), (1, 1), (2, 1), (0, 2), (1, 2)];
    for y in 0..5u16 {
        for x in 0..5u16 {
            let is_mine = tm.is_bomb_at(coords(x, y));
            let is_numbered = numbered.contains(&(x, y));
            if !is_mine && !is_numbered {
                assert_eq!(tm.tile_at(coords(x, y)), Tile::Empty);
            }
        }
    }
}

#[test]
fn random_placement_places_exactly_the_requested_mines() {
    let mut tm = TileMap::new(9, 9);
    tm.set_bombs(10);
    assert_eq!(tm.get_bomb_count(), 10);
    let mut found = 0;
    for y in 0..9 {
        for x in 0..9 {
            if tm.is_bomb_at(coords(x, y)) {
                found += 1;
            }
        }
    }
    assert_eq!(found, 10);
    assert_eq!(tm.get_bomb_tiles().len(), 10);
}

#[test]
fn random_placement_neighbor_counts_match_true_counts() {
    let mut tm = TileMap::new(8, 8);
    tm.set_bombs(12);
    for y in 0..8i32 {
        for x in 0..8i32 {
            let c = coords(x as u16, y as u16);
            if tm.is_bomb_at(c) {
                assert_eq!(tm.bomb_count_at(c), 0);
                continue;
            }
            let mut expected = 0u8;
            for dy in -1..=1i32 {
                for dx in -1..=1i32 {
                    if dx == 0 && dy == 0 {
                        continue;
                    }
                    let nx = x + dx;
                    let ny = y + dy;
                    if nx >= 0 && ny >= 0 && tm.is_bomb_at(coords(nx as u16, ny as u16)) {
                        expected += 1;
                    }
                }
            }
            assert_eq!(tm.bomb_count_at(c), expected);
            match tm.tile_at(c) {
                Tile::Empty => assert_eq!(expected, 0),
                Tile::BombNeighbour(n) => assert_eq!(n, expected),
                Tile::Bomb => panic!("non-mine cell reported as mine"),
            }
        }
    }
}

#[test]
fn is_bomb_at_is_false_outside_the_grid() {
    let tm = three_mine_map();
    assert!(!tm.is_bomb_at(coords(5, 0)));
    assert!(!tm.is_bomb_at(coords(0, 5)));
    assert!(!tm.is_bomb_at(coords(60000, 60000)));
}

#[test]
fn safe_square_at_lists_each_neighbor_once() {
    let tm = TileMap::new(5, 5);
    let mut corner = tm
        .safe_square_at(coords(0, 0))
        .into_iter()
        .map(|c| (c.x, c.y))
        .collect::<Vec<_>>();
    corner.sort();
    assert_eq!(corner, vec![(0, 1), (1, 0), (1, 1)]);
    let middle = tm.safe_square_at(coords(2, 2));
    assert_eq!(middle.len(), 8);
    let mut seen = middle.iter().map(|c| (c.x, c.y)).collect::<Vec<_>>();
    seen.sort();
    seen.dedup();
    assert_eq!(seen.len(), 8);
    // An edge cell of the grid still has out-of-range neighbors listed;
    // the lookups filter them.
    let edge = tm.safe_square_at(coords(4, 2));
    assert_eq!(edge.len(), 8);
    assert!(edge.iter().any(|c| c.x == 5));
}

#[test]
fn safe_start_prefers_a_zero_count_cell() {
    let tm = three_mine_map();
    let c = tm.safe_start_coordinate();
    assert!(!tm.is_bomb_at(c));
    assert_eq!(tm.tile_at(c), Tile::Empty);
}

#[test]
fn coordinates_offset_saturates_at_the_edges() {
    let c = coords(0, 0).offset(-1, -1);
    assert_eq!((c.x, c.y), (0, 0));
    let c = coords(u16::MAX, u16::MAX).offset(1, 1);
    assert_eq!((c.x, c.y), (u16::MAX, u16::MAX));
    let c = coords(3, 7).offset(-1, 1);
    assert_eq!((c.x, c.y), (2, 8));
}

#[test]
fn tile_is_bomb_only_for_mines() {
    assert!(Tile::Bomb.is_bomb());
    assert!(!Tile::Empty.is_bomb());
    assert!(!Tile::BombNeighbour(3).is_bomb());
}
