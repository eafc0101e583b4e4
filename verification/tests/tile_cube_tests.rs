use minesweeper_core::{
    BombNeighbor, EndgameEvent, FaceIndex, GameLose, GameLoseEvent, GameWin, GameWinEvent,
    TileCube, TileFlaggedEvent, TileTriggerEvent,
};
use minesweeper_core::Coordinates;

#[test]
fn fresh_cube_has_no_mines() {
    let cube = TileCube::new();
    assert_eq!(cube.get_bomb_count(), 0);
    for f in 0..6 {
        assert!(!cube.is_bomb_at(f));
        assert_eq!(cube.bomb_count_at(FaceIndex { i: f }), 0);
    }
}

#[test]
fn cube_adjacency_excludes_the_face_and_its_opposite() {
    let cube = TileCube::new();
    let opposite = [1u16, 0, 3, 2, 5, 4];
    for f in 0..6u16 {
        let mut around = cube.safe_square_at(FaceIndex { i: f });
        assert_eq!(around.len(), 4);
        around.sort();
        around.dedup();
        assert_eq!(around.len(), 4);
        assert!(!around.contains(&f));
        assert!(!around.contains(&opposite[f as usize]));
    }
    assert_eq!(cube.safe_square_at(FaceIndex { i: 0 }), vec![3, 4, 2, 5]);
    assert_eq!(cube.safe_square_at(FaceIndex { i: 9 }), vec![0, 0, 0, 0]);
}

#[test]
fn cube_placement_places_the_requested_mines() {
    let mut cube = TileCube::new();
    cube.set_bombs(2);
    assert_eq!(cube.get_bomb_count(), 2);
    let mut found = 0;
    for f in 0..6 {
        if cube.is_bomb_at(f) {
            found += 1;
        }
    }
    assert_eq!(found, 2);
}

#[test]
fn cube_neighbor_counts_match_true_counts() {
    let mut cube = TileCube::new();
    cube.set_bombs(3);
    for f in 0..6u16 {
        let face = FaceIndex { i: f };
        if cube.is_bomb_at(f) {
            assert_eq!(cube.bomb_count_at(face), 0);
            continue;
        }
        let mut expected = 0u8;
        for g in cube.safe_square_at(face) {
            if cube.is_bomb_at(g) {
                expected += 1;
            }
        }
        assert_eq!(cube.bomb_count_at(face), expected);
    }
}

#[test]
fn cube_full_of_mines_counts_nothing() {
    let mut cube = TileCube::new();
    cube.set_bombs(6);
    for f in 0..6 {
        assert!(cube.is_bomb_at(f));
        assert_eq!(cube.bomb_count_at(FaceIndex { i: f }), 0);
    }
}

#[test]
fn event_payloads_carry_their_coordinate() {
    let trigger = TileTriggerEvent { coordinates: Coordinates { x: 3, y: 4 } };
    assert_eq!((trigger.coordinates.x, trigger.coordinates.y), (3, 4));
    let flagged = TileFlaggedEvent { coordinates: Coordinates { x: 1, y: 2 } };
    assert_eq!((flagged.coordinates.x, flagged.coordinates.y), (1, 2));
    let neighbor = BombNeighbor { count: 5 };
    assert_eq!(neighbor.count, 5);
    let _ = (GameWinEvent, GameLoseEvent, EndgameEvent, GameWin, GameLose);
}
