//! Exercises of the rules engine: coordinates, win detection, move
//! application, routing and the notation codec.

use ut3e::{get_win, Box, Direction, Grid, Player, Turn, UT3Error, Variant};

const ALL_DIRS: [Direction; 9] = [
    Direction::NW,
    Direction::N,
    Direction::NE,
    Direction::W,
    Direction::C,
    Direction::E,
    Direction::SW,
    Direction::S,
    Direction::SE,
];

#[test]
fn direction_index_roundtrip() {
    for (i, d) in ALL_DIRS.iter().enumerate() {
        assert_eq!(d.index(), i);
        assert_eq!(Direction::from_index_unchecked(i), *d);
    }
}

#[test]
fn direction_xy_roundtrip() {
    for d in ALL_DIRS {
        let (x, y) = d.to_xy();
        assert!(x < 3 && y < 3);
        assert_eq!(Direction::from_index_unchecked((3 * y + x) as usize), d);
    }
}

#[test]
fn fallible_constructors_accept_in_range() {
    for (i, d) in ALL_DIRS.iter().enumerate() {
        assert_eq!(Direction::from_index(i as u32).unwrap(), *d);
        let (x, y) = d.to_xy();
        assert_eq!(Direction::from_xy(x, y).unwrap(), *d);
    }
}

#[test]
fn fallible_constructors_reject_out_of_range() {
    match Direction::from_index(9).unwrap_err() {
        UT3Error::InvalidDirection(t) => assert_eq!(t, "9"),
        other => panic!("unexpected error: {other:?}"),
    }
    match Direction::from_xy(3, 0).unwrap_err() {
        UT3Error::InvalidDirection(t) => assert_eq!(t, "3,0"),
        other => panic!("unexpected error: {other:?}"),
    }
    match Direction::from_xy(0, 12).unwrap_err() {
        UT3Error::InvalidDirection(t) => assert_eq!(t, "0,12"),
        other => panic!("unexpected error: {other:?}"),
    }
}

#[test]
fn combine_with_center_is_identity() {
    for d in ALL_DIRS {
        assert_eq!(d.combine(Direction::C), d);
    }
}

#[test]
fn combine_is_bijective_for_fixed_offset() {
    for b in ALL_DIRS {
        let mut seen = [false; 9];
        for a in ALL_DIRS {
            let r = a.combine(b);
            assert!(!seen[r.index()]);
            seen[r.index()] = true;
        }
        assert!(seen.iter().all(|s| *s));
    }
}

#[test]
fn combine_examples() {
    // NW is one step up-left of the center on a torus.
    assert_eq!(Direction::C.combine(Direction::NW), Direction::NW);
    assert_eq!(Direction::NW.combine(Direction::NW), Direction::SE);
    assert_eq!(Direction::NW.combine(Direction::N), Direction::SW);
    assert_eq!(Direction::E.combine(Direction::E), Direction::W);
}

#[test]
fn empty_board_has_no_winner() {
    let board: [Option<Player>; 9] = [None; 9];
    assert_eq!(get_win(&board), None);
}

#[test]
fn row0_wins_for_x() {
    let x = Some(Player::X);
    let board = [x, x, x, None, None, None, None, None, None];
    assert_eq!(get_win(&board), Some(Player::X));
}

#[test]
fn diagonal_wins_for_x() {
    let x = Some(Player::X);
    let board = [x, None, None, None, x, None, None, None, x];
    assert_eq!(get_win(&board), Some(Player::X));
}

#[test]
fn full_board_without_line_has_no_winner() {
    let x = Some(Player::X);
    let o = Some(Player::O);
    // X X O / O O X / X X O: no three-in-a-row anywhere.
    let board = [x, x, o, o, o, x, x, x, o];
    assert_eq!(get_win(&board), None);
    let b = Box { winner: get_win(&board), inner: board };
    assert!(b.is_full());
}

#[test]
fn fresh_box_is_empty() {
    let b = Box::default();
    assert_eq!(b.winner, None);
    assert!(!b.is_full());
    for d in ALL_DIRS {
        assert_eq!(*b.get_tile(d), None);
    }
}

#[test]
fn turn_player_follows_parity() {
    let t1 = Turn::new(1, (Direction::C, Direction::NW));
    let t2 = Turn::new(2, (Direction::NW, Direction::C));
    assert_eq!(t1.player, Player::X);
    assert_eq!(t2.player, Player::O);
    assert_eq!(t1.turn_number, 1);
    assert_eq!(t1.coords, (Direction::C, Direction::NW));
}

#[test]
fn apply_turn_rejects_occupied_cell() {
    let mut g = Grid::default();
    g.apply_turn((Direction::C, Direction::C)).unwrap();
    // The track routes back to C, where the cell C is already taken.
    let e = g.apply_turn((Direction::C, Direction::C)).unwrap_err();
    match e {
        UT3Error::PositionTaken { position, value } => {
            assert_eq!(position, (Direction::C, Direction::C));
            assert_eq!(value, Player::X);
        }
        other => panic!("unexpected error: {other:?}"),
    }
}

#[test]
fn apply_turn_rejects_wrong_track() {
    let mut g = Grid::default();
    g.apply_turn((Direction::C, Direction::NW)).unwrap();
    // The next move must go to NW.
    let e = g.apply_turn((Direction::E, Direction::C)).unwrap_err();
    match e {
        UT3Error::WrongTrack { required, got } => {
            assert_eq!(required, Direction::NW);
            assert_eq!(got, Direction::E);
        }
        other => panic!("unexpected error: {other:?}"),
    }
}

#[test]
fn track_derivation_absolute() {
    let mut g = Grid::default();
    assert_eq!(g.get_track(), None);
    g.apply_turn((Direction::C, Direction::NW)).unwrap();
    assert_eq!(g.get_track(), Some(Direction::NW));
}

#[test]
fn track_derivation_relative() {
    let mut g = Grid::default().with_variant(Variant::Relative);
    g.apply_turn((Direction::C, Direction::NW)).unwrap();
    // C shifted by the NW offset is NW.
    assert_eq!(g.get_track(), Some(Direction::NW));
    g.apply_turn((Direction::NW, Direction::N)).unwrap();
    // NW shifted one row up wraps to SW.
    assert_eq!(g.get_track(), Some(Direction::SW));
}

/// Drives sub-board C to an X win via its top row, in the Absolute variant.
fn grid_with_c_won() -> Grid {
    let mut g = Grid::default();
    g.apply_turn((Direction::C, Direction::NW)).unwrap(); // X
    g.apply_turn((Direction::NW, Direction::C)).unwrap(); // O
    g.apply_turn((Direction::C, Direction::N)).unwrap(); // X
    g.apply_turn((Direction::N, Direction::C)).unwrap(); // O
    g.apply_turn((Direction::C, Direction::NE)).unwrap(); // X
    g
}

#[test]
fn scenario_wins_sub_board_c() {
    let g = grid_with_c_won();
    assert_eq!(g.get_box(Direction::C).winner, Some(Player::X));
    assert_eq!(g.winner, None);
    assert_eq!(*g.get_box(Direction::C).get_tile(Direction::NW), Some(Player::X));
    assert_eq!(*g.get_box(Direction::C).get_tile(Direction::N), Some(Player::X));
    assert_eq!(*g.get_box(Direction::C).get_tile(Direction::NE), Some(Player::X));
}

#[test]
fn track_collapses_on_finished_box() {
    let g = grid_with_c_won();
    // The last move was (C, NE): the track would be NE, which is open.
    assert_eq!(g.get_track(), Some(Direction::NE));
    let mut g = g;
    g.apply_turn((Direction::NE, Direction::C)).unwrap(); // O, routes to C
    // Sub-board C is finished, so the track collapses to a free choice.
    assert_eq!(g.get_track(), None);
}

#[test]
fn apply_turn_rejects_finished_box() {
    let mut g = grid_with_c_won();
    g.apply_turn((Direction::NE, Direction::C)).unwrap(); // O; track collapses
    let e = g.apply_turn((Direction::C, Direction::SE)).unwrap_err();
    match e {
        UT3Error::BoxHasWinner(d) => assert_eq!(d, Direction::C),
        other => panic!("unexpected error: {other:?}"),
    }
}

#[test]
fn valid_boxes_on_fresh_grid() {
    let g = Grid::default();
    let all = g.get_valid_boxes(g.get_track());
    assert_eq!(all.len(), 81);
    assert_eq!(all[0], (Direction::NW, Direction::NW));
    assert_eq!(all[80], (Direction::SE, Direction::SE));
}

#[test]
fn valid_boxes_follow_track() {
    let mut g = Grid::default();
    g.apply_turn((Direction::C, Direction::NW)).unwrap();
    let targets = g.get_valid_boxes(g.get_track());
    assert_eq!(targets.len(), 9);
    assert!(targets.iter().all(|(outer, _)| *outer == Direction::NW));
}

#[test]
fn valid_boxes_skip_finished_boxes() {
    let mut g = grid_with_c_won();
    g.apply_turn((Direction::NE, Direction::C)).unwrap(); // track collapses
    let targets = g.get_valid_boxes(g.get_track());
    assert!(targets.iter().all(|(outer, _)| *outer != Direction::C));
    // 8 open boxes; NW, N and NE each have one cell taken.
    assert_eq!(targets.len(), 8 * 9 - 3);
}

#[test]
fn full_game_to_grid_winner() {
    let mut g = Grid::default();
    g.apply_turn((Direction::E, Direction::NW)).unwrap(); // 1 X
    g.apply_turn((Direction::NW, Direction::E)).unwrap(); // 2 O
    g.apply_turn((Direction::E, Direction::SE)).unwrap(); // 3 X
    g.apply_turn((Direction::SE, Direction::SE)).unwrap(); // 4 O
    g.apply_turn((Direction::SE, Direction::NW)).unwrap(); // 5 X
    g.apply_turn((Direction::NW, Direction::C)).unwrap(); // 6 O
    g.apply_turn((Direction::C, Direction::W)).unwrap(); // 7 X
    g.apply_turn((Direction::W, Direction::NW)).unwrap(); // 8 O
    g.apply_turn((Direction::NW, Direction::NE)).unwrap(); // 9 X
    g.apply_turn((Direction::NE, Direction::C)).unwrap(); // 10 O
    g.apply_turn((Direction::C, Direction::NW)).unwrap(); // 11 X
    g.apply_turn((Direction::NW, Direction::W)).unwrap(); // 12 O
    // O holds the middle row of sub-board NW: its cache flips to O.
    assert_eq!(g.get_box(Direction::NW).winner, Some(Player::O));
    assert_eq!(g.winner, None);
    g.apply_turn((Direction::W, Direction::SW)).unwrap(); // 13 X
    g.apply_turn((Direction::SW, Direction::S)).unwrap(); // 14 O
    g.apply_turn((Direction::S, Direction::NW)).unwrap(); // 15 X
    // Sub-board NW is finished, so move 15 leaves the choice free.
    assert_eq!(g.get_track(), None);
    g.apply_turn((Direction::SW, Direction::E)).unwrap(); // 16 O
    g.apply_turn((Direction::E, Direction::S)).unwrap(); // 17 X
    g.apply_turn((Direction::S, Direction::C)).unwrap(); // 18 O
    g.apply_turn((Direction::C, Direction::E)).unwrap(); // 19 X
    g.apply_turn((Direction::E, Direction::E)).unwrap(); // 20 O
    g.apply_turn((Direction::E, Direction::N)).unwrap(); // 21 X
    g.apply_turn((Direction::N, Direction::S)).unwrap(); // 22 O
    g.apply_turn((Direction::S, Direction::N)).unwrap(); // 23 X
    g.apply_turn((Direction::N, Direction::NW)).unwrap(); // 24 O
    g.apply_turn((Direction::E, Direction::SW)).unwrap(); // 25 X
    // X holds the left column of sub-board E.
    assert_eq!(g.get_box(Direction::E).winner, Some(Player::X));
    g.apply_turn((Direction::SW, Direction::NW)).unwrap(); // 26 O
    g.apply_turn((Direction::SE, Direction::W)).unwrap(); // 27 X
    g.apply_turn((Direction::W, Direction::NE)).unwrap(); // 28 O
    g.apply_turn((Direction::NE, Direction::W)).unwrap(); // 29 X
    g.apply_turn((Direction::W, Direction::N)).unwrap(); // 30 O
    assert_eq!(g.get_box(Direction::W).winner, Some(Player::O));
    g.apply_turn((Direction::N, Direction::SW)).unwrap(); // 31 X
    g.apply_turn((Direction::SW, Direction::NE)).unwrap(); // 32 O
    g.apply_turn((Direction::NE, Direction::SE)).unwrap(); // 33 X
    g.apply_turn((Direction::SE, Direction::SW)).unwrap(); // 34 O
    g.apply_turn((Direction::SW, Direction::SW)).unwrap(); // 35 X
    g.apply_turn((Direction::SW, Direction::N)).unwrap(); // 36 O
    // O now owns sub-boards NW, W and SW: the left column of the grid.
    assert_eq!(g.get_box(Direction::SW).winner, Some(Player::O));
    assert_eq!(g.winner, Some(Player::O));
    assert_eq!(g.turns.len(), 36);
    // The whole game survives a notation round trip.
    let text = g.to_notation();
    let back = Grid::from_notation(&text, Variant::Absolute).unwrap();
    assert_eq!(back.winner, Some(Player::O));
    assert_eq!(back.to_notation(), text);
}

#[test]
fn mutable_handles_reach_cells() {
    let mut b = Box::default();
    *b.get_tile_mut(Direction::E) = Some(Player::O);
    assert_eq!(*b.get_tile(Direction::E), Some(Player::O));
    let mut g = Grid::default();
    *g.get_box_mut(Direction::S).get_tile_mut(Direction::W) = Some(Player::X);
    assert_eq!(*g.get_box(Direction::S).get_tile(Direction::W), Some(Player::X));
}

#[test]
fn turn_number_updates() {
    let mut g = Grid::default();
    assert_eq!(g.current_turn_number, 1);
    g.apply_turn((Direction::C, Direction::C)).unwrap();
    assert_eq!(g.current_turn_number, 2);
    assert_eq!(g.turns.len(), 1);
}
