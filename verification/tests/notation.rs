//! Exercises of the notation codec: tokens, lines, whole games and the
//! replay round trip.

use ut3e::{Direction, Grid, Player, Turn, UT3Error, Variant};

#[test]
fn player_tokens_roundtrip() {
    assert_eq!(Player::X.to_text(), "X");
    assert_eq!(Player::O.to_text(), "O");
    assert_eq!(Player::from_token("X").unwrap(), Player::X);
    assert_eq!(Player::from_token("O").unwrap(), Player::O);
    match Player::from_token("Q").unwrap_err() {
        UT3Error::InvalidPlayer(t) => assert_eq!(t, "Q"),
        other => panic!("unexpected error: {other:?}"),
    }
}

#[test]
fn direction_tokens_roundtrip() {
    let dirs = [
        (Direction::NW, "NW"),
        (Direction::N, "N"),
        (Direction::NE, "NE"),
        (Direction::W, "W"),
        (Direction::C, "C"),
        (Direction::E, "E"),
        (Direction::SW, "SW"),
        (Direction::S, "S"),
        (Direction::SE, "SE"),
    ];
    for (d, label) in dirs {
        assert_eq!(d.to_text(), label);
        assert_eq!(Direction::from_token(label).unwrap(), d);
    }
    match Direction::from_token("Z").unwrap_err() {
        UT3Error::InvalidDirection(t) => assert_eq!(t, "Z"),
        other => panic!("unexpected error: {other:?}"),
    }
}

#[test]
fn turn_line_format() {
    let t = Turn::new(1, (Direction::C, Direction::NW));
    assert_eq!(t.to_line(), "1\tX\tC/NW");
    let t = Turn::new(12, (Direction::SW, Direction::SE));
    assert_eq!(t.to_line(), "12\tO\tSW/SE");
}

#[test]
fn turn_line_parses() {
    let t = Turn::from_line("3\tX\tNE/W").unwrap();
    assert_eq!(t.turn_number, 3);
    assert_eq!(t.player, Player::X);
    assert_eq!(t.coords, (Direction::NE, Direction::W));
    // Any whitespace run separates fields.
    let t = Turn::from_line("  3   X  NE/W ").unwrap();
    assert_eq!(t.coords, (Direction::NE, Direction::W));
}

#[test]
fn turn_line_rejects_bad_number() {
    match Turn::from_line("x\tX\tC/NW").unwrap_err() {
        UT3Error::TurnNumberParse(t) => assert_eq!(t, "x"),
        other => panic!("unexpected error: {other:?}"),
    }
    match Turn::from_line("").unwrap_err() {
        UT3Error::TurnNumberParse(t) => assert_eq!(t, ""),
        other => panic!("unexpected error: {other:?}"),
    }
}

#[test]
fn turn_line_rejects_bad_player() {
    match Turn::from_line("1\tQ\tC/NW").unwrap_err() {
        UT3Error::InvalidPlayer(t) => assert_eq!(t, "Q"),
        other => panic!("unexpected error: {other:?}"),
    }
    // The player token must agree with the turn number's parity.
    match Turn::from_line("2\tX\tC/NW").unwrap_err() {
        UT3Error::InvalidPlayer(t) => assert_eq!(t, "X"),
        other => panic!("unexpected error: {other:?}"),
    }
}

#[test]
fn turn_line_rejects_bad_direction() {
    match Turn::from_line("1\tX\tZ/NW").unwrap_err() {
        UT3Error::InvalidDirection(t) => assert_eq!(t, "Z"),
        other => panic!("unexpected error: {other:?}"),
    }
    match Turn::from_line("1\tX\tC").unwrap_err() {
        UT3Error::InvalidDirection(t) => assert_eq!(t, ""),
        other => panic!("unexpected error: {other:?}"),
    }
}

#[test]
fn decimal_parse_and_print() {
    assert_eq!(ut3e::codec::u32_to_dec(0), "0");
    assert_eq!(ut3e::codec::u32_to_dec(305), "305");
    assert_eq!(ut3e::codec::parse_u32("305"), Some(305));
    assert_eq!(ut3e::codec::parse_u32("007"), Some(7));
    assert_eq!(ut3e::codec::parse_u32(""), None);
    assert_eq!(ut3e::codec::parse_u32("12a"), None);
    assert_eq!(ut3e::codec::parse_u32("-3"), None);
    assert_eq!(ut3e::codec::parse_u32("4294967295"), Some(u32::MAX));
    assert_eq!(ut3e::codec::parse_u32("4294967296"), None);
}

#[test]
fn notation_of_fresh_grid_is_empty() {
    let g = Grid::default();
    assert_eq!(g.to_notation(), "");
    let back = Grid::from_notation("", Variant::Absolute).unwrap();
    assert_eq!(back.turns.len(), 0);
    assert_eq!(back.winner, None);
}

#[test]
fn notation_round_trip_absolute() {
    let mut g = Grid::default();
    g.apply_turn((Direction::C, Direction::NW)).unwrap();
    g.apply_turn((Direction::NW, Direction::C)).unwrap();
    g.apply_turn((Direction::C, Direction::N)).unwrap();
    g.apply_turn((Direction::N, Direction::C)).unwrap();
    g.apply_turn((Direction::C, Direction::NE)).unwrap();
    let text = g.to_notation();
    assert_eq!(text, "1\tX\tC/NW\n2\tO\tNW/C\n3\tX\tC/N\n4\tO\tN/C\n5\tX\tC/NE");
    let back = Grid::from_notation(&text, Variant::Absolute).unwrap();
    assert_eq!(back.turns.len(), g.turns.len());
    assert_eq!(back.winner, g.winner);
    for i in 0..9 {
        let d1 = Direction::from_index_unchecked(i);
        assert_eq!(back.get_box(d1).winner, g.get_box(d1).winner);
        for j in 0..9 {
            let d2 = Direction::from_index_unchecked(j);
            assert_eq!(back.get_box(d1).get_tile(d2), g.get_box(d1).get_tile(d2));
        }
    }
    assert_eq!(back.get_box(Direction::C).winner, Some(Player::X));
}

#[test]
fn notation_round_trip_relative() {
    let mut g = Grid::default().with_variant(Variant::Relative);
    g.apply_turn((Direction::C, Direction::NW)).unwrap();
    g.apply_turn((Direction::NW, Direction::N)).unwrap();
    g.apply_turn((Direction::SW, Direction::E)).unwrap();
    let text = g.to_notation();
    let back = Grid::from_notation(&text, Variant::Relative).unwrap();
    assert_eq!(back.turns.len(), 3);
    assert_eq!(back.get_track(), g.get_track());
    for i in 0..9 {
        let d1 = Direction::from_index_unchecked(i);
        for j in 0..9 {
            let d2 = Direction::from_index_unchecked(j);
            assert_eq!(back.get_box(d1).get_tile(d2), g.get_box(d1).get_tile(d2));
        }
    }
}

#[test]
fn replay_reports_first_illegal_move() {
    // The second line plays outside the required sub-board.
    let text = "1\tX\tC/NW\n2\tO\tE/C";
    match Grid::from_notation(text, Variant::Absolute).unwrap_err() {
        UT3Error::WrongTrack { required, got } => {
            assert_eq!(required, Direction::NW);
            assert_eq!(got, Direction::E);
        }
        other => panic!("unexpected error: {other:?}"),
    }
}

#[test]
fn replay_reports_bad_line() {
    let text = "1\tX\tC/NW\nnope";
    match Grid::from_notation(text, Variant::Absolute).unwrap_err() {
        UT3Error::TurnNumberParse(t) => assert_eq!(t, "nope"),
        other => panic!("unexpected error: {other:?}"),
    }
}

#[test]
fn replay_ignores_line_numbering_for_players() {
    // Players are re-derived from position in history during replay; each
    // line still has to be internally consistent.
    let text = "7\tX\tC/NW";
    let g = Grid::from_notation(text, Variant::Absolute).unwrap();
    assert_eq!(*g.get_box(Direction::C).get_tile(Direction::NW), Some(Player::X));
    assert_eq!(g.turns[0].turn_number, 1);
}

#[test]
fn errors_describe_themselves() {
    let e = Turn::from_line("x\tX\tC/NW").unwrap_err();
    assert_eq!(e.describe(), "turn number must be an integer: `x`");
    let e = Turn::from_line("1\tQ\tC/NW").unwrap_err();
    assert_eq!(e.describe(), "invalid player symbol: `Q`");
    let e = Turn::from_line("1\tX\tZZ/NW").unwrap_err();
    assert_eq!(e.describe(), "invalid direction symbol: `ZZ`");
    let mut g = Grid::default();
    g.apply_turn((Direction::C, Direction::C)).unwrap();
    let e = g.apply_turn((Direction::E, Direction::C)).unwrap_err();
    assert_eq!(e.describe(), "wrong track: should have been `C` but was `E`");
    let e = g.apply_turn((Direction::C, Direction::C)).unwrap_err();
    assert_eq!(
        e.describe(),
        "position taken: attempted to go in position `C/C`, which already contains `X`"
    );
}

#[test]
fn large_turn_numbers_roundtrip() {
    let t = Turn::new(4294967295, (Direction::C, Direction::C));
    let line = t.to_line();
    assert_eq!(line, "4294967295\tX\tC/C");
    let back = Turn::from_line(&line).unwrap();
    assert_eq!(back.turn_number, 4294967295);
    // One past the largest representable number fails to parse.
    match Turn::from_line("4294967296\tX\tC/C").unwrap_err() {
        UT3Error::TurnNumberParse(t) => assert_eq!(t, "4294967296"),
        other => panic!("unexpected error: {other:?}"),
    }
}
