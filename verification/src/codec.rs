//! The notation codec: the line-oriented text form of a turn history, and
//! the textual tokens of marks, positions and turn numbers.
//!
//! A turn serializes to the tab-separated line
//! `{turnNumber}\t{player}\t{outer}/{inner}`; a whole history joins its
//! lines with newlines, in order. Parsing splits a line on whitespace runs
//! and the coordinate field on `/`, re-derives the player from the turn
//! number's parity, and treats the serialized player token as a cross-check.

use vstd::prelude::*;
use vstd::string::StrSliceExecFns;
use vstd::string::StringExecFns;

use crate::error::UT3Error;
use crate::game::apply_move;
use crate::game::apply_step;
use crate::game::coords_of;
use crate::game::dir_from_index;
use crate::game::dir_from_xy;
use crate::game::initial_model;
use crate::game::replay;
use crate::game::spec_turn;
use crate::game::turn_player;
use crate::game::Direction;
use crate::game::Grid;
use crate::game::GridModel;
use crate::game::Player;
use crate::game::Turn;
use crate::game::Variant;

verus! {

/// The single-character token of a mark.
pub open spec fn player_label(p: Player) -> Seq<char> {
    match p {
        Player::X => seq!['X'],
        Player::O => seq!['O'],
    }
}

/// The one- or two-letter compass label of a position.
pub open spec fn dir_label(d: Direction) -> Seq<char> {
    match d {
        Direction::NW => seq!['N', 'W'],
        Direction::N => seq!['N'],
        Direction::NE => seq!['N', 'E'],
        Direction::W => seq!['W'],
        Direction::C => seq!['C'],
        Direction::E => seq!['E'],
        Direction::SW => seq!['S', 'W'],
        Direction::S => seq!['S'],
        Direction::SE => seq!['S', 'E'],
    }
}

/// The position a token names, if any: the inverse of [`dir_label`].
pub open spec fn dir_of_label(s: Seq<char>) -> Option<Direction> {
    if s == dir_label(Direction::NW) {
        Some(Direction::NW)
    } else if s == dir_label(Direction::N) {
        Some(Direction::N)
    } else if s == dir_label(Direction::NE) {
        Some(Direction::NE)
    } else if s == dir_label(Direction::W) {
        Some(Direction::W)
    } else if s == dir_label(Direction::C) {
        Some(Direction::C)
    } else if s == dir_label(Direction::E) {
        Some(Direction::E)
    } else if s == dir_label(Direction::SW) {
        Some(Direction::SW)
    } else if s == dir_label(Direction::S) {
        Some(Direction::S)
    } else if s == dir_label(Direction::SE) {
        Some(Direction::SE)
    } else {
        None
    }
}

/// The length and characters of every label, spelled out so that any two
/// distinct labels are provably distinct.
proof fn lemma_dir_label_chars()
    ensures
        dir_label(Direction::NW).len() == 2 && dir_label(Direction::NW)[0] == 'N' && dir_label(
            Direction::NW,
        )[1] == 'W',
        dir_label(Direction::N).len() == 1 && dir_label(Direction::N)[0] == 'N',
        dir_label(Direction::NE).len() == 2 && dir_label(Direction::NE)[0] == 'N' && dir_label(
            Direction::NE,
        )[1] == 'E',
        dir_label(Direction::W).len() == 1 && dir_label(Direction::W)[0] == 'W',
        dir_label(Direction::C).len() == 1 && dir_label(Direction::C)[0] == 'C',
        dir_label(Direction::E).len() == 1 && dir_label(Direction::E)[0] == 'E',
        dir_label(Direction::SW).len() == 2 && dir_label(Direction::SW)[0] == 'S' && dir_label(
            Direction::SW,
        )[1] == 'W',
        dir_label(Direction::S).len() == 1 && dir_label(Direction::S)[0] == 'S',
        dir_label(Direction::SE).len() == 2 && dir_label(Direction::SE)[0] == 'S' && dir_label(
            Direction::SE,
        )[1] == 'E',
{
}

/// Each label names its own position back.
pub proof fn lemma_dir_label_roundtrip(d: Direction)
    ensures
        dir_of_label(dir_label(d)) == Some(d),
{
    lemma_dir_label_chars();
}

impl Player {
    /// The textual token of this mark: `X` or `O`.
    pub fn to_text(&self) -> (r: String)
        ensures
            r@ == player_label(*self),
    {
        match self {
            Player::X => {
                let s = String::from_str("X");
                proof {
                    reveal_strlit("X");
                    assert(s@ =~= player_label(Player::X));
                }
                s
            },
            Player::O => {
                let s = String::from_str("O");
                proof {
                    reveal_strlit("O");
                    assert(s@ =~= player_label(Player::O));
                }
                s
            },
        }
    }

    /// The mark a token names: exactly `X` or `O` is accepted, and anything
    /// else is reported with the offending token.
    pub fn from_token(s: &str) -> (r: Result<Player, UT3Error>)
        ensures
            s@ == player_label(Player::X) ==> r == Ok::<Player, UT3Error>(Player::X),
            s@ == player_label(Player::O) ==> r == Ok::<Player, UT3Error>(Player::O),
            (s@ != player_label(Player::X) && s@ != player_label(Player::O)) ==> (r matches Err(
                UT3Error::InvalidPlayer(t),
            ) && t@ == s@),
    {
        let n = s.unicode_len();
        if n == 1 {
            let c = s.get_char(0);
            if c == 'X' {
                proof {
                    assert(s@ =~= player_label(Player::X));
                }
                return Ok(Player::X);
            }
            if c == 'O' {
                proof {
                    assert(s@ =~= player_label(Player::O));
                }
                return Ok(Player::O);
            }
        }
        Err(UT3Error::InvalidPlayer(s.to_owned()))
    }
}

impl Direction {
    /// The compass label of this position.
    pub fn to_text(&self) -> (r: String)
        ensures
            r@ == dir_label(*self),
    {
        match self {
            Direction::NW => {
                let s = String::from_str("NW");
                proof {
                    reveal_strlit("NW");
                    assert(s@ =~= dir_label(Direction::NW));
                }
                s
            },
            Direction::N => {
                let s = String::from_str("N");
                proof {
                    reveal_strlit("N");
                    assert(s@ =~= dir_label(Direction::N));
                }
                s
            },
            Direction::NE => {
                let s = String::from_str("NE");
                proof {
                    reveal_strlit("NE");
                    assert(s@ =~= dir_label(Direction::NE));
                }
                s
            },
            Direction::W => {
                let s = String::from_str("W");
                proof {
                    reveal_strlit("W");
                    assert(s@ =~= dir_label(Direction::W));
                }
                s
            },
            Direction::C => {
                let s = String::from_str("C");
                proof {
                    reveal_strlit("C");
                    assert(s@ =~= dir_label(Direction::C));
                }
                s
            },
            Direction::E => {
                let s = String::from_str("E");
                proof {
                    reveal_strlit("E");
                    assert(s@ =~= dir_label(Direction::E));
                }
                s
            },
            Direction::SW => {
                let s = String::from_str("SW");
                proof {
                    reveal_strlit("SW");
                    assert(s@ =~= dir_label(Direction::SW));
                }
                s
            },
            Direction::S => {
                let s = String::from_str("S");
                proof {
                    reveal_strlit("S");
                    assert(s@ =~= dir_label(Direction::S));
                }
                s
            },
            Direction::SE => {
                let s = String::from_str("SE");
                proof {
                    reveal_strlit("SE");
                    assert(s@ =~= dir_label(Direction::SE));
                }
                s
            },
        }
    }

    /// The position a token names, as [`dir_of_label`] reads it; anything
    /// else is reported with the offending token.
    pub fn from_token(s: &str) -> (r: Result<Direction, UT3Error>)
        ensures
            dir_of_label(s@) matches Some(d) ==> r == Ok::<Direction, UT3Error>(d),
            dir_of_label(s@) is None ==> (r matches Err(UT3Error::InvalidDirection(t)) && t@
                == s@),
    {
        let n = s.unicode_len();
        if n == 1 {
            let c = s.get_char(0);
            if c == 'N' {
                proof {
                    assert(s@ =~= dir_label(Direction::N));
                }
                return Ok(Direction::N);
            }
            if c == 'W' {
                proof {
                    assert(s@ =~= dir_label(Direction::W));
                }
                return Ok(Direction::W);
            }
            if c == 'C' {
                proof {
                    assert(s@ =~= dir_label(Direction::C));
                }
                return Ok(Direction::C);
            }
            if c == 'E' {
                proof {
                    assert(s@ =~= dir_label(Direction::E));
                }
                return Ok(Direction::E);
            }
            if c == 'S' {
                proof {
                    assert(s@ =~= dir_label(Direction::S));
                }
                return Ok(Direction::S);
            }
        } else if n == 2 {
            let c0 = s.get_char(0);
            let c1 = s.get_char(1);
            if c0 == 'N' && c1 == 'W' {
                proof {
                    assert(s@ =~= dir_label(Direction::NW));
                }
                return Ok(Direction::NW);
            }
            if c0 == 'N' && c1 == 'E' {
                proof {
                    assert(s@ =~= dir_label(Direction::NE));
                }
                return Ok(Direction::NE);
            }
            if c0 == 'S' && c1 == 'W' {
                proof {
                    assert(s@ =~= dir_label(Direction::SW));
                }
                return Ok(Direction::SW);
            }
            if c0 == 'S' && c1 == 'E' {
                proof {
                    assert(s@ =~= dir_label(Direction::SE));
                }
                return Ok(Direction::SE);
            }
        }
        Err(UT3Error::InvalidDirection(s.to_owned()))
    }
}

/// The digit character of a value 0 through 9.
pub open spec fn dec_digit(d: int) -> char {
    if d == 0 {
        '0'
    } else if d == 1 {
        '1'
    } else if d == 2 {
        '2'
    } else if d == 3 {
        '3'
    } else if d == 4 {
        '4'
    } else if d == 5 {
        '5'
    } else if d == 6 {
        '6'
    } else if d == 7 {
        '7'
    } else if d == 8 {
        '8'
    } else {
        '9'
    }
}

/// The decimal text of a number: most significant digit first, no sign, and
/// no leading zero except for zero itself.
pub open spec fn dec_of(n: nat) -> Seq<char>
    decreases n,
{
    if n < 10 {
        seq![dec_digit(n as int)]
    } else {
        dec_of(n / 10).push(dec_digit((n % 10) as int))
    }
}

/// The digit character of a value below ten.
fn dec_digit_str(d: u32) -> (r: &'static str)
    requires
        d < 10,
    ensures
        r@ == seq![dec_digit(d as int)],
{
    if d == 0 {
        proof {
            reveal_strlit("0");
            assert(("0")@ =~= seq![dec_digit(0)]);
        }
        "0"
    } else if d == 1 {
        proof {
            reveal_strlit("1");
            assert(("1")@ =~= seq![dec_digit(1)]);
        }
        "1"
    } else if d == 2 {
        proof {
            reveal_strlit("2");
            assert(("2")@ =~= seq![dec_digit(2)]);
        }
        "2"
    } else if d == 3 {
        proof {
            reveal_strlit("3");
            assert(("3")@ =~= seq![dec_digit(3)]);
        }
        "3"
    } else if d == 4 {
        proof {
            reveal_strlit("4");
            assert(("4")@ =~= seq![dec_digit(4)]);
        }
        "4"
    } else if d == 5 {
        proof {
            reveal_strlit("5");
            assert(("5")@ =~= seq![dec_digit(5)]);
        }
        "5"
    } else if d == 6 {
        proof {
            reveal_strlit("6");
            assert(("6")@ =~= seq![dec_digit(6)]);
        }
        "6"
    } else if d == 7 {
        proof {
            reveal_strlit("7");
            assert(("7")@ =~= seq![dec_digit(7)]);
        }
        "7"
    } else if d == 8 {
        proof {
            reveal_strlit("8");
            assert(("8")@ =~= seq![dec_digit(8)]);
        }
        "8"
    } else {
        proof {
            reveal_strlit("9");
            assert(("9")@ =~= seq![dec_digit(9)]);
        }
        "9"
    }
}

/// The decimal text of a number, as [`dec_of`] spells it.
pub fn u32_to_dec(n: u32) -> (r: String)
    ensures
        r@ == dec_of(n as nat),
    decreases n,
{
    if n < 10 {
        String::from_str(dec_digit_str(n))
    } else {
        let mut s = u32_to_dec(n / 10);
        s.append(dec_digit_str(n % 10));
        proof {
            assert(s@ =~= dec_of(n as nat));
        }
        s
    }
}

/// Whether a character is a decimal digit.
pub open spec fn is_dec_digit(c: char) -> bool {
    '0' as int <= c as int && c as int <= '9' as int
}

/// The numeric value of a digit character.
pub open spec fn dec_val(c: char) -> int {
    c as int - '0' as int
}

/// The text is nonempty and all digits.
pub open spec fn is_dec_string(s: Seq<char>) -> bool {
    s.len() > 0 && forall|i: int| 0 <= i < s.len() ==> is_dec_digit(#[trigger] s[i])
}

/// The number a digit string denotes, most significant digit first.
pub open spec fn digits_val(s: Seq<char>) -> int
    decreases s.len(),
{
    if s.len() == 0 {
        0
    } else {
        digits_val(s.drop_last()) * 10 + dec_val(s.last())
    }
}

/// Once a prefix of an all-digit string is too large, the whole string is:
/// appending digits never shrinks the value.
proof fn lemma_digits_val_grows(s: Seq<char>, k: int)
    requires
        0 <= k <= s.len(),
        digits_val(s.take(k)) >= 0,
        forall|i: int| k <= i < s.len() ==> is_dec_digit(#[trigger] s[i]),
    ensures
        digits_val(s) >= digits_val(s.take(k)),
    decreases s.len() - k,
{
    if k == s.len() {
        assert(s.take(k) =~= s);
    } else {
        assert(s.take(k + 1).drop_last() =~= s.take(k));
        assert(s.take(k + 1).last() == s[k]);
        lemma_digits_val_grows(s, k + 1);
    }
}

/// Parses an unsigned decimal number. The parse succeeds exactly when the
/// text is nonempty, all digits, and denotes a value that fits.
pub fn parse_u32(s: &str) -> (r: Option<u32>)
    ensures
        (is_dec_string(s@) && digits_val(s@) <= u32::MAX) ==> r == Some(digits_val(s@) as u32),
        !(is_dec_string(s@) && digits_val(s@) <= u32::MAX) ==> r is None,
{
    let n = s.unicode_len();
    if n == 0 {
        return None;
    }
    let mut acc: u32 = 0;
    let mut i: usize = 0;
    while i < n
        invariant
            0 < n == s@.len(),
            i <= n,
            forall|j: int| 0 <= j < i ==> is_dec_digit(#[trigger] s@[j]),
            acc == digits_val(s@.take(i as int)),
        decreases n - i,
    {
        let c = s.get_char(i);
        let v = c as u32;
        if v < 48 || v > 57 {
            return None;
        }
        let d = v - 48;
        proof {
            assert(s@.take(i as int + 1).drop_last() =~= s@.take(i as int));
            assert(s@.take(i as int + 1).last() == s@[i as int]);
        }
        if acc > (u32::MAX - d) / 10 {
            proof {
                assert(acc * 10 + d > u32::MAX) by (nonlinear_arith)
                    requires
                        acc > (u32::MAX - d) / 10,
                        d <= 9,
                        acc >= 0,
                {}
                assert(digits_val(s@.take(i as int + 1)) > u32::MAX);
                if is_dec_string(s@) {
                    lemma_digits_val_grows(s@, i as int + 1);
                }
            }
            return None;
        }
        acc = acc * 10 + d;
        i += 1;
    }
    proof {
        assert(s@.take(n as int) =~= s@);
    }
    Some(acc)
}

/// ASCII whitespace, as the notation tokenizer understands it.
pub open spec fn is_ws(c: char) -> bool {
    c == ' ' || c == '\t' || c == '\n' || c == '\r' || c == '\u{c}'
}

/// The segments of a text between occurrences of a separator, in order.
/// Empty segments are kept: a text with no separator is one segment, and an
/// empty text is one empty segment.
pub open spec fn split_char(s: Seq<char>, sep: char) -> Seq<Seq<char>>
    decreases s.len(),
{
    if s.len() == 0 {
        seq![Seq::<char>::empty()]
    } else if s[0] == sep {
        seq![Seq::<char>::empty()] + split_char(s.drop_first(), sep)
    } else {
        let rest = split_char(s.drop_first(), sep);
        seq![seq![s[0]] + rest[0]] + rest.drop_first()
    }
}

/// A split always has at least one segment.
pub proof fn lemma_split_char_len(s: Seq<char>, sep: char)
    ensures
        split_char(s, sep).len() >= 1,
    decreases s.len(),
{
    if s.len() > 0 {
        lemma_split_char_len(s.drop_first(), sep);
    }
}

/// A text without the separator is a single segment.
pub proof fn lemma_split_char_whole(s: Seq<char>, sep: char)
    requires
        forall|i: int| 0 <= i < s.len() ==> s[i] != sep,
    ensures
        split_char(s, sep) == seq![s],
    decreases s.len(),
{
    if s.len() == 0 {
        assert(split_char(s, sep) =~~= seq![s]);
    } else {
        lemma_split_char_whole(s.drop_first(), sep);
        assert(seq![s[0]] + s.drop_first() =~= s);
        assert(split_char(s, sep) =~~= seq![s]);
    }
}

/// Splitting around one separator splits the two sides independently.
pub proof fn lemma_split_char_append(x: Seq<char>, y: Seq<char>, sep: char)
    ensures
        split_char(x + seq![sep] + y, sep) == split_char(x, sep) + split_char(y, sep),
    decreases x.len(),
{
    let z = x + seq![sep] + y;
    if x.len() == 0 {
        assert(z[0] == sep);
        assert(z.drop_first() =~= y);
        assert(split_char(x, sep) + split_char(y, sep) =~~= seq![Seq::<char>::empty()]
            + split_char(y, sep));
    } else {
        assert(z[0] == x[0]);
        assert(z.drop_first() =~= x.drop_first() + seq![sep] + y);
        lemma_split_char_append(x.drop_first(), y, sep);
        lemma_split_char_len(x.drop_first(), sep);
        if x[0] == sep {
            assert(split_char(z, sep) =~~= split_char(x, sep) + split_char(y, sep));
        } else {
            let rx = split_char(x.drop_first(), sep);
            let rz = split_char(z.drop_first(), sep);
            assert(rz == rx + split_char(y, sep));
            assert(rz[0] == rx[0]);
            assert(rz.drop_first() =~~= rx.drop_first() + split_char(y, sep));
            assert(split_char(z, sep) =~~= split_char(x, sep) + split_char(y, sep));
        }
    }
}

/// The given pending prefix glued onto the first segment.
pub open spec fn prepend_first(p: Seq<char>, segs: Seq<Seq<char>>) -> Seq<Seq<char>>
    recommends
        segs.len() >= 1,
{
    seq![p + segs[0]] + segs.drop_first()
}

/// Splits on every occurrence of a separator character, keeping empty
/// segments, exactly as [`split_char`] lists them.
pub fn split_on_char(s: &str, sep: char) -> (r: Vec<String>)
    ensures
        r.deep_view() == split_char(s@, sep),
{
    let n = s.unicode_len();
    let mut out: Vec<String> = Vec::new();
    let mut start: usize = 0;
    let mut i: usize = 0;
    proof {
        lemma_split_char_len(s@, sep);
        assert(s@.skip(0) =~= s@);
        assert(s@.subrange(0, 0) =~= Seq::<char>::empty());
        assert(Seq::<char>::empty() + split_char(s@, sep)[0] =~= split_char(s@, sep)[0]);
        assert(out.deep_view() + prepend_first(Seq::<char>::empty(), split_char(s@, sep)) =~~=
        split_char(s@, sep));
    }
    while i < n
        invariant
            start <= i <= n,
            n == s@.len(),
            split_char(s@, sep) == out.deep_view() + prepend_first(
                s@.subrange(start as int, i as int),
                split_char(s@.skip(i as int), sep),
            ),
        decreases n - i,
    {
        let ghost pre_out = out.deep_view();
        let ghost pending = s@.subrange(start as int, i as int);
        proof {
            lemma_split_char_len(s@.skip(i as int + 1), sep);
            assert(s@.skip(i as int).drop_first() =~= s@.skip(i as int + 1));
        }
        let c = s.get_char(i);
        if c == sep {
            let tok = s.substring_char(start, i).to_owned();
            out.push(tok);
            i += 1;
            start = i;
            proof {
                let rest = split_char(s@.skip(i as int), sep);
                assert(split_char(s@.skip(i as int - 1), sep) == seq![Seq::<char>::empty()]
                    + rest);
                assert(prepend_first(pending, seq![Seq::<char>::empty()] + rest) =~~= seq![pending]
                    + rest);
                assert(prepend_first(s@.subrange(start as int, i as int), rest) =~~= rest);
                assert(out.deep_view() =~~= pre_out + seq![pending]);
                assert(out.deep_view() + prepend_first(s@.subrange(start as int, i as int), rest)
                    =~~= pre_out + (seq![pending] + rest));
            }
        } else {
            i += 1;
            proof {
                let rest = split_char(s@.skip(i as int), sep);
                let prev = split_char(s@.skip(i as int - 1), sep);
                assert(prev == seq![seq![s@[i as int - 1]] + rest[0]] + rest.drop_first());
                assert(s@.subrange(start as int, i as int) =~= pending + seq![s@[i as int - 1]]);
                assert(prepend_first(pending, prev) =~~= prepend_first(
                    s@.subrange(start as int, i as int),
                    rest,
                ));
            }
        }
    }
    let ghost pre_out = out.deep_view();
    let tok = s.substring_char(start, n).to_owned();
    out.push(tok);
    proof {
        assert(s@.skip(n as int) =~= Seq::<char>::empty());
        let sub = s@.subrange(start as int, n as int);
        assert(sub + Seq::<char>::empty() =~= sub);
        assert(prepend_first(sub, split_char(s@.skip(n as int), sep)) =~~= seq![sub]);
        assert(out.deep_view() =~~= pre_out + seq![sub]);
    }
    out
}

/// The maximal runs of non-whitespace characters of a text, in order.
pub open spec fn ws_tokens(s: Seq<char>) -> Seq<Seq<char>>
    decreases s.len(),
{
    if s.len() == 0 {
        Seq::empty()
    } else if is_ws(s[0]) {
        ws_tokens(s.drop_first())
    } else if s.len() == 1 {
        seq![seq![s[0]]]
    } else if is_ws(s[1]) {
        seq![seq![s[0]]] + ws_tokens(s.drop_first())
    } else {
        let rest = ws_tokens(s.drop_first());
        seq![seq![s[0]] + rest[0]] + rest.drop_first()
    }
}

/// A text that begins with a mark has at least one token.
pub proof fn lemma_ws_tokens_nonempty(s: Seq<char>)
    requires
        s.len() > 0,
        !is_ws(s[0]),
    ensures
        ws_tokens(s).len() >= 1,
    decreases s.len(),
{
    if s.len() > 1 && !is_ws(s[1]) {
        lemma_ws_tokens_nonempty(s.drop_first());
    }
}

/// A nonempty text with no whitespace is a single token.
pub proof fn lemma_ws_tokens_word(s: Seq<char>)
    requires
        s.len() > 0,
        forall|i: int| 0 <= i < s.len() ==> !is_ws(s[i]),
    ensures
        ws_tokens(s) == seq![s],
    decreases s.len(),
{
    if s.len() == 1 {
        assert(seq![s[0]] =~= s);
    } else {
        lemma_ws_tokens_word(s.drop_first());
        assert(seq![s[0]] + s.drop_first() =~= s);
        assert(ws_tokens(s) =~~= seq![s]);
    }
}

/// Tokenizing around one whitespace character tokenizes the two sides
/// independently.
pub proof fn lemma_ws_tokens_append(x: Seq<char>, y: Seq<char>, sep: char)
    requires
        is_ws(sep),
    ensures
        ws_tokens(x + seq![sep] + y) == ws_tokens(x) + ws_tokens(y),
    decreases x.len(),
{
    let z = x + seq![sep] + y;
    if x.len() == 0 {
        assert(z.drop_first() =~= y);
        assert(ws_tokens(x) + ws_tokens(y) =~~= ws_tokens(y));
    } else {
        assert(z[0] == x[0]);
        assert(z.drop_first() =~= x.drop_first() + seq![sep] + y);
        lemma_ws_tokens_append(x.drop_first(), y, sep);
        if is_ws(x[0]) {
            assert(ws_tokens(z) =~~= ws_tokens(x) + ws_tokens(y));
        } else if x.len() == 1 {
            assert(z[1] == sep);
            assert(z.drop_first()[0] == sep);
            assert(ws_tokens(z) =~~= seq![seq![x[0]]] + ws_tokens(y));
            assert(ws_tokens(x) =~~= seq![seq![x[0]]]);
        } else if is_ws(x[1]) {
            assert(z[1] == x[1]);
            assert(ws_tokens(z) =~~= ws_tokens(x) + ws_tokens(y));
        } else {
            assert(z[1] == x[1]);
            lemma_ws_tokens_nonempty(x.drop_first());
            let rx = ws_tokens(x.drop_first());
            let rz = ws_tokens(z.drop_first());
            assert(rz == rx + ws_tokens(y));
            assert(rz[0] == rx[0]);
            assert(rz.drop_first() =~~= rx.drop_first() + ws_tokens(y));
            assert(ws_tokens(z) =~~= ws_tokens(x) + ws_tokens(y));
        }
    }
}

/// The tokens of a text whose first run is already partly read: the pending
/// prefix extends the first run, or stands alone where the rest begins with
/// whitespace or is empty.
pub open spec fn pending_tokens(p: Seq<char>, s: Seq<char>) -> Seq<Seq<char>> {
    if s.len() == 0 || is_ws(s[0]) {
        seq![p] + ws_tokens(s)
    } else {
        prepend_first(p, ws_tokens(s))
    }
}

/// Splits a text into its whitespace-separated tokens, exactly as
/// [`ws_tokens`] lists them.
pub fn split_ws(s: &str) -> (r: Vec<String>)
    ensures
        r.deep_view() == ws_tokens(s@),
{
    let n = s.unicode_len();
    let mut out: Vec<String> = Vec::new();
    let mut start: usize = 0;
    let mut in_tok: bool = false;
    let mut i: usize = 0;
    proof {
        assert(s@.skip(0) =~= s@);
    }
    while i < n
        invariant
            start <= i <= n,
            n == s@.len(),
            !in_tok ==> ws_tokens(s@) == out.deep_view() + ws_tokens(s@.skip(i as int)),
            in_tok ==> ws_tokens(s@) == out.deep_view() + pending_tokens(
                s@.subrange(start as int, i as int),
                s@.skip(i as int),
            ),
            in_tok ==> start < i,
        decreases n - i,
    {
        let ghost pre_out = out.deep_view();
        let ghost pending = s@.subrange(start as int, i as int);
        let ghost suffix = s@.skip(i as int);
        proof {
            assert(suffix.drop_first() =~= s@.skip(i as int + 1));
            assert(suffix[0] == s@[i as int]);
        }
        let c = s.get_char(i);
        let ws = c == ' ' || c == '\t' || c == '\n' || c == '\r' || c == '\u{c}';
        if in_tok {
            if ws {
                let tok = s.substring_char(start, i).to_owned();
                out.push(tok);
                in_tok = false;
                proof {
                    assert(ws_tokens(suffix) == ws_tokens(s@.skip(i as int + 1)));
                    assert(pending_tokens(pending, suffix) =~~= seq![pending] + ws_tokens(
                        s@.skip(i as int + 1),
                    ));
                    assert(out.deep_view() =~~= pre_out + seq![pending]);
                    assert(out.deep_view() + ws_tokens(s@.skip(i as int + 1)) =~~= pre_out + (
                    seq![pending] + ws_tokens(s@.skip(i as int + 1))));
                }
            } else {
                proof {
                    let ext = s@.subrange(start as int, i as int + 1);
                    assert(ext =~= pending + seq![s@[i as int]]);
                    if i as int + 1 == n {
                        assert(suffix.len() == 1);
                        assert(ws_tokens(suffix) == seq![seq![suffix[0]]]);
                        assert(pending_tokens(pending, suffix) =~~= seq![ext]);
                        assert(pending_tokens(ext, s@.skip(i as int + 1)) =~~= seq![ext]);
                    } else if is_ws(s@[i as int + 1]) {
                        assert(suffix[1] == s@[i as int + 1]);
                        assert(ws_tokens(suffix) == seq![seq![suffix[0]]] + ws_tokens(
                            suffix.drop_first(),
                        ));
                        assert(pending_tokens(pending, suffix) =~~= seq![ext] + ws_tokens(
                            s@.skip(i as int + 1),
                        ));
                        assert(pending_tokens(ext, s@.skip(i as int + 1)) =~~= seq![ext]
                            + ws_tokens(s@.skip(i as int + 1)));
                    } else {
                        assert(suffix[1] == s@[i as int + 1]);
                        lemma_ws_tokens_nonempty(s@.skip(i as int + 1));
                        let rest = ws_tokens(s@.skip(i as int + 1));
                        assert(ws_tokens(suffix) == seq![seq![suffix[0]] + rest[0]]
                            + rest.drop_first());
                        assert(pending + (seq![suffix[0]] + rest[0]) =~= ext + rest[0]);
                        assert(pending_tokens(pending, suffix) =~~= pending_tokens(
                            ext,
                            s@.skip(i as int + 1),
                        ));
                    }
                }
            }
        } else {
            if ws {
                proof {
                    assert(ws_tokens(suffix) == ws_tokens(s@.skip(i as int + 1)));
                }
            } else {
                start = i;
                in_tok = true;
                proof {
                    let ext = s@.subrange(start as int, i as int + 1);
                    assert(ext =~= seq![s@[i as int]]);
                    if i as int + 1 == n {
                        assert(suffix.len() == 1);
                        assert(ws_tokens(suffix) == seq![seq![suffix[0]]]);
                        assert(pending_tokens(ext, s@.skip(i as int + 1)) =~~= ws_tokens(suffix));
                    } else if is_ws(s@[i as int + 1]) {
                        assert(suffix[1] == s@[i as int + 1]);
                        assert(ws_tokens(suffix) == seq![seq![suffix[0]]] + ws_tokens(
                            suffix.drop_first(),
                        ));
                        assert(pending_tokens(ext, s@.skip(i as int + 1)) =~~= ws_tokens(suffix));
                    } else {
                        assert(suffix[1] == s@[i as int + 1]);
                        lemma_ws_tokens_nonempty(s@.skip(i as int + 1));
                        let rest = ws_tokens(s@.skip(i as int + 1));
                        assert(ws_tokens(suffix) == seq![seq![suffix[0]] + rest[0]]
                            + rest.drop_first());
                        assert(ext + rest[0] =~= seq![suffix[0]] + rest[0]);
                        assert(pending_tokens(ext, s@.skip(i as int + 1)) =~~= ws_tokens(suffix));
                    }
                }
            }
        }
        i += 1;
    }
    proof {
        assert(s@.skip(n as int) =~= Seq::<char>::empty());
    }
    if in_tok {
        let ghost pre_out = out.deep_view();
        let tok = s.substring_char(start, n).to_owned();
        out.push(tok);
        proof {
            let sub = s@.subrange(start as int, n as int);
            assert(pending_tokens(sub, s@.skip(n as int)) =~~= seq![sub]);
            assert(out.deep_view() =~~= pre_out + seq![sub]);
        }
    }
    out
}

impl Direction {
    /// The position with the given linear index; an out-of-range index is
    /// reported with its numeral.
    pub fn from_index(i: u32) -> (r: Result<Direction, UT3Error>)
        ensures
            i < 9 ==> r == Ok::<Direction, UT3Error>(dir_from_index(i as int)),
            i >= 9 ==> (r matches Err(UT3Error::InvalidDirection(t)) && t@ == dec_of(i as nat)),
    {
        if i < 9 {
            Ok(Direction::from_index_unchecked(i as usize))
        } else {
            Err(UT3Error::InvalidDirection(u32_to_dec(i)))
        }
    }

    /// The position at the given column and row; an out-of-range pair is
    /// reported with its two numerals, comma-separated.
    pub fn from_xy(x: u32, y: u32) -> (r: Result<Direction, UT3Error>)
        ensures
            x < 3 && y < 3 ==> r == Ok::<Direction, UT3Error>(dir_from_xy(x as int, y as int)),
            !(x < 3 && y < 3) ==> (r matches Err(UT3Error::InvalidDirection(t)) && t@ == dec_of(
                x as nat,
            ) + seq![','] + dec_of(y as nat)),
    {
        if x < 3 && y < 3 {
            Ok(Direction::from_index_unchecked((3 * y + x) as usize))
        } else {
            let mut t = u32_to_dec(x);
            t.append(",");
            let ys = u32_to_dec(y);
            t.append(ys.as_str());
            proof {
                reveal_strlit(",");
                assert((",")@ =~= seq![',']);
            }
            Err(UT3Error::InvalidDirection(t))
        }
    }
}

impl UT3Error {
    /// The user-facing message of this error, built from the same tokens
    /// the codec writes.
    pub fn describe(&self) -> (r: String)
        ensures
            match *self {
                UT3Error::TurnNumberParse(t) => r@ == ("turn number must be an integer: `")@ + t@
                    + ("`")@,
                UT3Error::InvalidPlayer(t) => r@ == ("invalid player symbol: `")@ + t@ + ("`")@,
                UT3Error::InvalidDirection(t) => r@ == ("invalid direction symbol: `")@ + t@ + (
                "`")@,
                UT3Error::WrongTrack { required, got } => r@ == (
                "wrong track: should have been `")@ + dir_label(required) + ("` but was `")@
                    + dir_label(got) + ("`")@,
                UT3Error::PositionTaken { position, value } => r@ == (
                "position taken: attempted to go in position `")@ + dir_label(position.0) + ("/")@
                    + dir_label(position.1) + ("`, which already contains `")@ + player_label(
                    value,
                ) + ("`")@,
                UT3Error::BoxHasWinner(d) => r@ == ("box `")@ + dir_label(d) + ("` is finished")@,
            },
    {
        match self {
            UT3Error::TurnNumberParse(t) => {
                let mut s = String::from_str("turn number must be an integer: `");
                s.append(t.as_str());
                s.append("`");
                s
            },
            UT3Error::InvalidPlayer(t) => {
                let mut s = String::from_str("invalid player symbol: `");
                s.append(t.as_str());
                s.append("`");
                s
            },
            UT3Error::InvalidDirection(t) => {
                let mut s = String::from_str("invalid direction symbol: `");
                s.append(t.as_str());
                s.append("`");
                s
            },
            UT3Error::WrongTrack { required, got } => {
                let mut s = String::from_str("wrong track: should have been `");
                let a = required.to_text();
                s.append(a.as_str());
                s.append("` but was `");
                let b = got.to_text();
                s.append(b.as_str());
                s.append("`");
                s
            },
            UT3Error::PositionTaken { position, value } => {
                let mut s = String::from_str("position taken: attempted to go in position `");
                let a = position.0.to_text();
                s.append(a.as_str());
                s.append("/");
                let b = position.1.to_text();
                s.append(b.as_str());
                s.append("`, which already contains `");
                let c = value.to_text();
                s.append(c.as_str());
                s.append("`");
                s
            },
            UT3Error::BoxHasWinner(d) => {
                let mut s = String::from_str("box `");
                let a = d.to_text();
                s.append(a.as_str());
                s.append("` is finished");
                s
            },
        }
    }
}

/// The notation line of one turn: number, player and coordinates,
/// tab-separated, the coordinates joined by a slash.
pub open spec fn encode_turn(t: Turn) -> Seq<char> {
    dec_of(t.turn_number as nat) + seq!['\t'] + player_label(t.player) + seq!['\t'] + dir_label(
        t.coords.0,
    ) + seq!['/'] + dir_label(t.coords.1)
}

/// The notation text of a history: its lines joined with newlines, in
/// history order; an empty history is the empty text.
pub open spec fn encode_notation(ts: Seq<Turn>) -> Seq<char>
    decreases ts.len(),
{
    if ts.len() == 0 {
        Seq::empty()
    } else if ts.len() == 1 {
        encode_turn(ts[0])
    } else {
        encode_notation(ts.drop_last()) + seq!['\n'] + encode_turn(ts.last())
    }
}

impl Turn {
    /// The tab-separated notation line of this turn, as [`encode_turn`].
    pub fn to_line(&self) -> (r: String)
        ensures
            r@ == encode_turn(*self),
    {
        let mut s = u32_to_dec(self.turn_number);
        s.append("\t");
        let p = self.player.to_text();
        s.append(p.as_str());
        s.append("\t");
        let o = self.coords.0.to_text();
        s.append(o.as_str());
        s.append("/");
        let i = self.coords.1.to_text();
        s.append(i.as_str());
        proof {
            reveal_strlit("\t");
            reveal_strlit("/");
            assert(("\t")@ =~= seq!['\t']);
            assert(("/")@ =~= seq!['/']);
            assert(s@ =~= encode_turn(*self));
        }
        s
    }
}

impl Grid {
    /// The notation text of this grid's history, as [`encode_notation`].
    pub fn to_notation(&self) -> (r: String)
        ensures
            r@ == encode_notation(self@.turns),
    {
        let mut s = String::new();
        let n = self.turns.len();
        let mut k: usize = 0;
        proof {
            assert(self.turns@.take(0) =~= Seq::<Turn>::empty());
        }
        while k < n
            invariant
                k <= n,
                n == self.turns@.len(),
                s@ == encode_notation(self.turns@.take(k as int)),
            decreases n - k,
        {
            if k > 0 {
                s.append("\n");
            }
            let line = self.turns[k].to_line();
            s.append(line.as_str());
            proof {
                reveal_strlit("\n");
                assert(("\n")@ =~= seq!['\n']);
                assert(self.turns@.take(k as int + 1).drop_last() =~= self.turns@.take(k as int));
                assert(self.turns@.take(k as int + 1).last() == self.turns@[k as int]);
                assert(s@ =~= encode_notation(self.turns@.take(k as int + 1)));
            }
            k += 1;
        }
        proof {
            assert(self.turns@.take(n as int) =~= self.turns@);
        }
        s
    }
}

/// The outcome of reading one notation line.
pub enum LineResult {
    /// The rebuilt turn.
    Parsed(Turn),
    /// The turn-number field is not an unsigned integer that fits.
    BadNumber(Seq<char>),
    /// The player field is not `X` or `O`, or disagrees with the number's
    /// parity.
    BadPlayer(Seq<char>),
    /// A coordinate token is not a label.
    BadDirection(Seq<char>),
}

/// How one notation line reads, stage by stage: the line splits on
/// whitespace into number, player and coordinate fields (missing fields
/// read as empty tokens); the number must be an unsigned integer that fits;
/// the player token must be a mark and agree with the number's parity; the
/// coordinate field splits on `/` into two labels. The turn is rebuilt from
/// the number and coordinates alone.
pub open spec fn parse_line(s: Seq<char>) -> LineResult {
    let toks = ws_tokens(s);
    let t0 = if toks.len() > 0 {
        toks[0]
    } else {
        Seq::empty()
    };
    let t1 = if toks.len() > 1 {
        toks[1]
    } else {
        Seq::empty()
    };
    let t2 = if toks.len() > 2 {
        toks[2]
    } else {
        Seq::empty()
    };
    if !(is_dec_string(t0) && digits_val(t0) <= u32::MAX) {
        LineResult::BadNumber(t0)
    } else {
        let n = digits_val(t0) as u32;
        if t1 != player_label(Player::X) && t1 != player_label(Player::O) {
            LineResult::BadPlayer(t1)
        } else if t1 != player_label(turn_player(n)) {
            LineResult::BadPlayer(t1)
        } else {
            let segs = split_char(t2, '/');
            let s1 = if segs.len() > 1 {
                segs[1]
            } else {
                Seq::empty()
            };
            match dir_of_label(segs[0]) {
                None => LineResult::BadDirection(segs[0]),
                Some(outer) => match dir_of_label(s1) {
                    None => LineResult::BadDirection(s1),
                    Some(inner) => LineResult::Parsed(spec_turn(n, (outer, inner))),
                },
            }
        }
    }
}

impl Turn {
    /// Reads one notation line, exactly as [`parse_line`] states it. The
    /// player is re-derived from the turn number's parity; the serialized
    /// player token is only cross-checked.
    pub fn from_line(s: &str) -> (r: Result<Turn, UT3Error>)
        ensures
            match parse_line(s@) {
                LineResult::Parsed(t) => r == Ok::<Turn, UT3Error>(t),
                LineResult::BadNumber(tok) => r matches Err(UT3Error::TurnNumberParse(m)) && m@
                    == tok,
                LineResult::BadPlayer(tok) => r matches Err(UT3Error::InvalidPlayer(m)) && m@
                    == tok,
                LineResult::BadDirection(tok) => r matches Err(UT3Error::InvalidDirection(m)) && m@
                    == tok,
            },
    {
        proof {
            reveal_strlit("");
            assert(("")@ =~= Seq::<char>::empty());
        }
        let toks = split_ws(s);
        let t0: &str = if toks.len() > 0 {
            toks[0].as_str()
        } else {
            ""
        };
        let t1: &str = if toks.len() > 1 {
            toks[1].as_str()
        } else {
            ""
        };
        let t2: &str = if toks.len() > 2 {
            toks[2].as_str()
        } else {
            ""
        };
        let num = match parse_u32(t0) {
            Some(v) => v,
            None => {
                return Err(UT3Error::TurnNumberParse(t0.to_owned()));
            },
        };
        let player = match Player::from_token(t1) {
            Ok(p) => p,
            Err(e) => {
                return Err(e);
            },
        };
        let expected = if num % 2 == 0 {
            Player::O
        } else {
            Player::X
        };
        if player != expected {
            proof {
                assert(player_label(Player::X)[0] == 'X');
                assert(player_label(Player::O)[0] == 'O');
            }
            return Err(UT3Error::InvalidPlayer(t1.to_owned()));
        }
        let segs = split_on_char(t2, '/');
        proof {
            lemma_split_char_len(t2@, '/');
        }
        let s0: &str = segs[0].as_str();
        let s1: &str = if segs.len() > 1 {
            segs[1].as_str()
        } else {
            ""
        };
        let outer = match Direction::from_token(s0) {
            Ok(d) => d,
            Err(e) => {
                return Err(e);
            },
        };
        let inner = match Direction::from_token(s1) {
            Ok(d) => d,
            Err(e) => {
                return Err(e);
            },
        };
        Ok(Turn::new(num, (outer, inner)))
    }
}

/// The outcome of reading a whole notation text and replaying its moves.
pub enum NotationOutcome {
    /// Every line read and every move legal: the resulting state.
    Replayed(GridModel),
    /// A line's turn-number field failed to read; carries the field.
    BadNumber(Seq<char>),
    /// A line's player field failed to read or cross-check; carries it.
    BadPlayer(Seq<char>),
    /// A coordinate token failed to read; carries the token.
    BadDirection(Seq<char>),
    /// A parsed move was rejected by the rules; carries the rejection.
    Rejected(UT3Error),
}

/// Reading lines in order over a fresh grid of the given variant: each
/// parses as [`parse_line`] and its coordinates apply as [`apply_step`];
/// the first failure of either kind is the outcome.
pub open spec fn replay_notation(v: Variant, ls: Seq<Seq<char>>) -> NotationOutcome
    decreases ls.len(),
{
    if ls.len() == 0 {
        NotationOutcome::Replayed(initial_model(v))
    } else {
        match replay_notation(v, ls.drop_last()) {
            NotationOutcome::Replayed(m) => match parse_line(ls.last()) {
                LineResult::Parsed(t) => match apply_step(m, t.coords) {
                    Ok(m2) => NotationOutcome::Replayed(m2),
                    Err(e) => NotationOutcome::Rejected(e),
                },
                LineResult::BadNumber(tok) => NotationOutcome::BadNumber(tok),
                LineResult::BadPlayer(tok) => NotationOutcome::BadPlayer(tok),
                LineResult::BadDirection(tok) => NotationOutcome::BadDirection(tok),
            },
            other => other,
        }
    }
}

/// The lines of a notation text: none for the empty text, else the
/// newline-separated segments, empty ones kept.
pub open spec fn notation_lines(s: Seq<char>) -> Seq<Seq<char>> {
    if s.len() == 0 {
        Seq::empty()
    } else {
        split_char(s, '\n')
    }
}

/// A failure while reading a prefix of the lines is the outcome of the
/// whole text.
proof fn lemma_replay_notation_extends(v: Variant, ls: Seq<Seq<char>>, k: int)
    requires
        0 <= k <= ls.len(),
        !(replay_notation(v, ls.take(k)) is Replayed),
    ensures
        replay_notation(v, ls) == replay_notation(v, ls.take(k)),
    decreases ls.len() - k,
{
    if k < ls.len() {
        assert(ls.take(k + 1).drop_last() =~= ls.take(k));
        lemma_replay_notation_extends(v, ls, k + 1);
    } else {
        assert(ls.take(k) =~= ls);
    }
}

impl Grid {
    /// Rebuilds a grid from notation text over a fresh grid of the given
    /// variant, exactly as [`replay_notation`] states it: each line is
    /// parsed and its coordinates applied in order, players re-derived from
    /// position in history, and the first failure reported.
    pub fn from_notation(text: &str, variant: Variant) -> (r: Result<Grid, UT3Error>)
        ensures
            match replay_notation(variant, notation_lines(text@)) {
                NotationOutcome::Replayed(m) => r matches Ok(g) && g@ == m && g.wf(),
                NotationOutcome::BadNumber(tok) => r matches Err(UT3Error::TurnNumberParse(m2))
                    && m2@ == tok,
                NotationOutcome::BadPlayer(tok) => r matches Err(UT3Error::InvalidPlayer(m2))
                    && m2@ == tok,
                NotationOutcome::BadDirection(tok) => r matches Err(UT3Error::InvalidDirection(m2))
                    && m2@ == tok,
                NotationOutcome::Rejected(e) => r == Err::<Grid, UT3Error>(e),
            },
    {
        let g0 = Grid::default();
        let mut g = g0.with_variant(variant);
        if text.unicode_len() == 0 {
            return Ok(g);
        }
        let lines = split_on_char(text, '\n');
        let n = lines.len();
        let ghost ls = notation_lines(text@);
        let mut k: usize = 0;
        proof {
            assert(ls.take(0) =~= Seq::<Seq<char>>::empty());
        }
        while k < n
            invariant
                k <= n,
                n == ls.len(),
                lines.deep_view() == ls,
                ls == notation_lines(text@),
                g.wf(),
                g@.variant == variant,
                replay_notation(variant, ls.take(k as int)) == NotationOutcome::Replayed(g@),
            decreases n - k,
        {
            proof {
                assert(ls.take(k as int + 1).drop_last() =~= ls.take(k as int));
                assert(ls.take(k as int + 1).last() == ls[k as int]);
                assert(lines.deep_view()[k as int] == lines@[k as int]@);
            }
            let line: &str = lines[k].as_str();
            let t = match Turn::from_line(line) {
                Ok(t) => t,
                Err(e) => {
                    proof {
                        lemma_replay_notation_extends(variant, ls, k as int + 1);
                    }
                    return Err(e);
                },
            };
            match g.apply_turn(t.coords) {
                Ok(u) => u,
                Err(e) => {
                    proof {
                        lemma_replay_notation_extends(variant, ls, k as int + 1);
                    }
                    return Err(e);
                },
            };
            k += 1;
        }
        proof {
            assert(ls.take(n as int) =~= ls);
        }
        Ok(g)
    }
}

/// The decimal text of a number is a nonempty digit string denoting the
/// number itself.
proof fn lemma_dec_of_digits(n: nat)
    ensures
        is_dec_string(dec_of(n)),
        digits_val(dec_of(n)) == n,
    decreases n,
{
    if n < 10 {
        assert(dec_of(n).drop_last() =~= Seq::<char>::empty());
        assert(dec_val(dec_digit(n as int)) == n);
        assert(digits_val(dec_of(n)) == digits_val(Seq::<char>::empty()) * 10 + dec_val(
            dec_digit(n as int),
        ));
    } else {
        lemma_dec_of_digits(n / 10);
        let s = dec_of(n / 10);
        let whole = dec_of(n);
        assert(whole.drop_last() =~= s);
        assert(whole.last() == dec_digit((n % 10) as int));
        assert(dec_val(dec_digit((n % 10) as int)) == n % 10);
        vstd::arithmetic::div_mod::lemma_fundamental_div_mod(n as int, 10);
        assert(digits_val(whole) == digits_val(s) * 10 + dec_val(whole.last()));
        assert(digits_val(whole) == n);
        assert forall|i: int| 0 <= i < whole.len() implies is_dec_digit(#[trigger] whole[i]) by {
            if i < s.len() {
                assert(whole[i] == s[i]);
            }
        };
    }
}

/// A digit character is no separator: not whitespace, slash or newline.
proof fn lemma_digit_plain(c: char)
    requires
        is_dec_digit(c),
    ensures
        !is_ws(c),
        c != '/',
        c != '\n',
{
}

/// No character of a position label is whitespace, a slash or a newline.
proof fn lemma_label_plain(d: Direction)
    ensures
        dir_label(d).len() > 0,
        forall|i: int|
            0 <= i < dir_label(d).len() ==> !is_ws(#[trigger] dir_label(d)[i]) && dir_label(d)[i]
                != '/' && dir_label(d)[i] != '\n',
{
    lemma_dir_label_chars();
}

/// No character of a player token is whitespace, a slash or a newline.
proof fn lemma_player_label_plain(p: Player)
    ensures
        player_label(p).len() == 1,
        !is_ws(player_label(p)[0]),
        player_label(p)[0] != '/',
        player_label(p)[0] != '\n',
{
}

/// A turn's notation line is nonempty and holds no newline.
proof fn lemma_encode_turn_no_newline(t: Turn)
    ensures
        encode_turn(t).len() > 0,
        forall|i: int| 0 <= i < encode_turn(t).len() ==> (#[trigger] encode_turn(t)[i]) != '\n',
{
    let e = encode_turn(t);
    let a = dec_of(t.turn_number as nat);
    lemma_dec_of_digits(t.turn_number as nat);
    lemma_player_label_plain(t.player);
    lemma_label_plain(t.coords.0);
    lemma_label_plain(t.coords.1);
    assert forall|i: int| 0 <= i < e.len() implies (#[trigger] e[i]) != '\n' by {
        if i < a.len() {
            lemma_digit_plain(a[i]);
        }
    };
}

/// The notation line of each recorded turn, in order.
pub open spec fn encode_lines(ts: Seq<Turn>) -> Seq<Seq<char>> {
    ts.map(|i: int, t: Turn| encode_turn(t))
}

/// The lines of a history's notation text are its turns' lines.
proof fn lemma_notation_lines_encode(ts: Seq<Turn>)
    ensures
        notation_lines(encode_notation(ts)) == encode_lines(ts),
        ts.len() > 0 ==> encode_notation(ts).len() > 0,
    decreases ts.len(),
{
    if ts.len() == 0 {
        assert(encode_lines(ts) =~~= Seq::<Seq<char>>::empty());
    } else if ts.len() == 1 {
        lemma_encode_turn_no_newline(ts[0]);
        lemma_split_char_whole(encode_turn(ts[0]), '\n');
        assert(encode_lines(ts) =~~= seq![encode_turn(ts[0])]);
    } else {
        lemma_notation_lines_encode(ts.drop_last());
        lemma_encode_turn_no_newline(ts.last());
        lemma_split_char_whole(encode_turn(ts.last()), '\n');
        lemma_split_char_append(encode_notation(ts.drop_last()), encode_turn(ts.last()), '\n');
        assert(encode_lines(ts) =~~= encode_lines(ts.drop_last()) + seq![encode_turn(ts.last())]);
    }
}

/// The notation line of a parity-consistent turn reads back as that very
/// turn.
proof fn lemma_parse_encode(t: Turn)
    requires
        t.player == turn_player(t.turn_number),
    ensures
        parse_line(encode_turn(t)) == LineResult::Parsed(t),
{
    let e = encode_turn(t);
    let a = dec_of(t.turn_number as nat);
    let b = player_label(t.player);
    let c = dir_label(t.coords.0) + seq!['/'] + dir_label(t.coords.1);
    lemma_dec_of_digits(t.turn_number as nat);
    lemma_player_label_plain(t.player);
    lemma_label_plain(t.coords.0);
    lemma_label_plain(t.coords.1);
    assert(e =~= a + seq!['\t'] + (b + seq!['\t'] + c));
    assert forall|i: int| 0 <= i < a.len() implies !is_ws(#[trigger] a[i]) by {
        lemma_digit_plain(a[i]);
    };
    lemma_ws_tokens_append(a, b + seq!['\t'] + c, '\t');
    lemma_ws_tokens_append(b, c, '\t');
    lemma_ws_tokens_word(a);
    lemma_ws_tokens_word(b);
    assert forall|i: int| 0 <= i < c.len() implies !is_ws(#[trigger] c[i]) && c[i] != '\n' by {
        lemma_dir_label_chars();
    };
    lemma_ws_tokens_word(c);
    let toks = ws_tokens(e);
    assert(toks =~~= seq![a, b, c]);
    lemma_split_char_append(dir_label(t.coords.0), dir_label(t.coords.1), '/');
    lemma_split_char_whole(dir_label(t.coords.0), '/');
    lemma_split_char_whole(dir_label(t.coords.1), '/');
    assert(split_char(c, '/') =~~= seq![dir_label(t.coords.0), dir_label(t.coords.1)]);
    lemma_dir_label_roundtrip(t.coords.0);
    lemma_dir_label_roundtrip(t.coords.1);
    assert(parse_line(e) == LineResult::Parsed(
        spec_turn((digits_val(a) as u32), (t.coords.0, t.coords.1)),
    ));
    assert((t.coords.0, t.coords.1) == t.coords);
}

/// Replaying the encoded lines of a legal history reproduces the very state
/// the history's own replay produces.
proof fn lemma_replay_notation_encode(v: Variant, ts: Seq<Turn>)
    requires
        replay(v, coords_of(ts)) is Ok,
        (replay(v, coords_of(ts))->Ok_0).turns == ts,
    ensures
        replay_notation(v, encode_lines(ts)) == NotationOutcome::Replayed(
            replay(v, coords_of(ts))->Ok_0,
        ),
    decreases ts.len(),
{
    let cs = coords_of(ts);
    let m = replay(v, cs)->Ok_0;
    if ts.len() == 0 {
        assert(cs.len() == 0);
        assert(encode_lines(ts) =~~= Seq::<Seq<char>>::empty());
    } else {
        let ts2 = ts.drop_last();
        let cs2 = coords_of(ts2);
        assert(cs2 =~= cs.drop_last());
        assert(replay(v, cs.drop_last()) is Ok);
        let mp = replay(v, cs.drop_last())->Ok_0;
        assert(apply_step(mp, cs.last()) == Ok::<GridModel, UT3Error>(m));
        assert(m == apply_move(mp, cs.last()));
        assert(mp.turns =~= ts2) by {
            assert(m.turns == mp.turns.push(spec_turn(mp.current_turn_number, cs.last())));
        }
        lemma_replay_notation_encode(v, ts2);
        let last = ts.last();
        assert(last == spec_turn(mp.current_turn_number, cs.last())) by {
            assert(m.turns.last() == spec_turn(mp.current_turn_number, cs.last()));
        }
        lemma_parse_encode(last);
        assert(last.coords == cs.last());
        let ls = encode_lines(ts);
        assert(ls.drop_last() =~= encode_lines(ts2));
        assert(ls.last() == encode_turn(last));
        assert(replay_notation(v, ls) == NotationOutcome::Replayed(m));
    }
}

/// Round trip: the notation text of any well-formed grid, read back and
/// replayed under the grid's own variant, reproduces its exact state —
/// the same occupied cells, the same caches, the same history.
pub proof fn lemma_notation_round_trip(g: Grid)
    requires
        g.wf(),
    ensures
        replay_notation(g@.variant, notation_lines(encode_notation(g@.turns)))
            == NotationOutcome::Replayed(g@),
{
    lemma_notation_lines_encode(g@.turns);
    lemma_replay_notation_encode(g@.variant, g@.turns);
}

} // verus!
