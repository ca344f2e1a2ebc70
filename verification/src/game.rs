//! The game state proper: marks, the nine-way coordinate type, recorded
//! turns, sub-boards, the grid, win detection and the move-application
//! state machine.
//!
//! The grid's contracts are stated over [`GridModel`], an abstract picture
//! of the state, and over [`replay`], the mathematical state machine that
//! folds a sequence of moves over a fresh board. A grid is well formed
//! ([`Grid::wf`]) exactly when its state is what replaying its own history
//! produces, which keeps every cached value consistent with the turn list.

use vstd::prelude::*;

use crate::error::UT3Error;

verus! {

/// One of the two marks. Odd turn numbers (1-based) play `X`, even play `O`.
#[derive(Copy, Clone, PartialEq, Eq, Structural, Debug)]
pub enum Player {
    X,
    O,
}

/// The mark that plays the turn with the given 1-based number.
pub open spec fn turn_player(n: u32) -> Player {
    if n % 2 == 0 {
        Player::O
    } else {
        Player::X
    }
}

/// One of nine positions on a 3x3 layout, used both for cells within a
/// sub-board and for sub-boards within the grid. In linear-index order:
/// the rows top to bottom, each left to right.
#[derive(Copy, Clone, PartialEq, Eq, Structural, Debug)]
pub enum Direction {
    NW,
    N,
    NE,
    W,
    C,
    E,
    SW,
    S,
    SE,
}

/// The linear index of a position: `3 * y + x` for its column `x` and row `y`.
pub open spec fn dir_index(d: Direction) -> int {
    match d {
        Direction::NW => 0,
        Direction::N => 1,
        Direction::NE => 2,
        Direction::W => 3,
        Direction::C => 4,
        Direction::E => 5,
        Direction::SW => 6,
        Direction::S => 7,
        Direction::SE => 8,
    }
}

/// The position with the given linear index (total; meaningful for 0..8).
pub open spec fn dir_from_index(i: int) -> Direction {
    if i == 0 {
        Direction::NW
    } else if i == 1 {
        Direction::N
    } else if i == 2 {
        Direction::NE
    } else if i == 3 {
        Direction::W
    } else if i == 4 {
        Direction::C
    } else if i == 5 {
        Direction::E
    } else if i == 6 {
        Direction::SW
    } else if i == 7 {
        Direction::S
    } else {
        Direction::SE
    }
}

/// The column of a position, in 0..2.
pub open spec fn dir_x(d: Direction) -> int {
    dir_index(d) % 3
}

/// The row of a position, in 0..2.
pub open spec fn dir_y(d: Direction) -> int {
    dir_index(d) / 3
}

/// The position at the given column and row (meaningful for 0..2 each).
pub open spec fn dir_from_xy(x: int, y: int) -> Direction {
    dir_from_index(3 * y + x)
}

/// The toroidal translation used by the `Relative` routing variant: shift
/// `a` by the offset of `b` from the center, wrapping each axis modulo 3.
pub open spec fn spec_combine(a: Direction, b: Direction) -> Direction {
    dir_from_xy((dir_x(a) + dir_x(b) + 2) % 3, (dir_y(a) + dir_y(b) + 2) % 3)
}

impl Direction {
    /// The linear index, 0 through 8, of this position.
    pub fn index(&self) -> (r: usize)
        ensures
            r == dir_index(*self),
    {
        match self {
            Direction::NW => 0,
            Direction::N => 1,
            Direction::NE => 2,
            Direction::W => 3,
            Direction::C => 4,
            Direction::E => 5,
            Direction::SW => 6,
            Direction::S => 7,
            Direction::SE => 8,
        }
    }

    /// The position with linear index `i`, which the caller has bounded.
    pub fn from_index_unchecked(i: usize) -> (r: Direction)
        requires
            i < 9,
        ensures
            r == dir_from_index(i as int),
    {
        if i == 0 {
            Direction::NW
        } else if i == 1 {
            Direction::N
        } else if i == 2 {
            Direction::NE
        } else if i == 3 {
            Direction::W
        } else if i == 4 {
            Direction::C
        } else if i == 5 {
            Direction::E
        } else if i == 6 {
            Direction::SW
        } else if i == 7 {
            Direction::S
        } else {
            Direction::SE
        }
    }

    /// The column and row, each in 0..2, of this position.
    pub fn to_xy(&self) -> (r: (u32, u32))
        ensures
            r.0 == dir_x(*self),
            r.1 == dir_y(*self),
    {
        match self {
            Direction::NW => (0, 0),
            Direction::N => (1, 0),
            Direction::NE => (2, 0),
            Direction::W => (0, 1),
            Direction::C => (1, 1),
            Direction::E => (2, 1),
            Direction::SW => (0, 2),
            Direction::S => (1, 2),
            Direction::SE => (2, 2),
        }
    }

    /// The toroidal translation of `self` by `rhs` (see [`spec_combine`]):
    /// the center is the origin, and each axis wraps modulo 3.
    pub fn combine(self, rhs: Direction) -> (r: Direction)
        ensures
            r == spec_combine(self, rhs),
    {
        let (ax, ay) = self.to_xy();
        let (bx, by) = rhs.to_xy();
        let x = (ax + bx + 2) % 3;
        let y = (ay + by + 2) % 3;
        Direction::from_index_unchecked((3 * y + x) as usize)
    }
}

/// All nine positions index themselves back: the index maps are inverse
/// bijections between positions, 0..8, and {0,1,2} squared.
pub proof fn lemma_direction_bijection(d: Direction, i: int)
    requires
        0 <= i < 9,
    ensures
        0 <= dir_index(d) < 9,
        dir_from_index(dir_index(d)) == d,
        dir_index(dir_from_index(i)) == i,
        0 <= dir_x(d) < 3,
        0 <= dir_y(d) < 3,
        dir_from_xy(dir_x(d), dir_y(d)) == d,
{
    match d {
        Direction::NW => {},
        Direction::N => {},
        Direction::NE => {},
        Direction::W => {},
        Direction::C => {},
        Direction::E => {},
        Direction::SW => {},
        Direction::S => {},
        Direction::SE => {},
    }
}

/// Combining with the center is the identity: the center's offset is zero.
pub proof fn lemma_combine_center(d: Direction)
    ensures
        spec_combine(d, Direction::C) == d,
{
    lemma_direction_bijection(d, 0);
}

/// For a fixed second argument, combining is a bijection on the nine
/// positions: two distinct bases land on two distinct targets.
pub proof fn lemma_combine_injective(a1: Direction, a2: Direction, b: Direction)
    requires
        spec_combine(a1, b) == spec_combine(a2, b),
    ensures
        a1 == a2,
{
    lemma_direction_bijection(a1, 0);
    lemma_direction_bijection(a2, 0);
    lemma_direction_bijection(b, 0);
}

/// For a fixed second argument, combining reaches every position: together
/// with injectivity, it is a bijection on the nine positions.
#[verifier::rlimit(50)]
pub proof fn lemma_combine_surjective(r: Direction, b: Direction)
    ensures
        exists|a: Direction| spec_combine(a, b) == r,
{
    lemma_direction_bijection(r, 0);
    lemma_direction_bijection(b, 0);
    let inv = dir_from_xy((dir_x(r) + 4 - dir_x(b)) % 3, (dir_y(r) + 4 - dir_y(b)) % 3);
    lemma_direction_bijection(inv, 0);
    assert(spec_combine(inv, b) == r);
}

/// One recorded move: its 1-based number, the mark that played it (always
/// the parity of the number), and the targeted sub-board and cell.
#[derive(Copy, Clone, PartialEq, Eq, Debug)]
pub struct Turn {
    pub turn_number: u32,
    pub player: Player,
    pub coords: (Direction, Direction),
}

/// The turn that move application records for the given number and target.
pub open spec fn spec_turn(n: u32, coords: (Direction, Direction)) -> Turn {
    Turn { turn_number: n, player: turn_player(n), coords }
}

impl Turn {
    /// A turn with the given number and target; the player is derived from
    /// the number's parity, never chosen by the caller.
    pub fn new(turn_number: u32, coords: (Direction, Direction)) -> (r: Turn)
        ensures
            r == spec_turn(turn_number, coords),
    {
        Turn {
            turn_number,
            player: if turn_number % 2 == 0 {
                Player::O
            } else {
                Player::X
            },
            coords,
        }
    }
}

/// Three slots of a board hold the same mark.
pub open spec fn line_at(b: Seq<Option<Player>>, i: int, j: int, k: int) -> bool
    recommends
        b.len() == 9,
        0 <= i < 9,
        0 <= j < 9,
        0 <= k < 9,
{
    b[i] is Some && b[i] == b[j] && b[j] == b[k]
}

/// The winner of a 9-slot board: the first of the eight lines — three rows,
/// three columns, diagonal, antidiagonal, in that precedence order — whose
/// slots all hold the same mark; `None` when no line does.
pub open spec fn win_of(b: Seq<Option<Player>>) -> Option<Player>
    recommends
        b.len() == 9,
{
    if line_at(b, 0, 1, 2) {
        b[0]
    } else if line_at(b, 3, 4, 5) {
        b[3]
    } else if line_at(b, 6, 7, 8) {
        b[6]
    } else if line_at(b, 0, 3, 6) {
        b[0]
    } else if line_at(b, 1, 4, 7) {
        b[1]
    } else if line_at(b, 2, 5, 8) {
        b[2]
    } else if line_at(b, 0, 4, 8) {
        b[0]
    } else if line_at(b, 2, 4, 6) {
        b[2]
    } else {
        None
    }
}

/// Whether two slots hold one and the same mark.
fn same_mark(a: &Option<Player>, b: &Option<Player>) -> (r: bool)
    ensures
        r == (*a is Some && *a == *b),
{
    match (a, b) {
        (Some(x), Some(y)) => *x == *y,
        _ => false,
    }
}

/// The winner of a 9-slot board, as [`win_of`] states it. The same check
/// serves a sub-board's cells and the grid's sub-board winners.
pub fn get_win(board: &[Option<Player>; 9]) -> (r: Option<Player>)
    ensures
        r == win_of(board@),
{
    if same_mark(&board[0], &board[1]) && same_mark(&board[1], &board[2]) {
        board[0]
    } else if same_mark(&board[3], &board[4]) && same_mark(&board[4], &board[5]) {
        board[3]
    } else if same_mark(&board[6], &board[7]) && same_mark(&board[7], &board[8]) {
        board[6]
    } else if same_mark(&board[0], &board[3]) && same_mark(&board[3], &board[6]) {
        board[0]
    } else if same_mark(&board[1], &board[4]) && same_mark(&board[4], &board[7]) {
        board[1]
    } else if same_mark(&board[2], &board[5]) && same_mark(&board[5], &board[8]) {
        board[2]
    } else if same_mark(&board[0], &board[4]) && same_mark(&board[4], &board[8]) {
        board[0]
    } else if same_mark(&board[2], &board[4]) && same_mark(&board[4], &board[6]) {
        board[2]
    } else {
        None
    }
}

/// All nine slots of a board are occupied.
pub open spec fn board_full(cells: Seq<Option<Player>>) -> bool
    recommends
        cells.len() == 9,
{
    forall|i: int| 0 <= i < 9 ==> cells[i] is Some
}

/// The abstract picture of a sub-board: its cells and its cached winner.
#[verifier::ext_equal]
pub struct BoxModel {
    pub winner: Option<Player>,
    pub cells: Seq<Option<Player>>,
}

/// A fresh sub-board: every cell empty, no winner.
pub open spec fn empty_box() -> BoxModel {
    BoxModel { winner: None, cells: Seq::new(9, |i: int| None) }
}

/// A sub-board: nine cells and a cached winner, which the grid keeps equal
/// to [`win_of`] over the cells after every mutation.
#[derive(Copy, Clone, Debug)]
pub struct Box {
    pub winner: Option<Player>,
    pub inner: [Option<Player>; 9],
}

impl View for Box {
    type V = BoxModel;

    open spec fn view(&self) -> BoxModel {
        BoxModel { winner: self.winner, cells: self.inner@ }
    }
}

impl Box {
    /// The occupant, if any, of the cell at the given position.
    pub fn get_tile(&self, idx: Direction) -> (r: &Option<Player>)
        ensures
            *r == self@.cells[dir_index(idx)],
    {
        &self.inner[idx.index()]
    }

    /// A mutable handle on the cell at the given position. Writing through
    /// it does not refresh the cached winner; the grid recomputes caches
    /// after every move it applies.
    pub fn get_tile_mut(&mut self, idx: Direction) -> (r: &mut Option<Player>)
        ensures
            *r == old(self)@.cells[dir_index(idx)],
            final(self).winner == old(self).winner,
            final(self)@.cells == old(self)@.cells.update(dir_index(idx), *final(r)),
    {
        &mut self.inner[idx.index()]
    }

    /// Whether all nine cells are occupied.
    pub fn is_full(&self) -> (r: bool)
        ensures
            r == board_full(self@.cells),
    {
        let mut i: usize = 0;
        while i < 9
            invariant
                i <= 9,
                forall|j: int| 0 <= j < i ==> self@.cells[j] is Some,
            decreases 9 - i,
        {
            if self.inner[i].is_none() {
                return false;
            }
            i += 1;
        }
        true
    }
}

impl Default for Box {
    /// A fresh sub-board, as [`empty_box`] describes it.
    fn default() -> (r: Box)
        ensures
            r@ == empty_box(),
    {
        let r = Box { winner: None, inner: [None; 9] };
        proof {
            assert(r@.cells =~= empty_box().cells);
            assert(r@ =~= empty_box());
        }
        r
    }
}

/// How the required sub-board is derived from the previous move: by the
/// cell's own position, or by its offset from the center.
#[derive(Copy, Clone, PartialEq, Eq, Structural, Debug)]
pub enum Variant {
    Relative,
    Absolute,
}

/// The abstract picture of a grid: the caches, the fixed routing variant,
/// the next turn number, the recorded history, and the nine sub-boards.
#[verifier::ext_equal]
pub struct GridModel {
    pub winner: Option<Player>,
    pub variant: Variant,
    pub current_turn_number: u32,
    pub turns: Seq<Turn>,
    pub boxes: Seq<BoxModel>,
}

/// A fresh grid of the given variant: nine empty sub-boards, no history.
pub open spec fn initial_model(v: Variant) -> GridModel {
    GridModel {
        winner: None,
        variant: v,
        current_turn_number: 1,
        turns: Seq::empty(),
        boxes: Seq::new(9, |i: int| empty_box()),
    }
}

/// A sub-board takes no further moves: it has a winner or is full.
pub open spec fn spec_box_finished(b: BoxModel) -> bool {
    b.winner is Some || board_full(b.cells)
}

/// The occupant of the cell `coords.1` of sub-board `coords.0`.
pub open spec fn cell_of(m: GridModel, coords: (Direction, Direction)) -> Option<Player> {
    m.boxes[dir_index(coords.0)].cells[dir_index(coords.1)]
}

/// The sub-board the next move is constrained to. Derived afresh from the
/// last turn and the variant, never stored: with no history there is no
/// constraint, and a constraint that lands on a finished sub-board
/// collapses to a free choice.
pub open spec fn track_of(m: GridModel) -> Option<Direction> {
    if m.turns.len() == 0 {
        None
    } else {
        let prev = m.turns.last();
        let d = match m.variant {
            Variant::Relative => spec_combine(prev.coords.0, prev.coords.1),
            Variant::Absolute => prev.coords.1,
        };
        if spec_box_finished(m.boxes[dir_index(d)]) {
            None
        } else {
            Some(d)
        }
    }
}

/// The state after a successful move: the mark of the current turn number
/// goes into the cell, the turn is recorded, and every cached winner — of
/// each sub-board and of the grid — is recomputed from scratch.
pub open spec fn apply_move(m: GridModel, coords: (Direction, Direction)) -> GridModel {
    let p = turn_player(m.current_turn_number);
    let bi = dir_index(coords.0);
    let marked = m.boxes.update(
        bi,
        BoxModel { winner: m.boxes[bi].winner, cells: m.boxes[bi].cells.update(dir_index(coords.1), Some(p)) },
    );
    let rescored = Seq::new(9, |i: int| BoxModel { winner: win_of(marked[i].cells), cells: marked[i].cells });
    GridModel {
        winner: win_of(Seq::new(9, |i: int| rescored[i].winner)),
        variant: m.variant,
        current_turn_number: (m.current_turn_number + 1) as u32,
        turns: m.turns.push(spec_turn(m.current_turn_number, coords)),
        boxes: rescored,
    }
}

/// What one attempted move does, checks in their fixed order: the move must
/// follow the track, the cell must be empty, the sub-board must be open;
/// then the move is applied.
pub open spec fn apply_step(m: GridModel, coords: (Direction, Direction)) -> Result<GridModel, UT3Error> {
    match track_of(m) {
        Some(req) => if coords.0 != req {
            Err(UT3Error::WrongTrack { required: req, got: coords.0 })
        } else {
            apply_step_on_track(m, coords)
        },
        None => apply_step_on_track(m, coords),
    }
}

/// The checks after the track check: the cell must be empty and the
/// sub-board open; then the move is applied.
pub open spec fn apply_step_on_track(m: GridModel, coords: (Direction, Direction)) -> Result<
    GridModel,
    UT3Error,
> {
    match cell_of(m, coords) {
        Some(p) => Err(UT3Error::PositionTaken { position: coords, value: p }),
        None => if spec_box_finished(m.boxes[dir_index(coords.0)]) {
            Err(UT3Error::BoxHasWinner(coords.0))
        } else {
            Ok(apply_move(m, coords))
        },
    }
}

/// The empty cells among the first `n` of a sub-board's, each paired with
/// the sub-board's position, in cell order.
pub open spec fn targets_in_box(cells: Seq<Option<Player>>, outer: Direction, n: int) -> Seq<
    (Direction, Direction),
>
    recommends
        cells.len() == 9,
        n <= 9,
    decreases n,
{
    if n <= 0 {
        Seq::empty()
    } else {
        let prev = targets_in_box(cells, outer, n - 1);
        if cells[n - 1] is None {
            prev.push((outer, dir_from_index(n - 1)))
        } else {
            prev
        }
    }
}

/// The empty cells of every open sub-board among the first `n`, in
/// sub-board-then-cell order.
pub open spec fn free_targets(m: GridModel, n: int) -> Seq<(Direction, Direction)>
    recommends
        n <= 9,
    decreases n,
{
    if n <= 0 {
        Seq::empty()
    } else {
        let prev = free_targets(m, n - 1);
        if !spec_box_finished(m.boxes[n - 1]) {
            prev + targets_in_box(m.boxes[n - 1].cells, dir_from_index(n - 1), 9)
        } else {
            prev
        }
    }
}

/// Every cell a move may legally target, given the current track: with a
/// required sub-board, its empty cells; with a free choice, the empty cells
/// of every open sub-board.
pub open spec fn valid_targets(m: GridModel, track: Option<Direction>) -> Seq<
    (Direction, Direction),
> {
    match track {
        Some(d) => targets_in_box(m.boxes[dir_index(d)].cells, d, 9),
        None => free_targets(m, 9),
    }
}

/// A pair is among the first `n` cells' targets exactly when it names the
/// given sub-board, its cell index is below `n`, and the cell is empty.
proof fn lemma_targets_in_box_membership(
    cells: Seq<Option<Player>>,
    outer: Direction,
    n: int,
    c: (Direction, Direction),
)
    requires
        0 <= n <= 9,
    ensures
        targets_in_box(cells, outer, n).contains(c) <==> (c.0 == outer && dir_index(c.1) < n
            && cells[dir_index(c.1)] is None),
    decreases n,
{
    lemma_direction_bijection(c.1, 0);
    if n > 0 {
        lemma_targets_in_box_membership(cells, outer, n - 1, c);
        lemma_direction_bijection(dir_from_index(n - 1), n - 1);
        let prev = targets_in_box(cells, outer, n - 1);
        let cur = targets_in_box(cells, outer, n);
        if cells[n - 1] is None {
            assert(cur == prev.push((outer, dir_from_index(n - 1))));
            assert(cur.last() == (outer, dir_from_index(n - 1)));
            if c.0 == outer && dir_index(c.1) < n && cells[dir_index(c.1)] is None {
                if dir_index(c.1) == n - 1 {
                    assert(c == (outer, dir_from_index(n - 1)));
                    assert(cur[cur.len() - 1] == c);
                } else {
                    let i = choose|i: int| 0 <= i < prev.len() && prev[i] == c;
                    assert(cur[i] == c);
                }
            }
            if cur.contains(c) {
                let i = choose|i: int| 0 <= i < cur.len() && cur[i] == c;
                if i < prev.len() {
                    assert(prev[i] == c);
                }
            }
        } else {
            assert(cur == prev);
        }
    }
}

/// A pair is among the free-choice targets over the first `n` sub-boards
/// exactly when its sub-board is below `n` and open and its cell is empty.
proof fn lemma_free_targets_membership(m: GridModel, n: int, c: (Direction, Direction))
    requires
        0 <= n <= 9,
        m.boxes.len() == 9,
    ensures
        free_targets(m, n).contains(c) <==> (dir_index(c.0) < n && !spec_box_finished(
            m.boxes[dir_index(c.0)],
        ) && cell_of(m, c) is None),
    decreases n,
{
    lemma_direction_bijection(c.0, 0);
    if n > 0 {
        lemma_free_targets_membership(m, n - 1, c);
        lemma_targets_in_box_membership(m.boxes[n - 1].cells, dir_from_index(n - 1), 9, c);
        lemma_direction_bijection(dir_from_index(n - 1), n - 1);
        lemma_direction_bijection(c.1, 0);
        let prev = free_targets(m, n - 1);
        let cur = free_targets(m, n);
        if !spec_box_finished(m.boxes[n - 1]) {
            let add = targets_in_box(m.boxes[n - 1].cells, dir_from_index(n - 1), 9);
            assert(cur == prev + add);
            if cur.contains(c) {
                let i = choose|i: int| 0 <= i < cur.len() && cur[i] == c;
                if i < prev.len() {
                    assert(prev[i] == c);
                } else {
                    assert(add[i - prev.len()] == c);
                }
            }
            if dir_index(c.0) < n && !spec_box_finished(m.boxes[dir_index(c.0)]) && cell_of(m, c)
                is None {
                if dir_index(c.0) == n - 1 {
                    assert(c.0 == dir_from_index(n - 1));
                    let i = choose|i: int| 0 <= i < add.len() && add[i] == c;
                    assert(cur[prev.len() + i] == c);
                } else {
                    let i = choose|i: int| 0 <= i < prev.len() && prev[i] == c;
                    assert(cur[i] == c);
                }
            }
        } else {
            assert(cur == prev);
        }
    }
}

/// The legal-move enumeration is exact: under the derived track, a move is
/// listed among the valid targets exactly when the rules accept it.
pub proof fn lemma_valid_targets_exact(g: Grid, c: (Direction, Direction))
    requires
        g.wf(),
    ensures
        valid_targets(g@, track_of(g@)).contains(c) <==> apply_step(g@, c) is Ok,
{
    lemma_replay_invariants(g@.variant, coords_of(g@.turns), g@);
    lemma_direction_bijection(c.0, 0);
    lemma_direction_bijection(c.1, 0);
    match track_of(g@) {
        Some(d) => {
            lemma_direction_bijection(d, 0);
            lemma_targets_in_box_membership(g@.boxes[dir_index(d)].cells, d, 9, c);
        },
        None => {
            lemma_free_targets_membership(g@, 9, c);
        },
    }
}

/// The coordinate pair each recorded turn targeted, in history order.
pub open spec fn coords_of(ts: Seq<Turn>) -> Seq<(Direction, Direction)> {
    ts.map(|i: int, t: Turn| t.coords)
}

/// Folding a sequence of attempted moves over a fresh grid of the given
/// variant, stopping at the first rejected move.
pub open spec fn replay(v: Variant, cs: Seq<(Direction, Direction)>) -> Result<GridModel, UT3Error>
    decreases cs.len(),
{
    if cs.len() == 0 {
        Ok(initial_model(v))
    } else {
        match replay(v, cs.drop_last()) {
            Ok(m) => apply_step(m, cs.last()),
            Err(e) => Err(e),
        }
    }
}

/// A history whose turns target pairwise distinct cells has at most 81
/// entries: the cell indices are distinct values among the 81 possible.
proof fn lemma_distinct_coords_bound(ts: Seq<Turn>)
    requires
        forall|k1: int, k2: int|
            0 <= k1 < k2 < ts.len() ==> (#[trigger] ts[k1]).coords != (#[trigger] ts[k2]).coords,
    ensures
        ts.len() <= 81,
{
    let idxs = ts.map(|k: int, t: Turn| 9 * dir_index(t.coords.0) + dir_index(t.coords.1));
    assert forall|k1: int, k2: int| 0 <= k1 < k2 < idxs.len() implies idxs[k1] != idxs[k2] by {
        let c1 = ts[k1].coords;
        let c2 = ts[k2].coords;
        lemma_direction_bijection(c1.0, 0);
        lemma_direction_bijection(c1.1, 0);
        lemma_direction_bijection(c2.0, 0);
        lemma_direction_bijection(c2.1, 0);
        if c1.0 == c2.0 && c1.1 == c2.1 {
            assert(c1 == c2);
        }
    };
    assert(idxs.no_duplicates());
    idxs.unique_seq_to_set();
    assert forall|x: int| idxs.to_set().contains(x) implies 0 <= x < 81 by {
        let k = choose|k: int| 0 <= k < idxs.len() && idxs[k] == x;
        lemma_direction_bijection(ts[k].coords.0, 0);
        lemma_direction_bijection(ts[k].coords.1, 0);
    };
    vstd::set_lib::lemma_int_range(0, 81);
    vstd::set_lib::lemma_len_subset(idxs.to_set(), vstd::set_lib::set_int_range(0, 81));
}

/// Every state reached by replaying a history is internally consistent:
/// both winner caches match the cells, turns are numbered 1 upward with
/// players by parity, every recorded cell is occupied, no cell is recorded
/// twice, and hence at most 81 turns fit on the board.
pub proof fn lemma_replay_invariants(v: Variant, cs: Seq<(Direction, Direction)>, m: GridModel)
    requires
        replay(v, cs) == Ok::<GridModel, UT3Error>(m),
    ensures
        m.variant == v,
        m.boxes.len() == 9,
        forall|i: int| 0 <= i < 9 ==> (#[trigger] m.boxes[i]).cells.len() == 9,
        forall|i: int| 0 <= i < 9 ==> (#[trigger] m.boxes[i]).winner == win_of(m.boxes[i].cells),
        m.winner == win_of(Seq::new(9, |i: int| m.boxes[i].winner)),
        m.turns.len() == cs.len(),
        m.current_turn_number == cs.len() + 1,
        forall|k: int| 0 <= k < cs.len() ==> #[trigger] m.turns[k] == spec_turn((k + 1) as u32, cs[k]),
        forall|k: int| 0 <= k < cs.len() ==> cell_of(m, (#[trigger] m.turns[k]).coords) is Some,
        forall|k1: int, k2: int|
            0 <= k1 < k2 < cs.len() ==> (#[trigger] m.turns[k1]).coords != (#[trigger] m.turns[k2]).coords,
        cs.len() <= 81,
    decreases cs.len(),
{
    if cs.len() == 0 {
        assert(m == initial_model(v));
        assert(forall|i: int| 0 <= i < 9 ==> #[trigger] m.boxes[i] == empty_box());
    } else {
        let prefix = cs.drop_last();
        let prev = replay(v, prefix);
        assert(prev is Ok);
        let mp = prev->Ok_0;
        lemma_replay_invariants(v, prefix, mp);
        let c = cs.last();
        assert(apply_step(mp, c) == Ok::<GridModel, UT3Error>(m));
        assert(cell_of(mp, c) is None);
        assert(m == apply_move(mp, c));
        let bi = dir_index(c.0);
        let ci = dir_index(c.1);
        lemma_direction_bijection(c.0, 0);
        lemma_direction_bijection(c.1, 0);
        assert forall|i: int| 0 <= i < 9 implies (#[trigger] m.boxes[i]).cells.len() == 9 by {
            assert(mp.boxes[i].cells.len() == 9);
        };
        assert(Seq::new(9, |i: int| m.boxes[i].winner) =~= Seq::new(
            9,
            |i: int| win_of(m.boxes[i].cells),
        ));
        assert forall|k: int| 0 <= k < cs.len() implies cell_of(m, (#[trigger] m.turns[k]).coords) is Some by {
            if k < cs.len() - 1 {
                assert(cell_of(mp, mp.turns[k].coords) is Some);
                assert(m.turns[k] == mp.turns[k]);
            }
        };
        assert forall|k1: int, k2: int|
            0 <= k1 < k2 < cs.len() implies (#[trigger] m.turns[k1]).coords != (
        #[trigger] m.turns[k2]).coords by {
            if k2 < cs.len() - 1 {
                assert(mp.turns[k1].coords != mp.turns[k2].coords);
            } else {
                assert(cell_of(mp, mp.turns[k1].coords) is Some);
                assert(cell_of(mp, c) is None);
            }
        };
        lemma_distinct_coords_bound(m.turns);
    }
}

/// The caches of a well-formed grid are consistent: each sub-board's cached
/// winner is the win check over its own cells, the grid's cached winner is
/// the win check over the nine sub-board winners, and the turn counter is
/// one past the history.
pub proof fn lemma_cache_consistency(g: Grid)
    requires
        g.wf(),
    ensures
        forall|i: int|
            0 <= i < 9 ==> (#[trigger] g@.boxes[i]).winner == win_of(g@.boxes[i].cells),
        g@.winner == win_of(Seq::new(9, |i: int| g@.boxes[i].winner)),
        g@.current_turn_number == g@.turns.len() + 1,
        g@.turns.len() <= 81,
{
    lemma_replay_invariants(g@.variant, coords_of(g@.turns), g@);
}

/// A grid: the nine sub-boards, the append-only turn history that defines
/// them, the routing variant fixed at construction, and the cached winner.
#[derive(Debug)]
pub struct Grid {
    pub winner: Option<Player>,
    pub variant: Variant,
    pub current_turn_number: u32,
    pub turns: Vec<Turn>,
    pub inner: [Box; 9],
}

impl View for Grid {
    type V = GridModel;

    open spec fn view(&self) -> GridModel {
        GridModel {
            winner: self.winner,
            variant: self.variant,
            current_turn_number: self.current_turn_number,
            turns: self.turns@,
            boxes: Seq::new(9, |i: int| self.inner@[i]@),
        }
    }
}

impl Grid {
    /// A grid is well formed when its entire state — cells, caches, turn
    /// number — is exactly what replaying its own recorded history over a
    /// fresh grid of its variant produces.
    pub open spec fn wf(self) -> bool {
        replay(self@.variant, coords_of(self@.turns)) == Ok::<GridModel, UT3Error>(self@)
    }

    /// The sub-board at the given position.
    pub fn get_box(&self, idx: Direction) -> (r: &Box)
        ensures
            r@ == self@.boxes[dir_index(idx)],
    {
        &self.inner[idx.index()]
    }

    /// A mutable handle on the sub-board at the given position. Writing
    /// through it does not refresh the caches; the grid recomputes them
    /// after every move it applies.
    pub fn get_box_mut(&mut self, idx: Direction) -> (r: &mut Box)
        ensures
            *r == old(self).inner@[dir_index(idx)],
            final(self).inner@ == old(self).inner@.update(dir_index(idx), *final(r)),
            final(self).winner == old(self).winner,
            final(self).variant == old(self).variant,
            final(self).current_turn_number == old(self).current_turn_number,
            final(self).turns@ == old(self).turns@,
    {
        &mut self.inner[idx.index()]
    }

    /// Whether the sub-board at the given position takes no further moves.
    pub fn box_is_finished(&self, idx: Direction) -> (r: bool)
        ensures
            r == spec_box_finished(self@.boxes[dir_index(idx)]),
    {
        let b = self.get_box(idx);
        b.winner.is_some() || b.is_full()
    }

    /// The sub-board the next move must target, as [`track_of`] derives it
    /// from the last turn: `None` means a free choice.
    pub fn get_track(&self) -> (r: Option<Direction>)
        ensures
            r == track_of(self@),
    {
        if self.turns.len() > 0 {
            let prev = self.turns[self.turns.len() - 1];
            let d = match self.variant {
                Variant::Relative => prev.coords.0.combine(prev.coords.1),
                Variant::Absolute => prev.coords.1,
            };
            if self.box_is_finished(d) {
                None
            } else {
                Some(d)
            }
        } else {
            None
        }
    }

    /// Recomputes every cached winner from scratch: each sub-board's from
    /// its nine cells, then the grid's from the nine sub-board winners.
    fn update_wins(&mut self)
        ensures
            forall|i: int| 0 <= i < 9 ==> (#[trigger] final(self)@.boxes[i]).cells == old(self)@.boxes[i].cells,
            forall|i: int|
                0 <= i < 9 ==> (#[trigger] final(self)@.boxes[i]).winner == win_of(old(self)@.boxes[i].cells),
            final(self).winner == win_of(Seq::new(9, |i: int| win_of(old(self)@.boxes[i].cells))),
            final(self).variant == old(self).variant,
            final(self).current_turn_number == old(self).current_turn_number,
            final(self).turns@ == old(self).turns@,
    {
        let mut i: usize = 0;
        while i < 9
            invariant
                i <= 9,
                self.turns@ == old(self).turns@,
                self.variant == old(self).variant,
                self.current_turn_number == old(self).current_turn_number,
                self.winner == old(self).winner,
                forall|j: int| 0 <= j < 9 ==> (#[trigger] self.inner@[j]).inner@ == old(self).inner@[j].inner@,
                forall|j: int|
                    0 <= j < i ==> (#[trigger] self.inner@[j]).winner == win_of(old(self).inner@[j].inner@),
            decreases 9 - i,
        {
            let mut b = self.inner[i];
            let w = get_win(&b.inner);
            b.winner = w;
            self.inner[i] = b;
            i += 1;
        }
        let mut ws: [Option<Player>; 9] = [None; 9];
        let mut i: usize = 0;
        while i < 9
            invariant
                i <= 9,
                forall|j: int| 0 <= j < i ==> ws@[j] == win_of(old(self).inner@[j].inner@),
                self.turns@ == old(self).turns@,
                self.variant == old(self).variant,
                self.current_turn_number == old(self).current_turn_number,
                forall|j: int| 0 <= j < 9 ==> (#[trigger] self.inner@[j]).inner@ == old(self).inner@[j].inner@,
                forall|j: int|
                    0 <= j < 9 ==> (#[trigger] self.inner@[j]).winner == win_of(old(self).inner@[j].inner@),
            decreases 9 - i,
        {
            let b = self.inner[i];
            ws[i] = b.winner;
            i += 1;
        }
        let w = get_win(&ws);
        self.winner = w;
        proof {
            assert(ws@ =~= Seq::new(9, |i: int| win_of(old(self)@.boxes[i].cells)));
        }
    }

    /// Attempts one move, exactly as [`apply_step`] states it: the move
    /// must follow the track, land on an empty cell of an open sub-board;
    /// then the mark of the current turn number is set, the turn recorded,
    /// and both winner caches recomputed. A rejected move reports its error
    /// and leaves the grid untouched.
    pub fn apply_turn(&mut self, coords: (Direction, Direction)) -> (r: Result<(), UT3Error>)
        requires
            old(self).wf(),
        ensures
            final(self).wf(),
            match apply_step(old(self)@, coords) {
                Ok(m) => r is Ok && final(self)@ == m,
                Err(e) => r == Err::<(), UT3Error>(e) && *final(self) == *old(self),
            },
    {
        let track = self.get_track();
        if let Some(req) = track {
            if coords.0 != req {
                return Err(UT3Error::WrongTrack { required: req, got: coords.0 });
            }
        }
        let occupant = *self.get_box(coords.0).get_tile(coords.1);
        if let Some(p) = occupant {
            return Err(UT3Error::PositionTaken { position: coords, value: p });
        }
        if self.box_is_finished(coords.0) {
            return Err(UT3Error::BoxHasWinner(coords.0));
        }
        proof {
            lemma_replay_invariants(old(self)@.variant, coords_of(old(self)@.turns), old(self)@);
            lemma_direction_bijection(coords.0, 0);
            lemma_direction_bijection(coords.1, 0);
        }
        let turn = Turn::new(self.current_turn_number, coords);
        let bi = coords.0.index();
        let ci = coords.1.index();
        let mut b = self.inner[bi];
        b.inner[ci] = Some(turn.player);
        self.inner[bi] = b;
        let ghost marked_state = self@;
        proof {
            let mv = apply_move(old(self)@, coords);
            assert(marked_state.boxes =~~= old(self)@.boxes.update(
                dir_index(coords.0),
                BoxModel {
                    winner: old(self)@.boxes[dir_index(coords.0)].winner,
                    cells: old(self)@.boxes[dir_index(coords.0)].cells.update(
                        dir_index(coords.1),
                        Some(turn_player(old(self)@.current_turn_number)),
                    ),
                },
            ));
        }
        self.turns.push(turn);
        self.update_wins();
        self.current_turn_number = self.current_turn_number + 1;
        proof {
            let mv = apply_move(old(self)@, coords);
            assert(self@.boxes =~~= mv.boxes);
            assert(Seq::new(9, |i: int| win_of(marked_state.boxes[i].cells)) =~= Seq::new(
                9,
                |i: int| mv.boxes[i].winner,
            ));
            assert(self@ =~~= mv);
            assert(apply_step(old(self)@, coords) == Ok::<GridModel, UT3Error>(mv));
            let cs2 = coords_of(self@.turns);
            assert(cs2.drop_last() =~= coords_of(old(self)@.turns));
            assert(cs2.last() == coords);
            assert(replay(self@.variant, cs2) == Ok::<GridModel, UT3Error>(self@));
        }
        Ok(())
    }

    /// Every cell a move may legally target given a track, exactly as
    /// [`valid_targets`] lists it: the empty cells of the required
    /// sub-board, or those of every open sub-board when the choice is free,
    /// in sub-board-then-cell order. Derived afresh on every call.
    pub fn get_valid_boxes(&self, track: Option<Direction>) -> (r: Vec<(Direction, Direction)>)
        ensures
            r@ == valid_targets(self@, track),
    {
        let mut out: Vec<(Direction, Direction)> = Vec::new();
        match track {
            Some(d) => {
                let b = self.get_box(d);
                let mut j: usize = 0;
                while j < 9
                    invariant
                        j <= 9,
                        b@ == self@.boxes[dir_index(d)],
                        out@ == targets_in_box(self@.boxes[dir_index(d)].cells, d, j as int),
                    decreases 9 - j,
                {
                    let cell = Direction::from_index_unchecked(j);
                    proof {
                        lemma_direction_bijection(cell, j as int);
                    }
                    if b.get_tile(cell).is_none() {
                        out.push((d, cell));
                    }
                    j += 1;
                }
            },
            None => {
                let mut i: usize = 0;
                while i < 9
                    invariant
                        i <= 9,
                        out@ == free_targets(self@, i as int),
                    decreases 9 - i,
                {
                    let d1 = Direction::from_index_unchecked(i);
                    proof {
                        lemma_direction_bijection(d1, i as int);
                    }
                    let b = self.get_box(d1);
                    if b.winner.is_none() && !b.is_full() {
                        let mut j: usize = 0;
                        while j < 9
                            invariant
                                i < 9,
                                j <= 9,
                                d1 == dir_from_index(i as int),
                                dir_index(d1) == i as int,
                                b@ == self@.boxes[i as int],
                                !spec_box_finished(self@.boxes[i as int]),
                                out@ == free_targets(self@, i as int) + targets_in_box(
                                    self@.boxes[i as int].cells,
                                    d1,
                                    j as int,
                                ),
                            decreases 9 - j,
                        {
                            let cell = Direction::from_index_unchecked(j);
                            proof {
                                lemma_direction_bijection(cell, j as int);
                            }
                            if b.get_tile(cell).is_none() {
                                out.push((d1, cell));
                            }
                            j += 1;
                        }
                    }
                    i += 1;
                }
            },
        }
        out
    }

    /// Sets the routing variant of a freshly constructed grid. The variant
    /// is fixed before the first move; a grid with history keeps its rules.
    pub fn with_variant(self, variant: Variant) -> (r: Grid)
        requires
            self.wf(),
            self@.turns.len() == 0,
        ensures
            r.wf(),
            r@ == initial_model(variant),
    {
        proof {
            assert(coords_of(self@.turns) =~= Seq::<(Direction, Direction)>::empty());
            assert(self@ == initial_model(self@.variant));
        }
        let mut g = self;
        g.variant = variant;
        proof {
            assert(g@ =~~= initial_model(variant));
            assert(coords_of(g@.turns) =~= Seq::<(Direction, Direction)>::empty());
        }
        g
    }
}

impl Default for Grid {
    /// A fresh grid, as [`initial_model`] describes it, with the `Absolute`
    /// routing variant.
    fn default() -> (r: Grid)
        ensures
            r.wf(),
            r@ == initial_model(Variant::Absolute),
    {
        let b = Box { winner: None, inner: [None; 9] };
        let r = Grid {
            winner: None,
            variant: Variant::Absolute,
            current_turn_number: 1,
            turns: Vec::new(),
            inner: [b; 9],
        };
        proof {
            assert(r@ =~~= initial_model(Variant::Absolute));
            assert(coords_of(r@.turns) =~= Seq::<(Direction, Direction)>::empty());
        }
        r
    }
}

} // verus!
