//! Colours, moves, and the rules of play stated over a board's 64 cells.

use vstd::prelude::*;

use crate::bitboard::on_board;

verus! {

/// A count of discs, or a score made from such counts.
pub type Score = i32;

/// A row or column index.
pub type Pos = i8;

/// The colour of a disc, and of the player who places it.
#[derive(Clone, Copy, Debug, PartialEq, Eq, Structural)]
pub enum Colour {
    Black,
    White,
}

/// A disc of `player` placed at (row, col).
#[derive(Clone, Copy, Debug, PartialEq, Eq, Structural)]
pub struct Move {
    pub player: Colour,
    pub row: Pos,
    pub col: Pos,
}

/// The contents of the 64 cells of a board, row by row: cell (row, col) is at `row * 8 + col`.
pub type Cells = Seq<Option<Colour>>;

impl Colour {
    pub open spec fn spec_opponent(self) -> Colour {
        match self {
            Colour::Black => Colour::White,
            Colour::White => Colour::Black,
        }
    }

    pub open spec fn spec_sign(self) -> int {
        match self {
            Colour::Black => 1,
            Colour::White => -1,
        }
    }

    /// The other colour.
    #[verifier::when_used_as_spec(spec_opponent)]
    pub fn opponent(self) -> (r: Colour)
        ensures
            r == self.spec_opponent(),
    {
        match self {
            Colour::Black => Colour::White,
            Colour::White => Colour::Black,
        }
    }

    /// +1 for Black, -1 for White: a Black-minus-White difference times the sign is the
    /// difference as seen by this colour.
    pub fn sign(self) -> (r: Score)
        ensures
            r == self.spec_sign(),
    {
        match self {
            Colour::Black => 1,
            Colour::White => -1,
        }
    }
}

impl Move {
    /// The move's name in the usual notation: its column as a letter from `A`, then its row
    /// as a digit from `1`.
    pub fn name(&self) -> (r: (char, char))
        requires
            on_board(self.row as int, self.col as int),
        ensures
            r.0 as int == 65 + self.col,
            r.1 as int == 49 + self.row,
    {
        let colname = self.col as u8 + 65;
        let rowname = self.row as u8 + 49;
        (colname as char, rowname as char)
    }
}

/// Whether (row, col) lies off the board: either index has a bit outside the lowest three.
pub fn out_of_range(row: Pos, col: Pos) -> (r: bool)
    ensures
        r == !on_board(row as int, col as int),
{
    let r = (row | col) as u8 & 0b11111000u8 != 0;
    proof {
        assert(((row | col) as u8 & 0b11111000u8 != 0) == !(0 <= row < 8 && 0 <= col < 8)) by (bit_vector);
    }
    r
}

/// What cell (row, col) holds; nothing off the board.
pub open spec fn at(cells: Cells, row: int, col: int) -> Option<Colour> {
    if on_board(row, col) {
        cells[row * 8 + col]
    } else {
        None
    }
}

/// One of the eight compass steps.
pub open spec fn is_direction(dr: int, dc: int) -> bool {
    -1 <= dr <= 1 && -1 <= dc <= 1 && (dr != 0 || dc != 0)
}

/// `k` steps along (dr, dc) from (row, col) hold a disc of `colour`.
pub open spec fn holds_at(cells: Cells, colour: Colour, row: int, col: int, dr: int, dc: int, k: int) -> bool {
    at(cells, row + k * dr, col + k * dc) == Some(colour)
}

/// Seen from (row, col) along (dr, dc), the next `n` cells hold discs of `player`'s
/// opponent and the cell after them a disc of `player`: a disc placed at (row, col)
/// would flip those `n`.
pub open spec fn flanks(cells: Cells, player: Colour, row: int, col: int, dr: int, dc: int, n: int) -> bool {
    &&& n >= 1
    &&& forall|k: int| 1 <= k <= n ==> #[trigger] holds_at(cells, player.opponent(), row, col, dr, dc, k)
    &&& holds_at(cells, player, row, col, dr, dc, n + 1)
}

/// A disc of `player` at (row, col) would flip some discs in direction (dr, dc).
pub open spec fn captures(cells: Cells, player: Colour, row: int, col: int, dr: int, dc: int) -> bool {
    exists|n: int| flanks(cells, player, row, col, dr, dc, n)
}

/// `player` may place a disc at (row, col): the cell is an empty cell of the board and the
/// disc would flip at least one of the opponent's.
pub open spec fn is_legal(cells: Cells, player: Colour, row: int, col: int) -> bool {
    &&& on_board(row, col)
    &&& at(cells, row, col) is None
    &&& exists|dr: int, dc: int| is_direction(dr, dc) && captures(cells, player, row, col, dr, dc)
}

/// (r, c) is `k` steps along (dr, dc) from (row, col).
pub open spec fn on_ray(row: int, col: int, dr: int, dc: int, k: int, r: int, c: int) -> bool {
    r == row + k * dr && c == col + k * dc
}

/// A disc of `player` placed at (row, col) flips the disc at (r, c), which lies in
/// direction (dr, dc).
pub open spec fn flipped_along(cells: Cells, player: Colour, row: int, col: int, dr: int, dc: int, r: int, c: int) -> bool {
    exists|n: int, k: int|
        #[trigger] flanks(cells, player, row, col, dr, dc, n) && 1 <= k <= n
            && #[trigger] on_ray(row, col, dr, dc, k, r, c)
}

/// A disc of `player` placed at (row, col) flips the disc at (r, c).
pub open spec fn is_flipped(cells: Cells, player: Colour, row: int, col: int, r: int, c: int) -> bool {
    exists|dr: int, dc: int| is_direction(dr, dc) && #[trigger] flipped_along(cells, player, row, col, dr, dc, r, c)
}

/// The cells after `player` places a disc at (row, col): that cell and every flipped one
/// hold `player`'s colour, the rest is unchanged.
pub open spec fn after_move(cells: Cells, player: Colour, row: int, col: int) -> Cells {
    Seq::new(
        64,
        |i: int|
            if i == row * 8 + col || is_flipped(cells, player, row, col, i / 8, i % 8) {
                Some(player)
            } else {
                cells[i]
            },
    )
}

/// The move of `player` onto the cell with index `i`.
pub open spec fn move_at(player: Colour, i: int) -> Move {
    Move { player, row: (i / 8) as i8, col: (i % 8) as i8 }
}

/// The moves of `player` onto the cells with index `i` or more at which `f` holds, in
/// index order.
pub open spec fn moves_from(player: Colour, f: spec_fn(int) -> bool, i: int) -> Seq<Move>
    decreases 64 - i,
{
    if i >= 64 {
        Seq::empty()
    } else if f(i) {
        seq![move_at(player, i)] + moves_from(player, f, i + 1)
    } else {
        moves_from(player, f, i + 1)
    }
}

/// The legal moves of `player`, in row-major order.
pub open spec fn legal_moves(cells: Cells, player: Colour) -> Seq<Move> {
    moves_from(player, |i: int| is_legal(cells, player, i / 8, i % 8), 0)
}

/// The number of the first `n` cells that hold `colour`.
pub open spec fn count_prefix(cells: Cells, colour: Colour, n: int) -> int
    decreases n,
{
    if n <= 0 {
        0
    } else {
        count_prefix(cells, colour, n - 1) + if cells[n - 1] == Some(colour) {
            1int
        } else {
            0int
        }
    }
}

/// The number of discs of `colour` on the board.
pub open spec fn count(cells: Cells, colour: Colour) -> int {
    count_prefix(cells, colour, 64)
}

/// The empty board.
pub open spec fn empty_cells() -> Cells {
    Seq::new(64, |i: int| None)
}

/// The starting position: Black at (3, 3) and (4, 4), White at (3, 4) and (4, 3).
pub open spec fn initial_cells() -> Cells {
    empty_cells().update(27, Some(Colour::Black)).update(28, Some(Colour::White)).update(
        35,
        Some(Colour::White),
    ).update(36, Some(Colour::Black))
}

/// A representation of the board's 64 cells, with the moves and captures of the game.
pub trait Board: Sized {
    /// What each cell holds.
    spec fn cells(&self) -> Cells;

    /// The representation's invariant.
    spec fn wf(&self) -> bool;

    proof fn lemma_cells_len(&self)
        requires
            self.wf(),
        ensures
            self.cells().len() == 64,
    ;

    /// A board with no discs.
    fn empty() -> (b: Self)
        ensures
            b.wf(),
            b.cells() == empty_cells(),
    ;

    /// The starting position.
    fn new() -> (b: Self)
        ensures
            b.wf(),
            b.cells() == initial_cells(),
    {
        let mut board = Self::empty();
        board.set(3, 3, Some(Colour::Black));
        board.set(3, 4, Some(Colour::White));
        board.set(4, 3, Some(Colour::White));
        board.set(4, 4, Some(Colour::Black));
        board
    }

    /// Whether `mov` is legal for `mov.player`.
    fn is_valid_move(&self, mov: Move) -> (r: bool)
        requires
            self.wf(),
        ensures
            r == is_legal(self.cells(), mov.player, mov.row as int, mov.col as int),
    ;

    /// The legal moves of `for_player`, in row-major order.
    fn moves(&self, for_player: Colour) -> (r: Vec<Move>)
        requires
            self.wf(),
        ensures
            r@ == legal_moves(self.cells(), for_player),
    ;

    /// The board after the legal move `mov`.
    fn apply(&self, mov: Move) -> (r: Self)
        requires
            self.wf(),
            is_legal(self.cells(), mov.player, mov.row as int, mov.col as int),
        ensures
            r.wf(),
            r.cells() == after_move(self.cells(), mov.player, mov.row as int, mov.col as int),
    ;

    /// What the cell (row, col) holds.
    fn get(&self, row: Pos, col: Pos) -> (r: Option<Colour>)
        requires
            self.wf(),
            on_board(row as int, col as int),
        ensures
            r == at(self.cells(), row as int, col as int),
    ;

    /// Puts `value` in the cell (row, col).
    fn set(&mut self, row: Pos, col: Pos, value: Option<Colour>)
        requires
            old(self).wf(),
            on_board(row as int, col as int),
        ensures
            final(self).wf(),
            final(self).cells() == old(self).cells().update(row * 8 + col, value),
    ;

    /// The numbers of Black and of White discs.
    fn scores(&self) -> (r: (Score, Score))
        requires
            self.wf(),
        ensures
            r.0 == count(self.cells(), Colour::Black),
            r.1 == count(self.cells(), Colour::White),
    ;
}

/// The eight compass steps as (row step, column step).
pub open spec fn directions() -> Seq<(Pos, Pos)> {
    seq![(-1i8, -1i8), (-1i8, 0i8), (-1i8, 1i8), (0i8, -1i8), (0i8, 1i8), (1i8, -1i8), (1i8, 0i8), (1i8, 1i8)]
}

/// The eight compass steps, in the order in which the dense board visits them.
pub fn direction_list() -> (r: Vec<(Pos, Pos)>)
    ensures
        r@ == directions(),
{
    vec![(-1, -1), (-1, 0), (-1, 1), (0, -1), (0, 1), (1, -1), (1, 0), (1, 1)]
}

/// The eight listed steps are exactly the compass steps.
pub proof fn lemma_directions()
    ensures
        directions().len() == 8,
        forall|j: int| 0 <= j < 8 ==> is_direction(#[trigger] directions()[j].0 as int, directions()[j].1 as int),
        forall|dr: int, dc: int| is_direction(dr, dc) ==> exists|j: int|
            0 <= j < 8 && #[trigger] directions()[j].0 as int == dr && directions()[j].1 as int == dc,
{
    let d = directions();
    assert forall|dr: int, dc: int| is_direction(dr, dc) implies exists|j: int|
        0 <= j < 8 && #[trigger] directions()[j].0 as int == dr && directions()[j].1 as int == dc by {
        if dr == -1 && dc == -1 { assert(d[0].0 as int == dr && d[0].1 as int == dc); }
        else if dr == -1 && dc == 0 { assert(d[1].0 as int == dr && d[1].1 as int == dc); }
        else if dr == -1 && dc == 1 { assert(d[2].0 as int == dr && d[2].1 as int == dc); }
        else if dr == 0 && dc == -1 { assert(d[3].0 as int == dr && d[3].1 as int == dc); }
        else if dr == 0 && dc == 1 { assert(d[4].0 as int == dr && d[4].1 as int == dc); }
        else if dr == 1 && dc == -1 { assert(d[5].0 as int == dr && d[5].1 as int == dc); }
        else if dr == 1 && dc == 0 { assert(d[6].0 as int == dr && d[6].1 as int == dc); }
        else { assert(d[7].0 as int == dr && d[7].1 as int == dc); }
    }
}

/// Steps along a ray add up.
pub proof fn lemma_steps(i: int, j: int, d: int)
    ensures
        i * d + j * d == (i + j) * d,
        i * (-d) == -(i * d),
        0 * d == 0,
        1 * d == d,
{
    assert(i * d + j * d == (i + j) * d) by (nonlinear_arith);
    assert(i * (-d) == -(i * d)) by (nonlinear_arith);
}

/// A ray from a board cell stays on the board for at most seven steps.
pub proof fn lemma_ray_short(row: int, col: int, dr: int, dc: int, k: int)
    requires
        is_direction(dr, dc),
        on_board(row, col),
        on_board(row + k * dr, col + k * dc),
        k >= 0,
    ensures
        k <= 7,
{
    if dr == 1 || dr == -1 {
        assert(k * dr == k || k * dr == -k) by (nonlinear_arith)
            requires dr == 1 || dr == -1;
    } else {
        assert(k * dc == k || k * dc == -k) by (nonlinear_arith)
            requires dc == 1 || dc == -1;
    }
}

/// A run of `count` opponent discs followed by a cell that is not the opponent's is the only
/// run that can flank: any flanking run has exactly that length.
pub proof fn lemma_run_unique(cells: Cells, player: Colour, row: int, col: int, dr: int, dc: int, count: int, n: int)
    requires
        count >= 0,
        forall|k: int| 1 <= k <= count ==> #[trigger] holds_at(cells, player.opponent(), row, col, dr, dc, k),
        !holds_at(cells, player.opponent(), row, col, dr, dc, count + 1),
        flanks(cells, player, row, col, dr, dc, n),
    ensures
        n == count,
        holds_at(cells, player, row, col, dr, dc, count + 1),
{
    if n < count {
        assert(holds_at(cells, player.opponent(), row, col, dr, dc, n + 1));
    } else if n > count {
        assert(holds_at(cells, player.opponent(), row, col, dr, dc, count + 1));
    }
}

/// Every move listed by `moves_from` is `player`'s move onto an index at which `f` holds.
pub proof fn lemma_moves_from_members(player: Colour, f: spec_fn(int) -> bool, i: int)
    requires
        0 <= i <= 64,
    ensures
        moves_from(player, f, i).len() <= 64 - i,
        forall|q: int| 0 <= q < moves_from(player, f, i).len() ==> exists|j: int|
            i <= j < 64 && f(j) && #[trigger] moves_from(player, f, i)[q] == move_at(player, j),
    decreases 64 - i,
{
    if i < 64 {
        lemma_moves_from_members(player, f, i + 1);
        let rest = moves_from(player, f, i + 1);
        if f(i) {
            let all = seq![move_at(player, i)] + rest;
            assert forall|q: int| 0 <= q < all.len() implies exists|j: int|
                i <= j < 64 && f(j) && #[trigger] all[q] == move_at(player, j) by {
                if q == 0 {
                    assert(all[q] == move_at(player, i));
                } else {
                    assert(all[q] == rest[q - 1]);
                }
            }
        }
    }
}

/// Every listed legal move is `player`'s and legal.
pub proof fn lemma_legal_moves_legal(cells: Cells, player: Colour)
    ensures
        legal_moves(cells, player).len() <= 64,
        forall|q: int| 0 <= q < legal_moves(cells, player).len() ==> {
            let m = #[trigger] legal_moves(cells, player)[q];
            m.player == player && is_legal(cells, player, m.row as int, m.col as int)
        },
{
    let f = |i: int| is_legal(cells, player, i / 8, i % 8);
    lemma_moves_from_members(player, f, 0);
    assert forall|q: int| 0 <= q < legal_moves(cells, player).len() implies {
        let m = #[trigger] legal_moves(cells, player)[q];
        m.player == player && is_legal(cells, player, m.row as int, m.col as int)
    } by {
        let j = choose|j: int| 0 <= j < 64 && f(j) && #[trigger] moves_from(player, f, 0)[q] == move_at(player, j);
        assert(0 <= j / 8 < 8 && 0 <= j % 8 < 8);
    }
}

/// Indices at which `f` fails add no move.
pub proof fn lemma_moves_from_skip(player: Colour, f: spec_fn(int) -> bool, i: int, k: int)
    requires
        i <= k <= 64,
        forall|j: int| i <= j < k ==> !#[trigger] f(j),
    ensures
        moves_from(player, f, i) == moves_from(player, f, k),
    decreases k - i,
{
    if i < k {
        lemma_moves_from_skip(player, f, i + 1, k);
    }
}

/// Conditions that agree from `i` on list the same moves from `i` on.
pub proof fn lemma_moves_from_agree(player: Colour, f: spec_fn(int) -> bool, g: spec_fn(int) -> bool, i: int)
    requires
        forall|j: int| i <= j < 64 ==> #[trigger] f(j) == g(j),
    ensures
        moves_from(player, f, i) == moves_from(player, g, i),
    decreases 64 - i,
{
    if i < 64 {
        lemma_moves_from_agree(player, f, g, i + 1);
    }
}

/// Disc counts are never negative, and Black's and White's together never exceed the cells
/// counted.
pub proof fn lemma_count_bounds(cells: Cells, n: int)
    requires
        0 <= n,
    ensures
        0 <= count_prefix(cells, Colour::Black, n),
        0 <= count_prefix(cells, Colour::White, n),
        count_prefix(cells, Colour::Black, n) + count_prefix(cells, Colour::White, n) <= n,
    decreases n,
{
    if n > 0 {
        lemma_count_bounds(cells, n - 1);
    }
}

proof fn lemma_moves_from_one_more(player: Colour, f: spec_fn(int) -> bool, i: int, j: int)
    requires
        0 <= i <= j < 64,
        f(j),
    ensures
        moves_from(player, f, i).len() >= moves_from(player, f, j + 1).len() + 1,
    decreases j - i,
{
    if i < j {
        lemma_moves_from_one_more(player, f, i + 1, j);
    }
}

/// In the starting position Black has at least four legal moves: (2, 4), (3, 5), (4, 2)
/// and (5, 3).
pub proof fn lemma_initial_moves()
    ensures
        legal_moves(initial_cells(), Colour::Black).len() >= 4,
{
    let cells = initial_cells();
    let b = Colour::Black;
    let f = |i: int| is_legal(cells, b, i / 8, i % 8);
    assert(cells[27] == Some(Colour::Black) && cells[36] == Some(Colour::Black));
    assert(cells[28] == Some(Colour::White) && cells[35] == Some(Colour::White));
    assert(cells[20] is None && cells[29] is None && cells[34] is None && cells[43] is None);
    assert(flanks(cells, b, 2, 4, 1, 0, 1)) by {
        assert(holds_at(cells, b.opponent(), 2, 4, 1, 0, 1));
        assert(holds_at(cells, b, 2, 4, 1, 0, 2));
    }
    assert(is_direction(1, 0) && captures(cells, b, 2, 4, 1, 0));
    assert(flanks(cells, b, 3, 5, 0, -1, 1)) by {
        assert(holds_at(cells, b.opponent(), 3, 5, 0, -1, 1));
        assert(holds_at(cells, b, 3, 5, 0, -1, 2));
    }
    assert(is_direction(0, -1) && captures(cells, b, 3, 5, 0, -1));
    assert(flanks(cells, b, 4, 2, 0, 1, 1)) by {
        assert(holds_at(cells, b.opponent(), 4, 2, 0, 1, 1));
        assert(holds_at(cells, b, 4, 2, 0, 1, 2));
    }
    assert(is_direction(0, 1) && captures(cells, b, 4, 2, 0, 1));
    assert(flanks(cells, b, 5, 3, -1, 0, 1)) by {
        assert(holds_at(cells, b.opponent(), 5, 3, -1, 0, 1));
        assert(holds_at(cells, b, 5, 3, -1, 0, 2));
    }
    assert(is_direction(-1, 0) && captures(cells, b, 5, 3, -1, 0));
    assert(f(20) && f(29) && f(34) && f(43));
    lemma_moves_from_one_more(b, f, 0, 20);
    lemma_moves_from_one_more(b, f, 21, 29);
    lemma_moves_from_one_more(b, f, 30, 34);
    lemma_moves_from_one_more(b, f, 35, 43);
}

proof fn lemma_count_holds(cells: Cells, colour: Colour, n: int, i: int)
    requires
        0 <= i < n,
        cells[i] == Some(colour),
    ensures
        count_prefix(cells, colour, n) >= 1,
    decreases n,
{
    if i < n - 1 {
        lemma_count_holds(cells, colour, n - 1, i);
    } else {
        lemma_count_bounds(cells, n - 1);
    }
    lemma_count_bounds(cells, n);
}

/// A player without a disc on the board has no legal move: every capture ends on one of the
/// player's own discs.
pub proof fn lemma_no_discs_no_moves(cells: Cells, player: Colour)
    requires
        count(cells, player) == 0,
    ensures
        legal_moves(cells, player).len() == 0,
{
    let f = |i: int| is_legal(cells, player, i / 8, i % 8);
    assert forall|i: int| 0 <= i < 64 implies !#[trigger] f(i) by {
        let row = i / 8;
        let col = i % 8;
        if is_legal(cells, player, row, col) {
            let (dr, dc) = choose|dr: int, dc: int| is_direction(dr, dc) && captures(cells, player, row, col, dr, dc);
            let n = choose|n: int| flanks(cells, player, row, col, dr, dc, n);
            assert(holds_at(cells, player, row, col, dr, dc, n + 1));
            let r = row + (n + 1) * dr;
            let c = col + (n + 1) * dc;
            assert(on_board(r, c));
            lemma_count_holds(cells, player, 64, r * 8 + c);
        }
    }
    lemma_moves_from_skip(player, f, 0, 64);
}

} // verus!
