//! The compact board: one mask per colour, with moves and captures computed by
//! bit-parallel fills.

use vstd::prelude::*;

use crate::bitboard::{
    all_dirs, bit, dumb7fill, dumb7fill_occluded, has_back, lemma_all_dirs, lemma_cell_index, lemma_index_cell,
    on_board, ones_below, shift_dc, shift_dr, slides, valid_shift, BitBoard, ShiftDir,
};
use crate::game::{
    after_move, at, captures, count, count_prefix, empty_cells, flanks, flipped_along, holds_at, is_direction,
    is_flipped, is_legal, lemma_moves_from_agree, lemma_moves_from_skip, lemma_steps, legal_moves, move_at, moves_from,
    Board, Cells, Colour, Move, Pos, Score,
};

verus! {

/// The compact board: the cells holding Black discs and those holding White ones.
#[derive(Clone, Copy, Debug, PartialEq, Eq, Structural)]
pub struct BitBoardBoard {
    blacks: BitBoard,
    whites: BitBoard,
}

/// The moves of one player onto the cells of a mask, handed out lowest cell first.
#[derive(Clone, Copy, Debug)]
pub struct Moves(pub Colour, pub BitBoard);

impl Moves {
    /// The move onto the lowest cell left, which is taken out; `None` when no cell is left.
    pub fn next(&mut self) -> (r: Option<Move>)
        ensures
            final(self).0 == old(self).0,
            old(self).1.0 == 0 ==> r is None && final(self).1 == old(self).1,
            old(self).1.0 != 0 ==> {
                let t = old(self).1.lowest();
                &&& 0 <= t < 64
                &&& old(self).1.has_index(t)
                &&& forall|i: int| i < t ==> !#[trigger] old(self).1.has_index(i)
                &&& r == Some(move_at(old(self).0, t))
                &&& forall|i: int| #[trigger] final(self).1.has_index(i) == (old(self).1.has_index(i) && i != t)
                &&& final(self).1.0 < old(self).1.0
            },
    {
        let nb = self.1.pop_next_bit();
        if nb.is_empty() {
            proof {
                if old(self).1.0 != 0 {
                    lemma_index_cell(nb, old(self).1.lowest());
                }
            }
            None
        } else {
            let (row, col) = nb.to_bit_pos();
            proof {
                vstd::std_specs::bits::axiom_u64_trailing_zeros(nb.0);
                assert(nb.has_index(nb.lowest()));
                assert(nb.lowest() == old(self).1.lowest());
            }
            Some(Move { player: self.0, row, col })
        }
    }
}

/// `shift_dir` from a cell of `mine`, over one to six cells of `theirs`, one step more ends
/// on (row, col).
pub open spec fn dir_move(mine: BitBoard, theirs: BitBoard, shift_dir: ShiftDir, row: int, col: int) -> bool {
    on_board(row, col) && exists|k: int|
        1 <= k <= 6 && #[trigger] slides(
            mine,
            theirs,
            shift_dr(shift_dir.delta()),
            shift_dc(shift_dir.delta()),
            k,
            row - shift_dr(shift_dir.delta()),
            col - shift_dc(shift_dir.delta()),
        )
}

/// The moves in direction `shift_dir`: the empty or occupied cells one step beyond a run
/// of `theirs` that starts next to a cell of `mine`.
fn moves_in_dir(mine: BitBoard, theirs: BitBoard, shift_dir: ShiftDir) -> (r: BitBoard)
    ensures
        forall|row: int, col: int| #[trigger] r.has(row, col) == dir_move(mine, theirs, shift_dir, row, col),
{
    let moves = dumb7fill_occluded(mine, theirs, shift_dir.shift());
    moves.shift(shift_dir.shift())
}

/// The moves of `player` onto the cells of `b` with index `i` or more, in index order.
pub open spec fn mask_moves_from(player: Colour, b: BitBoard, i: int) -> Seq<Move> {
    moves_from(player, |j: int| b.has_index(j), i)
}

/// `mine` and `theirs` are the discs of `player` and of the opponent in `cells`.
pub open spec fn masks_of(cells: Cells, player: Colour, mine: BitBoard, theirs: BitBoard) -> bool {
    &&& forall|r: int, c: int| #[trigger] mine.has(r, c) == (at(cells, r, c) == Some(player))
    &&& forall|r: int, c: int| #[trigger] theirs.has(r, c) == (at(cells, r, c) == Some(player.opponent()))
}

proof fn lemma_flanks_slides(
    cells: Cells,
    player: Colour,
    mine: BitBoard,
    theirs: BitBoard,
    dr: int,
    dc: int,
    row: int,
    col: int,
    n: int,
)
    requires
        masks_of(cells, player, mine, theirs),
        n >= 1,
    ensures
        flanks(cells, player, row, col, -dr, -dc, n) == slides(mine, theirs, dr, dc, n, row - dr, col - dc),
{
    assert((row - dr) - n * dr == row + (n + 1) * (-dr)) by (nonlinear_arith);
    assert((col - dc) - n * dc == col + (n + 1) * (-dc)) by (nonlinear_arith);
    assert(has_back(mine, dr, dc, n, row - dr, col - dc) == holds_at(cells, player, row, col, -dr, -dc, n + 1));
    if flanks(cells, player, row, col, -dr, -dc, n) {
        assert forall|j: int| 0 <= j < n implies #[trigger] has_back(theirs, dr, dc, j, row - dr, col - dc) by {
            assert((row - dr) - j * dr == row + (j + 1) * (-dr)) by (nonlinear_arith);
            assert((col - dc) - j * dc == col + (j + 1) * (-dc)) by (nonlinear_arith);
            assert(holds_at(cells, player.opponent(), row, col, -dr, -dc, j + 1));
        }
    }
    if slides(mine, theirs, dr, dc, n, row - dr, col - dc) {
        assert forall|k: int| 1 <= k <= n implies #[trigger] holds_at(cells, player.opponent(), row, col, -dr, -dc, k) by {
            assert((row - dr) - (k - 1) * dr == row + k * (-dr)) by (nonlinear_arith);
            assert((col - dc) - (k - 1) * dc == col + k * (-dc)) by (nonlinear_arith);
            assert(has_back(theirs, dr, dc, k - 1, row - dr, col - dc));
        }
    }
}

proof fn lemma_flank_short(cells: Cells, player: Colour, row: int, col: int, dr: int, dc: int, n: int)
    requires
        crate::game::is_direction(dr, dc),
        on_board(row, col),
        flanks(cells, player, row, col, dr, dc, n),
    ensures
        n <= 6,
{
    assert(holds_at(cells, player, row, col, dr, dc, n + 1));
    crate::game::lemma_ray_short(row, col, dr, dc, n + 1);
}

/// The shared hypotheses of the flip lemmas.
pub open spec fn flip_setting(
    cells: Cells,
    player: Colour,
    mine: BitBoard,
    theirs: BitBoard,
    s: BitBoard,
    dr: int,
    dc: int,
    er: int,
    ec: int,
    row: int,
    col: int,
) -> bool {
    &&& masks_of(cells, player, mine, theirs)
    &&& crate::game::is_direction(dr, dc)
    &&& er == -dr
    &&& ec == -dc
    &&& on_board(row, col)
    &&& at(cells, row, col) is None
    &&& forall|x: int, y: int| #[trigger] s.has(x, y) == (x == row && y == col)
}

proof fn lemma_flip_spans_sound(
    cells: Cells,
    player: Colour,
    mine: BitBoard,
    theirs: BitBoard,
    s: BitBoard,
    dr: int,
    dc: int,
    er: int,
    ec: int,
    row: int,
    col: int,
    r: int,
    c: int,
    k: int,
    m: int,
)
    requires
        flip_setting(cells, player, mine, theirs, s, dr, dc, er, ec, row, col),
        0 <= k <= 6,
        0 <= m <= 6,
        slides(mine, theirs, dr, dc, k, r, c),
        slides(s, theirs, er, ec, m, r, c),
    ensures
        crate::game::flipped_along(cells, player, row, col, er, ec, r, c),
{
    let opp = player.opponent();
    lemma_steps(0, 0, dr);
    lemma_steps(0, 0, dc);
    lemma_steps(m, 0, dr);
    lemma_steps(m, 0, dc);
    assert(has_back(s, er, ec, m, r, c));
    assert(has_back(mine, dr, dc, k, r, c));
    if k == 0 {
        assert(mine.has(r, c));
        if m == 0 {
            assert(s.has(r, c));
        } else {
            assert(has_back(theirs, er, ec, 0, r, c));
        }
        assert(false);
    } else if m == 0 {
        assert(s.has(r, c));
        assert(has_back(theirs, dr, dc, 0, r, c));
        assert(false);
    } else {
        assert(row == r + m * dr && col == c + m * dc);
        let n = m + k - 1;
        assert forall|i: int| 1 <= i <= n implies #[trigger] holds_at(cells, opp, row, col, er, ec, i) by {
            lemma_steps(i, 0, dr);
            lemma_steps(i, 0, dc);
            if i <= m {
                let j = m - i;
                lemma_steps(j, 0, dr);
                lemma_steps(j, 0, dc);
                lemma_steps(j, i, dr);
                lemma_steps(j, i, dc);
                assert(has_back(theirs, er, ec, j, r, c));
            } else {
                let j = i - m;
                lemma_steps(j, m, dr);
                lemma_steps(j, m, dc);
                assert(has_back(theirs, dr, dc, j, r, c));
            }
        }
        lemma_steps(n + 1, 0, dr);
        lemma_steps(n + 1, 0, dc);
        lemma_steps(k, m, dr);
        lemma_steps(k, m, dc);
        assert(holds_at(cells, player, row, col, er, ec, n + 1));
        assert(flanks(cells, player, row, col, er, ec, n));
        assert(crate::game::on_ray(row, col, er, ec, m, r, c));
    }
}

proof fn lemma_flip_spans_complete(
    cells: Cells,
    player: Colour,
    mine: BitBoard,
    theirs: BitBoard,
    s: BitBoard,
    dr: int,
    dc: int,
    er: int,
    ec: int,
    row: int,
    col: int,
    r: int,
    c: int,
    n: int,
    kk: int,
)
    requires
        flip_setting(cells, player, mine, theirs, s, dr, dc, er, ec, row, col),
        flanks(cells, player, row, col, er, ec, n),
        1 <= kk <= n,
        crate::game::on_ray(row, col, er, ec, kk, r, c),
    ensures
        slides(mine, theirs, dr, dc, n + 1 - kk, r, c),
        slides(s, theirs, er, ec, kk, r, c),
        n <= 6,
{
    let opp = player.opponent();
    lemma_flank_short(cells, player, row, col, er, ec, n);
    lemma_steps(kk, 0, dr);
    lemma_steps(kk, 0, dc);
    assert(r == row - kk * dr && c == col - kk * dc);
    assert(has_back(s, er, ec, kk, r, c));
    assert forall|j: int| 0 <= j < kk implies #[trigger] has_back(theirs, er, ec, j, r, c) by {
        lemma_steps(j, 0, dr);
        lemma_steps(j, 0, dc);
        lemma_steps(kk - j, j, dr);
        lemma_steps(kk - j, j, dc);
        lemma_steps(kk - j, 0, dr);
        lemma_steps(kk - j, 0, dc);
        assert(holds_at(cells, opp, row, col, er, ec, kk - j));
    }
    let k = n + 1 - kk;
    lemma_steps(k, kk, dr);
    lemma_steps(k, kk, dc);
    lemma_steps(n + 1, 0, dr);
    lemma_steps(n + 1, 0, dc);
    assert(holds_at(cells, player, row, col, er, ec, n + 1));
    assert(has_back(mine, dr, dc, k, r, c));
    assert forall|j: int| 0 <= j < k implies #[trigger] has_back(theirs, dr, dc, j, r, c) by {
        lemma_steps(j, kk, dr);
        lemma_steps(j, kk, dc);
        lemma_steps(kk + j, 0, dr);
        lemma_steps(kk + j, 0, dc);
        assert(holds_at(cells, opp, row, col, er, ec, kk + j));
    }
}

proof fn lemma_dir_move_captures(
    cells: Cells,
    player: Colour,
    mine: BitBoard,
    theirs: BitBoard,
    d: ShiftDir,
    row: int,
    col: int,
)
    requires
        masks_of(cells, player, mine, theirs),
        valid_shift(d.delta()),
        on_board(row, col),
    ensures
        dir_move(mine, theirs, d, row, col) == captures(
            cells,
            player,
            row,
            col,
            -shift_dr(d.delta()),
            -shift_dc(d.delta()),
        ),
{
    lemma_all_dirs();
    let dr = shift_dr(d.delta());
    let dc = shift_dc(d.delta());
    if dir_move(mine, theirs, d, row, col) {
        let k = choose|k: int| 1 <= k <= 6 && #[trigger] slides(mine, theirs, dr, dc, k, row - dr, col - dc);
        lemma_flanks_slides(cells, player, mine, theirs, dr, dc, row, col, k);
        assert(flanks(cells, player, row, col, -dr, -dc, k));
    }
    let er = -dr;
    let ec = -dc;
    if captures(cells, player, row, col, er, ec) {
        let n = choose|n: int| flanks(cells, player, row, col, er, ec, n);
        lemma_flank_short(cells, player, row, col, -dr, -dc, n);
        lemma_flanks_slides(cells, player, mine, theirs, dr, dc, row, col, n);
        assert(slides(mine, theirs, dr, dc, n, row - dr, col - dc));
    }
}

proof fn lemma_legal_from_dirs(cells: Cells, player: Colour, mine: BitBoard, theirs: BitBoard, row: int, col: int)
    requires
        masks_of(cells, player, mine, theirs),
        on_board(row, col),
    ensures
        (exists|j: int| 0 <= j < 8 && #[trigger] dir_move(mine, theirs, all_dirs()[j], row, col)) == exists|
            dr: int,
            dc: int,
        | is_direction(dr, dc) && #[trigger] captures(cells, player, row, col, dr, dc),
{
    lemma_all_dirs();
    if exists|j: int| 0 <= j < 8 && #[trigger] dir_move(mine, theirs, all_dirs()[j], row, col) {
        let j = choose|j: int| 0 <= j < 8 && #[trigger] dir_move(mine, theirs, all_dirs()[j], row, col);
        let d = all_dirs()[j];
        lemma_dir_move_captures(cells, player, mine, theirs, d, row, col);
        assert(is_direction(-shift_dr(d.delta()), -shift_dc(d.delta())));
    }
    if exists|dr: int, dc: int| is_direction(dr, dc) && #[trigger] captures(cells, player, row, col, dr, dc) {
        let (dr, dc) = choose|dr: int, dc: int| is_direction(dr, dc) && #[trigger] captures(cells, player, row, col, dr, dc);
        let j = choose|j: int|
            0 <= j < 8 && shift_dr(#[trigger] all_dirs()[j].delta()) == -dr && shift_dc(all_dirs()[j].delta()) == -dc;
        lemma_dir_move_captures(cells, player, mine, theirs, all_dirs()[j], row, col);
        assert(dir_move(mine, theirs, all_dirs()[j], row, col));
    }
}

impl BitBoardBoard {
    /// The mask of `player`'s discs.
    pub closed spec fn mine_of(self, player: Colour) -> BitBoard {
        if player == Colour::Black {
            self.blacks
        } else {
            self.whites
        }
    }

    /// The mask of the discs of `player`'s opponent.
    pub closed spec fn theirs_of(self, player: Colour) -> BitBoard {
        if player == Colour::Black {
            self.whites
        } else {
            self.blacks
        }
    }

    proof fn lemma_masks(self, player: Colour)
        requires
            self.wf(),
        ensures
            masks_of(self.cells(), player, self.mine_of(player), self.theirs_of(player)),
    {
        let cells = self.cells();
        assert forall|r: int, c: int| #[trigger] self.mine_of(player).has(r, c) == (at(cells, r, c) == Some(player)) by {
            if on_board(r, c) {
                lemma_cell_index(self.blacks, r, c);
                lemma_cell_index(self.whites, r, c);
            }
        }
        assert forall|r: int, c: int| #[trigger] self.theirs_of(player).has(r, c) == (at(cells, r, c) == Some(player.opponent())) by {
            if on_board(r, c) {
                lemma_cell_index(self.blacks, r, c);
                lemma_cell_index(self.whites, r, c);
            }
        }
    }

    /// The mask of the cells onto which `player` may move.
    pub fn move_mask(&self, player: Colour) -> (r: BitBoard)
        requires
            self.wf(),
        ensures
            forall|row: int, col: int| #[trigger] r.has(row, col) == is_legal(self.cells(), player, row, col),
    {
        let (mine, theirs) = match player {
            Colour::Black => (self.blacks, self.whites),
            Colour::White => (self.whites, self.blacks),
        };
        proof {
            self.lemma_masks(player);
            lemma_all_dirs();
        }
        let dirs = ShiftDir::all();
        let mut moves = BitBoard::new();
        let mut i: usize = 0;
        while i < 8
            invariant
                0 <= i <= 8,
                dirs@ == all_dirs(),
                forall|row: int, col: int| #[trigger] moves.has(row, col) == exists|j: int|
                    0 <= j < i && #[trigger] dir_move(mine, theirs, all_dirs()[j], row, col),
            decreases 8 - i,
        {
            let dm = moves_in_dir(mine, theirs, dirs[i]);
            let ghost prev = moves;
            moves = moves.or(dm);
            proof {
                assert forall|row: int, col: int| #[trigger] moves.has(row, col) == exists|j: int|
                    0 <= j < i + 1 && #[trigger] dir_move(mine, theirs, all_dirs()[j], row, col) by {
                    if dm.has(row, col) {
                        assert(dir_move(mine, theirs, all_dirs()[i as int], row, col));
                    }
                    if exists|j: int| 0 <= j < i + 1 && #[trigger] dir_move(mine, theirs, all_dirs()[j], row, col) {
                        let j = choose|j: int| 0 <= j < i + 1 && #[trigger] dir_move(mine, theirs, all_dirs()[j], row, col);
                        if j < i {
                            assert(prev.has(row, col));
                        }
                    }
                }
            }
            i = i + 1;
        }
        let r = moves.and(mine.not()).and(theirs.not());
        proof {
            let cells = self.cells();
            assert forall|row: int, col: int| #[trigger] r.has(row, col) == is_legal(cells, player, row, col) by {
                if on_board(row, col) {
                    lemma_legal_from_dirs(cells, player, mine, theirs, row, col);
                    if r.has(row, col) {
                        assert(mine.has(row, col) == (at(cells, row, col) == Some(player)));
                        assert(theirs.has(row, col) == (at(cells, row, col) == Some(player.opponent())));
                        assert(at(cells, row, col) is None) by {
                            if at(cells, row, col) is Some {
                                let v = at(cells, row, col)->0;
                                assert(v == player || v == player.opponent());
                            }
                        }
                    }
                } else {
                    if exists|j: int| 0 <= j < 8 && #[trigger] dir_move(mine, theirs, all_dirs()[j], row, col) {
                        let j = choose|j: int| 0 <= j < 8 && #[trigger] dir_move(mine, theirs, all_dirs()[j], row, col);
                        assert(false);
                    }
                }
            }
        }
        r
    }
}

/// A disc of `player` at (row, col) flips (r, c), which lies in the direction opposite to
/// `d`.
pub open spec fn flipped_opposite(cells: Cells, player: Colour, row: int, col: int, d: ShiftDir, r: int, c: int) -> bool {
    flipped_along(cells, player, row, col, -shift_dr(d.delta()), -shift_dc(d.delta()), r, c)
}

proof fn lemma_flipped_from_dirs(cells: Cells, player: Colour, row: int, col: int, r: int, c: int)
    ensures
        (exists|j: int| 0 <= j < 8 && #[trigger] flipped_opposite(cells, player, row, col, all_dirs()[j], r, c))
            == is_flipped(cells, player, row, col, r, c),
{
    lemma_all_dirs();
    if exists|j: int| 0 <= j < 8 && #[trigger] flipped_opposite(cells, player, row, col, all_dirs()[j], r, c) {
        let j = choose|j: int| 0 <= j < 8 && #[trigger] flipped_opposite(cells, player, row, col, all_dirs()[j], r, c);
        let d = all_dirs()[j];
        assert(is_direction(-shift_dr(d.delta()), -shift_dc(d.delta())));
    }
    if is_flipped(cells, player, row, col, r, c) {
        let (dr, dc) = choose|dr: int, dc: int| is_direction(dr, dc) && #[trigger] flipped_along(cells, player, row, col, dr, dc, r, c);
        let j = choose|j: int|
            0 <= j < 8 && shift_dr(#[trigger] all_dirs()[j].delta()) == -dr && shift_dc(all_dirs()[j].delta()) == -dc;
        assert(flipped_opposite(cells, player, row, col, all_dirs()[j], r, c));
    }
}

proof fn lemma_count_mask(cells: Cells, colour: Colour, x: u64, n: int)
    requires
        0 <= n <= 64,
        cells.len() == 64,
        forall|i: int| 0 <= i < 64 ==> (#[trigger] cells[i] == Some(colour)) == bit(x, i as u64),
    ensures
        count_prefix(cells, colour, n) == ones_below(x, n),
    decreases n,
{
    if n > 0 {
        lemma_count_mask(cells, colour, x, n - 1);
    }
}

impl Board for BitBoardBoard {
    closed spec fn cells(&self) -> Cells {
        Seq::new(
            64,
            |i: int|
                if self.blacks.has_index(i) {
                    Some(Colour::Black)
                } else if self.whites.has_index(i) {
                    Some(Colour::White)
                } else {
                    None
                },
        )
    }

    closed spec fn wf(&self) -> bool {
        forall|i: int| !(#[trigger] self.blacks.has_index(i) && self.whites.has_index(i))
    }

    proof fn lemma_cells_len(&self) {
    }

    fn empty() -> (b: Self) {
        let b = BitBoardBoard { blacks: BitBoard::new(), whites: BitBoard::new() };
        assert(b.cells() =~= empty_cells());
        b
    }

    fn is_valid_move(&self, mov: Move) -> (r: bool) {
        if crate::game::out_of_range(mov.row, mov.col) {
            return false;
        }
        self.move_mask(mov.player).bit(mov.row, mov.col)
    }

    fn moves(&self, player: Colour) -> (r: Vec<Move>) {
        let mask = self.move_mask(player);
        let mut it = Moves(player, mask);
        let mut out: Vec<Move> = Vec::new();
        proof {
            assert forall|i: int| 0 <= i < 64 implies #[trigger] mask.has_index(i) == is_legal(self.cells(), player, i / 8, i % 8) by {
                lemma_index_cell(mask, i);
            }
            lemma_moves_from_agree(
                player,
                |i: int| mask.has_index(i),
                |i: int| is_legal(self.cells(), player, i / 8, i % 8),
                0,
            );
            assert(out@ + mask_moves_from(player, it.1, 0) =~= legal_moves(self.cells(), player));
        }
        loop
            invariant
                it.0 == player,
                out@ + mask_moves_from(player, it.1, 0) == legal_moves(self.cells(), player),
            ensures
                out@ == legal_moves(self.cells(), player),
            decreases it.1.0,
        {
            let ghost before = it.1;
            match it.next() {
                None => {
                    proof {
                        crate::bitboard::lemma_zero_holds_nothing(before);
                        lemma_moves_from_skip(player, |i: int| before.has_index(i), 0, 64);
                        assert(out@ + Seq::<Move>::empty() =~= out@);
                        assert(out@ == legal_moves(self.cells(), player));
                    }
                    break;
                },
                Some(m) => {
                    proof {
                        let t = before.lowest();
                        let f = |i: int| before.has_index(i);
                        let g = |i: int| it.1.has_index(i);
                        lemma_moves_from_skip(player, f, 0, t);
                        lemma_moves_from_agree(player, f, g, t + 1);
                        lemma_moves_from_skip(player, g, 0, t + 1);
                        assert(moves_from(player, f, t) == seq![m] + moves_from(player, f, t + 1));
                        assert(out@.push(m) + moves_from(player, g, 0) =~= out@ + moves_from(player, f, 0));
                    }
                    out.push(m);
                },
            }
        }
        out
    }

    fn apply(&self, mov: Move) -> (r: Self) {
        let ghost cells = self.cells();
        let player = mov.player;
        let (mut mine, mut theirs) = match player {
            Colour::Black => (self.blacks, self.whites),
            Colour::White => (self.whites, self.blacks),
        };
        let mov_bb = BitBoard::from_pos(mov.row, mov.col);
        let ghost row = mov.row as int;
        let ghost col = mov.col as int;
        proof {
            self.lemma_masks(player);
            lemma_all_dirs();
            assert forall|x: int, y: int| #[trigger] mov_bb.has(x, y) == (x == row && y == col) by {
                if on_board(x, y) {
                    lemma_cell_index(mov_bb, x, y);
                }
            }
        }
        let dirs = ShiftDir::all();
        let mut flips = BitBoard::new();
        let mut i: usize = 0;
        while i < 8
            invariant
                0 <= i <= 8,
                dirs@ == all_dirs(),
                masks_of(cells, player, mine, theirs),
                on_board(row, col),
                at(cells, row, col) is None,
                forall|x: int, y: int| #[trigger] mov_bb.has(x, y) == (x == row && y == col),
                forall|r: int, c: int| #[trigger] flips.has(r, c) == exists|j: int|
                    0 <= j < i && #[trigger] flipped_opposite(cells, player, row, col, all_dirs()[j], r, c),
            decreases 8 - i,
        {
            let dir = dirs[i];
            let span1 = dumb7fill(mine, theirs, dir.shift());
            let rev = dir.reverse();
            let span2 = dumb7fill(mov_bb, theirs, rev.shift());
            let both = span1.and(span2);
            proof {
                let dr = shift_dr(dir.delta());
                let dc = shift_dc(dir.delta());
                let er = shift_dr(rev.delta());
                let ec = shift_dc(rev.delta());
                assert(valid_shift(dir.delta()));
                assert(er == -dr && ec == -dc);
                assert(flip_setting(cells, player, mine, theirs, mov_bb, dr, dc, er, ec, row, col));
                assert forall|r: int, c: int| #[trigger] both.has(r, c) == flipped_opposite(cells, player, row, col, dir, r, c) by {
                    if span1.has(r, c) && span2.has(r, c) {
                        let k = choose|k: int| 0 <= k <= 6 && slides(mine, theirs, dr, dc, k, r, c);
                        let m = choose|m: int| 0 <= m <= 6 && slides(mov_bb, theirs, er, ec, m, r, c);
                        lemma_flip_spans_sound(cells, player, mine, theirs, mov_bb, dr, dc, er, ec, row, col, r, c, k, m);
                    }
                    if flipped_opposite(cells, player, row, col, dir, r, c) {
                        let (n, kk) = choose|n: int, kk: int|
                            #[trigger] flanks(cells, player, row, col, er, ec, n) && 1 <= kk <= n
                                && #[trigger] crate::game::on_ray(row, col, er, ec, kk, r, c);
                        lemma_flip_spans_complete(cells, player, mine, theirs, mov_bb, dr, dc, er, ec, row, col, r, c, n, kk);
                    }
                }
            }
            let ghost prev = flips;
            flips = flips.or(both);
            proof {
                assert forall|r: int, c: int| #[trigger] flips.has(r, c) == exists|j: int|
                    0 <= j < i + 1 && #[trigger] flipped_opposite(cells, player, row, col, all_dirs()[j], r, c) by {
                    if both.has(r, c) {
                        assert(flipped_opposite(cells, player, row, col, all_dirs()[i as int], r, c));
                    }
                    if exists|j: int| 0 <= j < i + 1 && #[trigger] flipped_opposite(cells, player, row, col, all_dirs()[j], r, c) {
                        let j = choose|j: int| 0 <= j < i + 1 && #[trigger] flipped_opposite(cells, player, row, col, all_dirs()[j], r, c);
                        if j < i {
                            assert(prev.has(r, c));
                        }
                    }
                }
            }
            i = i + 1;
        }
        let ghost old_mine = mine;
        let ghost old_theirs = theirs;
        mine = mine.or(mov_bb.or(flips));
        theirs = theirs.and(flips.not());
        let r = if player == Colour::Black {
            BitBoardBoard { blacks: mine, whites: theirs }
        } else {
            BitBoardBoard { blacks: theirs, whites: mine }
        };
        proof {
            let target = after_move(cells, player, row, col);
            assert forall|i: int| 0 <= i < 64 implies #[trigger] flips.has_index(i) == is_flipped(cells, player, row, col, i / 8, i % 8) by {
                lemma_index_cell(flips, i);
                lemma_flipped_from_dirs(cells, player, row, col, i / 8, i % 8);
            }
            assert forall|i: int| 0 <= i < 64 implies #[trigger] mov_bb.has_index(i) == (i == row * 8 + col) by {
                lemma_index_cell(mov_bb, i);
            }
            assert forall|i: int| 0 <= i < 64 implies (#[trigger] old_mine.has_index(i) == (cells[i] == Some(player))
                && old_theirs.has_index(i) == (cells[i] == Some(player.opponent()))) by {
                lemma_index_cell(old_mine, i);
                lemma_index_cell(old_theirs, i);
            }
            assert(r.wf());
            assert(r.cells() =~= target);
        }
        r
    }

    fn get(&self, row: Pos, col: Pos) -> (r: Option<Colour>) {
        proof {
            lemma_cell_index(self.blacks, row as int, col as int);
            lemma_cell_index(self.whites, row as int, col as int);
        }
        let b = self.blacks.bit(row, col);
        let w = self.whites.bit(row, col);
        if b {
            Some(Colour::Black)
        } else if w {
            Some(Colour::White)
        } else {
            None
        }
    }

    fn set(&mut self, row: Pos, col: Pos, value: Option<Colour>) {
        let ghost before = self.cells();
        let bit = BitBoard::from_pos(row, col);
        self.blacks = self.blacks.and(bit.not());
        self.whites = self.whites.and(bit.not());
        match value {
            Some(Colour::Black) => self.blacks = self.blacks.or(bit),
            Some(Colour::White) => self.whites = self.whites.or(bit),
            None => (),
        };
        proof {
            assert(self.cells() =~= before.update(row * 8 + col, value));
        }
    }

    fn scores(&self) -> (r: (Score, Score)) {
        proof {
            let cells = self.cells();
            lemma_count_mask(cells, Colour::Black, self.blacks.0, 64);
            lemma_count_mask(cells, Colour::White, self.whites.0, 64);
            crate::game::lemma_count_bounds(cells, 64);
        }
        (self.blacks.count() as Score, self.whites.count() as Score)
    }
}

} // verus!
