//! The dense board: one entry per cell, with moves and captures found by walking the
//! board cell by cell. It is the reference against which the compact board is checked.

use vstd::prelude::*;

use crate::bitboard::on_board;
use crate::game::{
    after_move, at, captures, count, count_prefix, direction_list, directions, empty_cells, flanks, flipped_along,
    holds_at, is_direction, is_flipped, is_legal, lemma_count_bounds, lemma_directions, lemma_ray_short,
    lemma_run_unique, lemma_steps, legal_moves, move_at, moves_from, out_of_range, Board, Cells, Colour, Move, Pos,
    Score,
};

verus! {

broadcast use vstd::array::group_array_axioms;

/// Walks from a cell in one direction, one step per call of `next`.
pub(crate) struct DirectionIterator {
    pub(crate) dx: Pos,
    pub(crate) dy: Pos,
    pub(crate) row: Pos,
    pub(crate) col: Pos,
}

/// A walk from (row, col) in direction `dir` (row step, column step).
pub(crate) fn iterate_from(dir: (Pos, Pos), row: Pos, col: Pos) -> (r: DirectionIterator)
    ensures
        r.dy == dir.0,
        r.dx == dir.1,
        r.row == row,
        r.col == col,
{
    DirectionIterator { dx: dir.1, dy: dir.0, row, col }
}

impl DirectionIterator {
    /// Takes one step; the new cell, or `None` once the walk has left the board.
    pub(crate) fn next(&mut self) -> (r: Option<(Pos, Pos)>)
        requires
            on_board(old(self).row as int, old(self).col as int),
            -1 <= old(self).dy <= 1,
            -1 <= old(self).dx <= 1,
        ensures
            final(self).dy == old(self).dy,
            final(self).dx == old(self).dx,
            final(self).row == old(self).row + old(self).dy,
            final(self).col == old(self).col + old(self).dx,
            r == (if on_board(final(self).row as int, final(self).col as int) {
                Some((final(self).row, final(self).col))
            } else {
                None
            }),
    {
        self.row = self.row + self.dy;
        self.col = self.col + self.dx;
        if out_of_range(self.row, self.col) {
            return None;
        }
        Some((self.row, self.col))
    }
}

/// The dense board: what each of the 64 cells holds, row by row.
#[derive(Clone, Copy, Debug, PartialEq, Eq)]
pub struct DefaultBoard {
    squares: [Option<Colour>; 64],
}

impl DefaultBoard {
    /// The number of `player`'s opponent's discs that a disc of `player` at (row, col) would
    /// flip in direction (dy, dx); 0 when it would flip none there.
    fn count_in_dir(&self, player: Colour, row: Pos, col: Pos, dy: Pos, dx: Pos) -> (r: usize)
        requires
            on_board(row as int, col as int),
            is_direction(dy as int, dx as int),
        ensures
            r > 0 ==> flanks(self.cells(), player, row as int, col as int, dy as int, dx as int, r as int),
            r == 0 ==> !captures(self.cells(), player, row as int, col as int, dy as int, dx as int),
    {
        let ghost cells = self.cells();
        let ghost row0 = row as int;
        let ghost col0 = col as int;
        let ghost dr = dy as int;
        let ghost dc = dx as int;
        let mut count: usize = 0;
        let mut iter = iterate_from((dy, dx), row, col);
        proof {
            lemma_steps(0, 0, dr);
            lemma_steps(0, 0, dc);
        }
        loop
            invariant_except_break
                iter.dy == dy && iter.dx == dx,
                iter.row == row0 + count * dr,
                iter.col == col0 + count * dc,
                on_board(iter.row as int, iter.col as int),
            invariant
                cells == self.cells(),
                cells.len() == 64,
                row0 == row as int,
                col0 == col as int,
                dr == dy as int,
                dc == dx as int,
                is_direction(dr, dc),
                on_board(row0, col0),
                count <= 7,
                forall|k: int| 1 <= k <= count ==> #[trigger] holds_at(cells, player.opponent(), row0, col0, dr, dc, k),
            ensures
                count > 0 ==> flanks(cells, player, row0, col0, dr, dc, count as int),
                count == 0 ==> !captures(cells, player, row0, col0, dr, dc),
            decreases 7 - count,
        {
            proof {
                lemma_steps(count as int, 1, dr);
                lemma_steps(count as int, 1, dc);
            }
            let Some((r, c)) = iter.next() else {
                proof {
                    if captures(cells, player, row0, col0, dr, dc) {
                        let n = choose|n: int| flanks(cells, player, row0, col0, dr, dc, n);
                        lemma_run_unique(cells, player, row0, col0, dr, dc, count as int, n);
                    }
                }
                return 0;
            };
            let idx = (r * 8 + c) as usize;
            let Some(colour) = self.squares[idx] else {
                proof {
                    if captures(cells, player, row0, col0, dr, dc) {
                        let n = choose|n: int| flanks(cells, player, row0, col0, dr, dc, n);
                        lemma_run_unique(cells, player, row0, col0, dr, dc, count as int, n);
                    }
                }
                return 0;
            };
            if colour == player {
                proof {
                    if captures(cells, player, row0, col0, dr, dc) {
                        let n = choose|n: int| flanks(cells, player, row0, col0, dr, dc, n);
                        lemma_run_unique(cells, player, row0, col0, dr, dc, count as int, n);
                    }
                    if count > 0 {
                        assert(holds_at(cells, player, row0, col0, dr, dc, count + 1));
                    }
                }
                break;
            }
            proof {
                assert(holds_at(cells, player.opponent(), row0, col0, dr, dc, count + 1));
                lemma_ray_short(row0, col0, dr, dc, count + 1);
            }
            count += 1;
        }
        count
    }

    /// Turns to `player`'s colour the discs that a disc of `player` at (row, col) flips in
    /// direction (dy, dx) on the board `before`.
    fn flip(&mut self, before: &DefaultBoard, player: Colour, row: Pos, col: Pos, dy: Pos, dx: Pos)
        requires
            on_board(row as int, col as int),
            is_direction(dy as int, dx as int),
        ensures
            forall|i: int| 0 <= i < 64 ==> #[trigger] final(self).cells()[i] == if flipped_along(
                before.cells(),
                player,
                row as int,
                col as int,
                dy as int,
                dx as int,
                i / 8,
                i % 8,
            ) {
                Some(player)
            } else {
                old(self).cells()[i]
            },
    {
        let ghost cells = before.cells();
        let ghost row0 = row as int;
        let ghost col0 = col as int;
        let ghost dr = dy as int;
        let ghost dc = dx as int;
        let n = before.count_in_dir(player, row, col, dy, dx);
        let mut iter = iterate_from((dy, dx), row, col);
        let mut k: usize = 0;
        proof {
            lemma_steps(0, 0, dr);
            lemma_steps(0, 0, dc);
            if n > 0 {
                assert(holds_at(cells, player.opponent(), row0, col0, dr, dc, n as int));
                crate::game::lemma_ray_short(row0, col0, dr, dc, n as int);
            }
        }
        while k < n
            invariant
                cells == before.cells(),
                row0 == row as int,
                col0 == col as int,
                dr == dy as int,
                dc == dx as int,
                n > 0 ==> flanks(cells, player, row0, col0, dr, dc, n as int),
                n == 0 ==> !captures(cells, player, row0, col0, dr, dc),
                is_direction(dr, dc),
                on_board(row0, col0),
                iter.dy == dy && iter.dx == dx,
                k <= n,
                iter.row == row0 + k * dr,
                iter.col == col0 + k * dc,
                on_board(iter.row as int, iter.col as int),
                forall|i: int| 0 <= i < 64 ==> #[trigger] self.cells()[i] == if exists|j: int|
                    1 <= j <= k && #[trigger] crate::game::on_ray(row0, col0, dr, dc, j, i / 8, i % 8) {
                    Some(player)
                } else {
                    old(self).cells()[i]
                },
            decreases n - k,
        {
            proof {
                lemma_steps(k as int, 1, dr);
                lemma_steps(k as int, 1, dc);
                assert(holds_at(cells, player.opponent(), row0, col0, dr, dc, k + 1));
            }
            let step = iter.next();
            proof {
                assert(step is Some);
            }
            let (r, c) = step.unwrap();
            let idx = (r * 8 + c) as usize;
            let ghost prev = self.cells();
            self.squares[idx] = Some(player);
            proof {
                assert forall|i: int| 0 <= i < 64 implies #[trigger] self.cells()[i] == if exists|j: int|
                    1 <= j <= k + 1 && #[trigger] crate::game::on_ray(row0, col0, dr, dc, j, i / 8, i % 8) {
                    Some(player)
                } else {
                    old(self).cells()[i]
                } by {
                    if i == idx {
                        assert(crate::game::on_ray(row0, col0, dr, dc, k + 1, i / 8, i % 8));
                    } else {
                        if exists|j: int| 1 <= j <= k + 1 && #[trigger] crate::game::on_ray(row0, col0, dr, dc, j, i / 8, i % 8) {
                            let j = choose|j: int| 1 <= j <= k + 1 && #[trigger] crate::game::on_ray(row0, col0, dr, dc, j, i / 8, i % 8);
                            if j == k + 1 {
                                assert(i == idx);
                            }
                        }
                    }
                }
            }
            k += 1;
        }
        proof {
            assert forall|i: int| 0 <= i < 64 implies #[trigger] self.cells()[i] == if flipped_along(
                cells,
                player,
                row0,
                col0,
                dr,
                dc,
                i / 8,
                i % 8,
            ) {
                Some(player)
            } else {
                old(self).cells()[i]
            } by {
                lemma_flip_run(cells, player, row0, col0, dr, dc, n as int, i / 8, i % 8);
            }
        }
    }
}

proof fn lemma_flip_run(cells: Cells, player: Colour, row: int, col: int, dr: int, dc: int, n: int, r: int, c: int)
    requires
        n >= 0,
        n > 0 ==> flanks(cells, player, row, col, dr, dc, n),
        n == 0 ==> !captures(cells, player, row, col, dr, dc),
    ensures
        (exists|j: int| 1 <= j <= n && #[trigger] crate::game::on_ray(row, col, dr, dc, j, r, c)) == flipped_along(
            cells,
            player,
            row,
            col,
            dr,
            dc,
            r,
            c,
        ),
{
    if flipped_along(cells, player, row, col, dr, dc, r, c) {
        let (m, j) = choose|m: int, j: int|
            #[trigger] flanks(cells, player, row, col, dr, dc, m) && 1 <= j <= m
                && #[trigger] crate::game::on_ray(row, col, dr, dc, j, r, c);
        if n == 0 {
            assert(captures(cells, player, row, col, dr, dc));
        } else {
            if m < n {
                assert(holds_at(cells, player.opponent(), row, col, dr, dc, m + 1));
                assert(holds_at(cells, player, row, col, dr, dc, m + 1));
            } else if m > n {
                assert(holds_at(cells, player.opponent(), row, col, dr, dc, n + 1));
                assert(holds_at(cells, player, row, col, dr, dc, n + 1));
            }
            assert(crate::game::on_ray(row, col, dr, dc, j, r, c));
        }
    }
    if exists|j: int| 1 <= j <= n && #[trigger] crate::game::on_ray(row, col, dr, dc, j, r, c) {
        let j = choose|j: int| 1 <= j <= n && #[trigger] crate::game::on_ray(row, col, dr, dc, j, r, c);
        assert(flanks(cells, player, row, col, dr, dc, n));
    }
}

/// Walks the board in row-major order, handing out the legal moves of one player.
#[derive(Clone, Copy, Debug)]
pub struct ValidMoveIterator {
    pub board: DefaultBoard,
    pub player: Colour,
    pub pos: i8,
}

impl ValidMoveIterator {
    /// The legal moves not yet handed out, in order.
    pub open spec fn remaining(self) -> Seq<Move> {
        moves_from(self.player, |i: int| is_legal(self.board.cells(), self.player, i / 8, i % 8), self.pos as int)
    }

    /// A walk over all the legal moves of `player` on `board`.
    pub fn new(board: &DefaultBoard, player: Colour) -> (r: ValidMoveIterator)
        ensures
            r.remaining() == legal_moves(board.cells(), player),
            0 <= r.pos <= 64,
    {
        ValidMoveIterator { board: *board, player, pos: 0 }
    }

    /// The next legal move, which is then handed out; `None` once there is none left.
    pub fn next(&mut self) -> (r: Option<Move>)
        requires
            0 <= old(self).pos <= 64,
        ensures
            0 <= final(self).pos <= 64,
            final(self).board == old(self).board,
            final(self).player == old(self).player,
            old(self).remaining() == match r {
                Some(m) => seq![m] + final(self).remaining(),
                None => Seq::<Move>::empty(),
            },
            r is None ==> final(self).remaining() == Seq::<Move>::empty(),
    {
        let ghost f = |i: int| is_legal(self.board.cells(), self.player, i / 8, i % 8);
        while self.pos < 64
            invariant
                0 <= self.pos <= 64,
                self.board == old(self).board,
                self.player == old(self).player,
                f == (|i: int| is_legal(self.board.cells(), self.player, i / 8, i % 8)),
                moves_from(self.player, f, old(self).pos as int) == moves_from(self.player, f, self.pos as int),
            decreases 64 - self.pos,
        {
            let mov = Move { player: self.player, row: self.pos / 8, col: self.pos % 8 };
            let ok = self.board.is_valid_move(mov);
            proof {
                assert(mov == move_at(self.player, self.pos as int));
                assert(ok == f(self.pos as int));
            }
            self.pos += 1;
            if ok {
                return Some(mov);
            }
        }
        None
    }
}

impl Board for DefaultBoard {
    closed spec fn cells(&self) -> Cells {
        self.squares@
    }

    closed spec fn wf(&self) -> bool {
        true
    }

    proof fn lemma_cells_len(&self) {
    }

    fn empty() -> (b: Self) {
        let squares: [Option<Colour>; 64] = vstd::array::array_fill_for_copy_types(None);
        let b = DefaultBoard { squares };
        assert(b.squares@.len() == 64);
        assert forall|i: int| 0 <= i < 64 implies b.squares@[i] == None::<Colour> by {
            assert(squares == vstd::array::spec_array_fill_for_copy_type::<Option<Colour>, 64>(None));
        }
        assert(b.cells() =~= empty_cells());
        b
    }

    fn is_valid_move(&self, mov: Move) -> (r: bool) {
        let ghost cells = self.cells();
        let ghost row = mov.row as int;
        let ghost col = mov.col as int;
        if out_of_range(mov.row, mov.col) {
            return false;
        }
        let idx = (mov.row * 8 + mov.col) as usize;
        if self.squares[idx].is_some() {
            return false;
        }
        proof {
            lemma_directions();
        }
        let dirs = direction_list();
        let mut j: usize = 0;
        while j < 8
            invariant
                0 <= j <= 8,
                dirs@ == directions(),
                row == mov.row as int,
                col == mov.col as int,
                on_board(row, col),
                at(cells, row, col) is None,
                cells == self.cells(),
                forall|q: int| 0 <= q < j ==> !captures(
                    cells,
                    mov.player,
                    row,
                    col,
                    #[trigger] directions()[q].0 as int,
                    directions()[q].1 as int,
                ),
            decreases 8 - j,
        {
            let (dy, dx) = dirs[j];
            proof {
                assert(is_direction(directions()[j as int].0 as int, directions()[j as int].1 as int));
            }
            if self.count_in_dir(mov.player, mov.row, mov.col, dy, dx) > 0 {
                proof {
                    assert(captures(cells, mov.player, row, col, dy as int, dx as int));
                }
                return true;
            }
            j += 1;
        }
        proof {
            if exists|dr: int, dc: int| is_direction(dr, dc) && captures(cells, mov.player, row, col, dr, dc) {
                let (dr, dc) = choose|dr: int, dc: int| is_direction(dr, dc) && captures(cells, mov.player, row, col, dr, dc);
                let q = choose|q: int| 0 <= q < 8 && #[trigger] directions()[q].0 as int == dr && directions()[q].1 as int == dc;
                assert(!captures(cells, mov.player, row, col, directions()[q].0 as int, directions()[q].1 as int));
            }
        }
        false
    }

    fn moves(&self, for_player: Colour) -> (r: Vec<Move>) {
        let ghost cells = self.cells();
        let ghost f = |i: int| is_legal(cells, for_player, i / 8, i % 8);
        let mut out: Vec<Move> = Vec::new();
        let mut idx: i8 = 0;
        while idx < 64
            invariant
                0 <= idx <= 64,
                cells == self.cells(),
                f == (|i: int| is_legal(cells, for_player, i / 8, i % 8)),
                out@ + moves_from(for_player, f, idx as int) == legal_moves(cells, for_player),
            decreases 64 - idx,
        {
            let mov = Move { player: for_player, row: idx / 8, col: idx % 8 };
            let ok = self.is_valid_move(mov);
            proof {
                assert(mov == move_at(for_player, idx as int));
                assert(ok == f(idx as int));
            }
            if ok {
                proof {
                    assert(out@.push(mov) + moves_from(for_player, f, idx + 1) =~= out@ + moves_from(for_player, f, idx as int));
                }
                out.push(mov);
            }
            idx += 1;
        }
        proof {
            assert(out@ + moves_from(for_player, f, 64) =~= out@);
        }
        out
    }

    fn apply(&self, mov: Move) -> (r: Self) {
        let ghost cells = self.cells();
        let ghost row = mov.row as int;
        let ghost col = mov.col as int;
        let player = mov.player;
        let mut newboard = *self;
        proof {
            lemma_directions();
        }
        let dirs = direction_list();
        let mut j: usize = 0;
        while j < 8
            invariant
                0 <= j <= 8,
                dirs@ == directions(),
                row == mov.row as int,
                col == mov.col as int,
                player == mov.player,
                on_board(row, col),
                cells == self.cells(),
                forall|i: int| 0 <= i < 64 ==> #[trigger] newboard.cells()[i] == if exists|q: int|
                    0 <= q < j && #[trigger] flipped_along(
                        cells,
                        player,
                        row,
                        col,
                        directions()[q].0 as int,
                        directions()[q].1 as int,
                        i / 8,
                        i % 8,
                    ) {
                    Some(player)
                } else {
                    cells[i]
                },
            decreases 8 - j,
        {
            let (dy, dx) = dirs[j];
            let ghost prev = newboard.cells();
            newboard.flip(self, player, mov.row, mov.col, dy, dx);
            proof {
                assert forall|i: int| 0 <= i < 64 implies #[trigger] newboard.cells()[i] == if exists|q: int|
                    0 <= q < j + 1 && #[trigger] flipped_along(
                        cells,
                        player,
                        row,
                        col,
                        directions()[q].0 as int,
                        directions()[q].1 as int,
                        i / 8,
                        i % 8,
                    ) {
                    Some(player)
                } else {
                    cells[i]
                } by {
                    if flipped_along(cells, player, row, col, dy as int, dx as int, i / 8, i % 8) {
                        assert(flipped_along(cells, player, row, col, directions()[j as int].0 as int, directions()[j as int].1 as int, i / 8, i % 8));
                    }
                }
            }
            j += 1;
        }
        let idx = (mov.row * 8 + mov.col) as usize;
        let ghost flipped = newboard.cells();
        newboard.squares[idx] = Some(player);
        proof {
            assert forall|r: int, c: int| (exists|q: int|
                0 <= q < 8 && #[trigger] flipped_along(
                    cells,
                    player,
                    row,
                    col,
                    directions()[q].0 as int,
                    directions()[q].1 as int,
                    r,
                    c,
                )) == #[trigger] is_flipped(cells, player, row, col, r, c) by {
                if is_flipped(cells, player, row, col, r, c) {
                    let (dr, dc) = choose|dr: int, dc: int| is_direction(dr, dc) && #[trigger] flipped_along(cells, player, row, col, dr, dc, r, c);
                    let q = choose|q: int| 0 <= q < 8 && #[trigger] directions()[q].0 as int == dr && directions()[q].1 as int == dc;
                    assert(flipped_along(cells, player, row, col, directions()[q].0 as int, directions()[q].1 as int, r, c));
                }
                if exists|q: int|
                    0 <= q < 8 && #[trigger] flipped_along(cells, player, row, col, directions()[q].0 as int, directions()[q].1 as int, r, c) {
                    let q = choose|q: int|
                        0 <= q < 8 && #[trigger] flipped_along(cells, player, row, col, directions()[q].0 as int, directions()[q].1 as int, r, c);
                    assert(is_direction(directions()[q].0 as int, directions()[q].1 as int));
                }
            }
            assert(newboard.cells() == flipped.update(idx as int, Some(player)));
            assert forall|i: int| 0 <= i < 64 implies #[trigger] newboard.cells()[i] == after_move(cells, player, row, col)[i] by {
                if i != idx {
                    assert(flipped[i] == if exists|q: int|
                        0 <= q < 8 && #[trigger] flipped_along(
                            cells,
                            player,
                            row,
                            col,
                            directions()[q].0 as int,
                            directions()[q].1 as int,
                            i / 8,
                            i % 8,
                        ) {
                        Some(player)
                    } else {
                        cells[i]
                    });
                    assert(is_flipped(cells, player, row, col, i / 8, i % 8) == exists|q: int|
                        0 <= q < 8 && #[trigger] flipped_along(
                            cells,
                            player,
                            row,
                            col,
                            directions()[q].0 as int,
                            directions()[q].1 as int,
                            i / 8,
                            i % 8,
                        ));
                }
            }
            assert(newboard.cells() =~= after_move(cells, player, row, col));
        }
        newboard
    }

    fn get(&self, row: Pos, col: Pos) -> (r: Option<Colour>) {
        self.squares[(row * 8 + col) as usize]
    }

    fn set(&mut self, row: Pos, col: Pos, value: Option<Colour>) {
        self.squares[(row * 8 + col) as usize] = value;
        proof {
            assert(self.cells() =~= old(self).cells().update(row * 8 + col, value));
        }
    }

    fn scores(&self) -> (r: (Score, Score)) {
        let ghost cells = self.cells();
        let mut black_count: Score = 0;
        let mut white_count: Score = 0;
        let mut i: usize = 0;
        while i < 64
            invariant
                0 <= i <= 64,
                cells == self.cells(),
                cells.len() == 64,
                black_count == count_prefix(cells, Colour::Black, i as int),
                white_count == count_prefix(cells, Colour::White, i as int),
            decreases 64 - i,
        {
            proof {
                lemma_count_bounds(cells, i as int);
            }
            match self.squares[i] {
                Some(Colour::Black) => black_count += 1,
                Some(Colour::White) => white_count += 1,
                None => (),
            }
            i += 1;
        }
        (black_count, white_count)
    }
}

} // verus!
