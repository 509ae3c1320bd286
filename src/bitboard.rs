//! A 64-cell mask over the 8x8 board, and the bit-parallel fills built on it.

use vstd::prelude::*;
use vstd::string::StrSliceExecFns;
use vstd::string::StringExecFns;

verus! {

/// Whether (row, col) lies on the 8x8 board.
pub open spec fn on_board(row: int, col: int) -> bool {
    0 <= row < 8 && 0 <= col < 8
}

/// Whether bit `i` of `x` is set.
pub open spec fn bit(x: u64, i: u64) -> bool {
    (x >> i) & 1u64 == 1u64
}

/// The row step of a shift amount: the cell at bit `i` moves to bit `i + shift`.
pub open spec fn shift_dr(shift: i8) -> int {
    if shift <= -7 { -1 } else if shift >= 7 { 1 } else { 0 }
}

/// The column step of a shift amount.
pub open spec fn shift_dc(shift: i8) -> int {
    shift - 8 * shift_dr(shift)
}

/// The eight shift amounts of the compass directions.
pub open spec fn valid_shift(shift: i8) -> bool {
    shift == -9 || shift == -8 || shift == -7 || shift == -1 || shift == 1 || shift == 7
        || shift == 8 || shift == 9
}

/// The eight compass directions in which a mask can be shifted.
#[derive(Clone, Copy, Debug, PartialEq, Eq, Structural)]
pub enum ShiftDir {
    Up,
    Down,
    Left,
    Right,
    UpLeft,
    UpRight,
    DownLeft,
    DownRight,
}

impl ShiftDir {
    /// How far a cell's bit index moves in this direction.
    pub open spec fn delta(self) -> i8 {
        match self {
            ShiftDir::Up => -8i8,
            ShiftDir::Down => 8i8,
            ShiftDir::Left => -1i8,
            ShiftDir::Right => 1i8,
            ShiftDir::UpLeft => -9i8,
            ShiftDir::UpRight => -7i8,
            ShiftDir::DownLeft => 7i8,
            ShiftDir::DownRight => 9i8,
        }
    }

    /// The shift amount of this direction.
    pub fn shift(&self) -> (r: i8)
        ensures
            r == self.delta(),
            valid_shift(r),
    {
        match self {
            ShiftDir::Up => -8,
            ShiftDir::Down => 8,
            ShiftDir::Left => -1,
            ShiftDir::Right => 1,
            ShiftDir::UpLeft => -9,
            ShiftDir::UpRight => -7,
            ShiftDir::DownLeft => 7,
            ShiftDir::DownRight => 9,
        }
    }

    /// The opposite direction.
    pub fn reverse(&self) -> (r: ShiftDir)
        ensures
            r.delta() == -self.delta(),
    {
        match self {
            ShiftDir::Up => ShiftDir::Down,
            ShiftDir::Down => ShiftDir::Up,
            ShiftDir::Left => ShiftDir::Right,
            ShiftDir::Right => ShiftDir::Left,
            ShiftDir::UpLeft => ShiftDir::DownRight,
            ShiftDir::UpRight => ShiftDir::DownLeft,
            ShiftDir::DownLeft => ShiftDir::UpRight,
            ShiftDir::DownRight => ShiftDir::UpLeft,
        }
    }

    /// All eight directions.
    pub fn all() -> (r: Vec<ShiftDir>)
        ensures
            r@ == all_dirs(),
    {
        vec![
            ShiftDir::Up,
            ShiftDir::Down,
            ShiftDir::Left,
            ShiftDir::Right,
            ShiftDir::UpLeft,
            ShiftDir::UpRight,
            ShiftDir::DownLeft,
            ShiftDir::DownRight,
        ]
    }
}

/// The eight directions, in the order in which the board visits them.
pub open spec fn all_dirs() -> Seq<ShiftDir> {
    seq![
        ShiftDir::Up,
        ShiftDir::Down,
        ShiftDir::Left,
        ShiftDir::Right,
        ShiftDir::UpLeft,
        ShiftDir::UpRight,
        ShiftDir::DownLeft,
        ShiftDir::DownRight,
    ]
}

/// Each direction's steps are a compass step, the opposite direction's steps are their
/// negation, and every compass step is the opposite of one of the eight directions.
pub proof fn lemma_all_dirs()
    ensures
        all_dirs().len() == 8,
        forall|i: int| 0 <= i < 8 ==> valid_shift(#[trigger] all_dirs()[i].delta()),
        forall|s: i8| valid_shift(s) ==> crate::game::is_direction(#[trigger] shift_dr(s), shift_dc(s)),
        forall|s: i8| valid_shift(s) ==> shift_dr(-s as i8) == -shift_dr(s) && shift_dc(-s as i8) == -shift_dc(s) && #[trigger] valid_shift(-s as i8),
        forall|dr: int, dc: int| crate::game::is_direction(dr, dc) ==> exists|i: int|
            0 <= i < 8 && shift_dr(#[trigger] all_dirs()[i].delta()) == -dr && shift_dc(all_dirs()[i].delta()) == -dc,
{
    let d = all_dirs();
    assert forall|dr: int, dc: int| crate::game::is_direction(dr, dc) implies exists|i: int|
        0 <= i < 8 && shift_dr(#[trigger] all_dirs()[i].delta()) == -dr && shift_dc(all_dirs()[i].delta()) == -dc by {
        if dr == -1 && dc == -1 { assert(shift_dr(d[7].delta()) == 1 && shift_dc(d[7].delta()) == 1); }
        else if dr == -1 && dc == 0 { assert(shift_dr(d[1].delta()) == 1 && shift_dc(d[1].delta()) == 0); }
        else if dr == -1 && dc == 1 { assert(shift_dr(d[6].delta()) == 1 && shift_dc(d[6].delta()) == -1); }
        else if dr == 0 && dc == -1 { assert(shift_dr(d[3].delta()) == 0 && shift_dc(d[3].delta()) == 1); }
        else if dr == 0 && dc == 1 { assert(shift_dr(d[2].delta()) == 0 && shift_dc(d[2].delta()) == -1); }
        else if dr == 1 && dc == -1 { assert(shift_dr(d[5].delta()) == -1 && shift_dc(d[5].delta()) == 1); }
        else if dr == 1 && dc == 0 { assert(shift_dr(d[0].delta()) == -1 && shift_dc(d[0].delta()) == 0); }
        else { assert(shift_dr(d[4].delta()) == -1 && shift_dc(d[4].delta()) == -1); }
    }
}

/// A set of board cells, one bit per cell, bit `row * 8 + col` for (row, col).
#[derive(Clone, Copy, Debug, PartialEq, Eq, Structural)]
pub struct BitBoard(pub u64);

impl BitBoard {
    /// Whether the mask holds the cell (row, col); nothing off the board is held.
    pub open spec fn has(self, row: int, col: int) -> bool {
        on_board(row, col) && bit(self.0, (row * 8 + col) as u64)
    }

    /// Whether the mask holds the cell with index `i`, that is (i / 8, i % 8).
    pub open spec fn has_index(self, i: int) -> bool {
        0 <= i < 64 && bit(self.0, i as u64)
    }

    /// The index of the lowest cell held (64 when none is).
    pub open spec fn lowest(self) -> int {
        vstd::std_specs::bits::u64_trailing_zeros(self.0) as int
    }
}

/// The bits of `x` moved by `shift`, with the wrapped-round column cleared.
spec fn shifted(x: u64, shift: i8) -> u64 {
    if shift == 1 {
        (x << 1u64) & 0xFEFE_FEFE_FEFE_FEFEu64
    } else if shift == -1 {
        (x >> 1u64) & 0x7F7F_7F7F_7F7F_7F7Fu64
    } else if shift == 8 {
        x << 8u64
    } else if shift == -8 {
        x >> 8u64
    } else if shift == 9 {
        (x << 9u64) & 0xFEFE_FEFE_FEFE_FEFEu64
    } else if shift == -9 {
        (x >> 9u64) & 0x7F7F_7F7F_7F7F_7F7Fu64
    } else if shift == 7 {
        (x << 7u64) & 0x7F7F_7F7F_7F7F_7F7Fu64
    } else {
        (x >> 7u64) & 0xFEFE_FEFE_FEFE_FEFEu64
    }
}

pub proof fn lemma_zero_holds_nothing(b: BitBoard)
    requires
        b.0 == 0,
    ensures
        forall|i: int| !#[trigger] b.has_index(i),
{
    assert forall|i: u64| !bit(0u64, i) by {
        assert(!bit(0u64, i)) by (bit_vector);
    }
}

pub proof fn lemma_index_cell(b: BitBoard, i: int)
    requires
        0 <= i < 64,
    ensures
        on_board(i / 8, i % 8),
        (i / 8) * 8 + i % 8 == i,
        b.has_index(i) == b.has(i / 8, i % 8),
{
}

pub proof fn lemma_cell_index(b: BitBoard, row: int, col: int)
    requires
        on_board(row, col),
    ensures
        0 <= row * 8 + col < 64,
        (row * 8 + col) / 8 == row,
        (row * 8 + col) % 8 == col,
        b.has(row, col) == b.has_index(row * 8 + col),
{
}

proof fn lemma_lowest_bit(x: u64)
    requires
        x != 0,
    ensures
        ({
            let t = vstd::std_specs::bits::u64_trailing_zeros(x) as u64;
            &&& t < 64
            &&& bit(x, t)
            &&& forall|i: u64| i < t ==> !#[trigger] bit(x, i)
            &&& forall|i: u64| #[trigger] bit(x & ((x - 1) as u64), i) == (bit(x, i) && i != t)
            &&& forall|i: u64| #[trigger] bit(((x - (x & ((x - 1) as u64))) as u64), i) == (i == t)
            &&& x & ((x - 1) as u64) <= x
        }),
{
    vstd::std_specs::bits::axiom_u64_trailing_zeros(x);
    let t = vstd::std_specs::bits::u64_trailing_zeros(x) as u64;
    assert(t < 64);
    assert forall|i: u64| i < t implies !#[trigger] bit(x, i) by {
        assert((x >> i) & 1u64 == 0u64);
    }
    assert(x & ((x - 1) as u64) <= x) by (bit_vector);
    assert forall|i: u64| #[trigger] bit(x & ((x - 1) as u64), i) == (bit(x, i) && i != t) by {
        assert(bit(x & ((x - 1) as u64), i) == (bit(x, i) && i != t)) by (bit_vector)
            requires
                x != 0,
                t < 64,
                (x >> t) & 1u64 == 1u64,
                x << ((64 - t) as u64) == 0,
        ;
    }
    assert forall|i: u64| #[trigger] bit(((x - (x & ((x - 1) as u64))) as u64), i) == (i == t) by {
        assert(bit(((x - (x & ((x - 1) as u64))) as u64), i) == (i == t)) by (bit_vector)
            requires
                x != 0,
                t < 64,
                (x >> t) & 1u64 == 1u64,
                x << ((64 - t) as u64) == 0,
        ;
    }
}

/// `b` holds the cell `j` steps back from (row, col) along (dr, dc).
pub open spec fn has_back(b: BitBoard, dr: int, dc: int, j: int, row: int, col: int) -> bool {
    b.has(row - j * dr, col - j * dc)
}

/// Sliding `k` steps along (dr, dc) from a cell of `gen` ends on (row, col), and every
/// cell entered on the way, (row, col) included, is in `pro`.
pub open spec fn slides(gen: BitBoard, pro: BitBoard, dr: int, dc: int, k: int, row: int, col: int) -> bool {
    &&& has_back(gen, dr, dc, k, row, col)
    &&& forall|j: int| 0 <= j < k ==> #[trigger] has_back(pro, dr, dc, j, row, col)
}

proof fn lemma_bit_and(x: u64, y: u64)
    ensures
        forall|i: u64| #[trigger] bit(x & y, i) == (bit(x, i) && bit(y, i)),
{
    assert forall|i: u64| #[trigger] bit(x & y, i) == (bit(x, i) && bit(y, i)) by {
        assert(bit(x & y, i) == (bit(x, i) && bit(y, i))) by (bit_vector);
    }
}

proof fn lemma_bit_or(x: u64, y: u64)
    ensures
        forall|i: u64| #[trigger] bit(x | y, i) == (bit(x, i) || bit(y, i)),
{
    assert forall|i: u64| #[trigger] bit(x | y, i) == (bit(x, i) || bit(y, i)) by {
        assert(bit(x | y, i) == (bit(x, i) || bit(y, i))) by (bit_vector);
    }
}

proof fn lemma_bit_not(x: u64)
    ensures
        forall|i: u64| i < 64 ==> #[trigger] bit(!x, i) == !bit(x, i),
{
    assert forall|i: u64| i < 64 implies #[trigger] bit(!x, i) == !bit(x, i) by {
        assert(bit(!x, i) == !bit(x, i)) by (bit_vector)
            requires i < 64;
    }
}

proof fn lemma_slides_step(gen: BitBoard, pro: BitBoard, dr: int, dc: int, k: int, row: int, col: int)
    requires
        k >= 0,
    ensures
        slides(gen, pro, dr, dc, k + 1, row, col) == (pro.has(row, col) && slides(
            gen,
            pro,
            dr,
            dc,
            k,
            row - dr,
            col - dc,
        )),
{
    assert((row - dr) - k * dr == row - (k + 1) * dr) by (nonlinear_arith);
    assert((col - dc) - k * dc == col - (k + 1) * dc) by (nonlinear_arith);
    assert(has_back(pro, dr, dc, 0, row, col) == pro.has(row, col));
    if slides(gen, pro, dr, dc, k + 1, row, col) {
        assert forall|j: int| 0 <= j < k implies #[trigger] has_back(pro, dr, dc, j, row - dr, col - dc) by {
            assert((row - dr) - j * dr == row - (j + 1) * dr) by (nonlinear_arith);
            assert((col - dc) - j * dc == col - (j + 1) * dc) by (nonlinear_arith);
            assert(has_back(pro, dr, dc, j + 1, row, col));
        }
    }
    if pro.has(row, col) && slides(gen, pro, dr, dc, k, row - dr, col - dc) {
        assert forall|j: int| 0 <= j < k + 1 implies #[trigger] has_back(pro, dr, dc, j, row, col) by {
            if j > 0 {
                assert((row - dr) - (j - 1) * dr == row - j * dr) by (nonlinear_arith);
                assert((col - dc) - (j - 1) * dc == col - j * dc) by (nonlinear_arith);
                assert(has_back(pro, dr, dc, j - 1, row - dr, col - dc));
            }
        }
    }
}

/// Bit (r, c) of a shifted mask is the bit one step back against the shift, or clear when that
/// step leaves the board.
proof fn lemma_shift_cell(x: u64, shift: i8, r: u64, c: u64, y: u64)
    requires
        valid_shift(shift),
        r < 8,
        c < 8,
        y == shifted(x, shift),
    ensures
        bit(y, (r * 8 + c) as u64) == (on_board(r - shift_dr(shift), c - shift_dc(shift)) && bit(
            x,
            ((r - shift_dr(shift)) * 8 + (c - shift_dc(shift))) as u64,
        )),
{
    if shift == 1 {
        assert(bit((x << 1u64) & 0xFEFE_FEFE_FEFE_FEFEu64, (r * 8 + c) as u64) == (c >= 1 && bit(x, (r * 8 + c - 1) as u64))) by (bit_vector)
            requires r < 8, c < 8;
    } else if shift == -1 {
        assert(bit((x >> 1u64) & 0x7F7F_7F7F_7F7F_7F7Fu64, (r * 8 + c) as u64) == (c < 7 && bit(x, (r * 8 + c + 1) as u64))) by (bit_vector)
            requires r < 8, c < 8;
    } else if shift == 8 {
        assert(bit(x << 8u64, (r * 8 + c) as u64) == (r >= 1 && bit(x, (r * 8 + c - 8) as u64))) by (bit_vector)
            requires r < 8, c < 8;
    } else if shift == -8 {
        assert(bit(x >> 8u64, (r * 8 + c) as u64) == (r < 7 && bit(x, (r * 8 + c + 8) as u64))) by (bit_vector)
            requires r < 8, c < 8;
    } else if shift == 9 {
        assert(bit((x << 9u64) & 0xFEFE_FEFE_FEFE_FEFEu64, (r * 8 + c) as u64) == (r >= 1 && c >= 1 && bit(x, (r * 8 + c - 9) as u64))) by (bit_vector)
            requires r < 8, c < 8;
    } else if shift == -9 {
        assert(bit((x >> 9u64) & 0x7F7F_7F7F_7F7F_7F7Fu64, (r * 8 + c) as u64) == (r < 7 && c < 7 && bit(x, (r * 8 + c + 9) as u64))) by (bit_vector)
            requires r < 8, c < 8;
    } else if shift == 7 {
        assert(bit((x << 7u64) & 0x7F7F_7F7F_7F7F_7F7Fu64, (r * 8 + c) as u64) == (r >= 1 && c < 7 && bit(x, (r * 8 + c - 7) as u64))) by (bit_vector)
            requires r < 8, c < 8;
    } else {
        assert(bit((x >> 7u64) & 0xFEFE_FEFE_FEFE_FEFEu64, (r * 8 + c) as u64) == (r < 7 && c >= 1 && bit(x, (r * 8 + c + 7) as u64))) by (bit_vector)
            requires r < 8, c < 8;
    }
}

impl BitBoard {
    /// The empty mask.
    pub fn new() -> (r: BitBoard)
        ensures
            r.0 == 0,
            forall|row: int, col: int| !r.has(row, col),
            forall|i: int| !r.has_index(i),
    {
        proof {
            assert forall|i: u64| !bit(0u64, i) by {
                assert(!bit(0u64, i)) by (bit_vector);
            }
        }
        BitBoard(0)
    }

    /// Whether no cell is held.
    pub fn is_empty(&self) -> (r: bool)
        ensures
            r == (self.0 == 0),
            r == (forall|row: int, col: int| !self.has(row, col)),
    {
        proof {
            let x = self.0;
            if x != 0 {
                assert(exists|i: u64| i < 64 && bit(x, i)) by {
                    assert(x != 0 ==> bit(x, vstd::std_specs::bits::u64_trailing_zeros(x) as u64)) by {
                        vstd::std_specs::bits::axiom_u64_trailing_zeros(x);
                    }
                    vstd::std_specs::bits::axiom_u64_trailing_zeros(x);
                }
                let i = choose|i: u64| i < 64 && bit(x, i);
                let row = (i / 8) as int;
                let col = (i % 8) as int;
                assert(row * 8 + col == i);
                assert(self.has(row, col));
            } else {
                assert forall|i: u64| !bit(0u64, i) by {
                    assert(!bit(0u64, i)) by (bit_vector);
                }
            }
        }
        self.0 == 0
    }

    /// Whether the cell (row, col) is held.
    pub fn bit(&self, row: i8, col: i8) -> (r: bool)
        requires
            on_board(row as int, col as int),
        ensures
            r == self.has(row as int, col as int),
    {
        let i: u64 = (row * 8 + col) as u64;
        (self.0 >> i) & 1 == 1
    }

    /// The cells held by both masks.
    pub fn and(self, other: BitBoard) -> (r: BitBoard)
        ensures
            r.0 == self.0 & other.0,
            forall|row: int, col: int| #[trigger] r.has(row, col) == (self.has(row, col) && other.has(row, col)),
            forall|i: int| #[trigger] r.has_index(i) == (self.has_index(i) && other.has_index(i)),
    {
        proof {
            lemma_bit_and(self.0, other.0);
        }
        BitBoard(self.0 & other.0)
    }

    /// The cells held by either mask.
    pub fn or(self, other: BitBoard) -> (r: BitBoard)
        ensures
            r.0 == self.0 | other.0,
            forall|row: int, col: int| #[trigger] r.has(row, col) == (self.has(row, col) || other.has(row, col)),
            forall|i: int| #[trigger] r.has_index(i) == (self.has_index(i) || other.has_index(i)),
    {
        proof {
            lemma_bit_or(self.0, other.0);
        }
        BitBoard(self.0 | other.0)
    }

    /// The board cells that the mask does not hold.
    pub fn not(self) -> (r: BitBoard)
        ensures
            r.0 == !self.0,
            forall|row: int, col: int| #[trigger] r.has(row, col) == (on_board(row, col) && !self.has(row, col)),
            forall|i: int| #[trigger] r.has_index(i) == (0 <= i < 64 && !self.has_index(i)),
    {
        proof {
            lemma_bit_not(self.0);
        }
        BitBoard(!self.0)
    }

    /// Moves every held cell one step in the direction of `shift`, dropping the
    /// cells that would leave the board or wrap round to the other edge.
    pub fn shift(&self, shift: i8) -> (r: BitBoard)
        requires
            valid_shift(shift),
        ensures
            forall|row: int, col: int| on_board(row, col) ==> #[trigger] r.has(row, col) == self.has(
                row - shift_dr(shift),
                col - shift_dc(shift),
            ),
    {
        let x = self.0;
        let y = match shift {
            1 => (x << 1u64) & 0xFEFE_FEFE_FEFE_FEFEu64,
            -1 => (x >> 1u64) & 0x7F7F_7F7F_7F7F_7F7Fu64,
            8 => x << 8u64,
            -8 => x >> 8u64,
            9 => (x << 9u64) & 0xFEFE_FEFE_FEFE_FEFEu64,
            -9 => (x >> 9u64) & 0x7F7F_7F7F_7F7F_7F7Fu64,
            7 => (x << 7u64) & 0x7F7F_7F7F_7F7F_7F7Fu64,
            _ => (x >> 7u64) & 0xFEFE_FEFE_FEFE_FEFEu64,
        };
        proof {
            assert(y == shifted(x, shift));
            assert forall|row: int, col: int| on_board(row, col) implies #[trigger] BitBoard(y).has(row, col)
                == self.has(row - shift_dr(shift), col - shift_dc(shift)) by {
                lemma_shift_cell(x, shift, row as u64, col as u64, y);
            }
        }
        BitBoard(y)
    }
}

impl BitBoard {
    /// The mask of the single cell (row, col).
    pub fn from_pos(row: i8, col: i8) -> (r: BitBoard)
        requires
            on_board(row as int, col as int),
        ensures
            forall|i: int| #[trigger] r.has_index(i) == (i == row * 8 + col),
    {
        let i: u64 = (row * 8 + col) as u64;
        proof {
            assert forall|j: int| #[trigger] BitBoard(1u64 << i).has_index(j) == (j == i) by {
                if 0 <= j < 64 {
                    let jj = j as u64;
                    assert(bit(1u64 << i, jj) == (jj == i)) by (bit_vector)
                        requires i < 64;
                }
            }
        }
        BitBoard(1u64 << i)
    }

    /// The number of cells held.
    pub fn count(&self) -> (r: u32)
        ensures
            r == ones_below(self.0, 64),
    {
        count_ones(self.0)
    }

    /// The lowest cell held, alone; the empty mask when none is.
    pub fn next_bit(&self) -> (r: BitBoard)
        ensures
            self.0 == 0 ==> r == *self,
            self.0 != 0 ==> {
                &&& 0 <= self.lowest() < 64
                &&& self.has_index(self.lowest())
                &&& forall|i: int| i < self.lowest() ==> !#[trigger] self.has_index(i)
                &&& forall|i: int| #[trigger] r.has_index(i) == (i == self.lowest())
            },
    {
        if self.0 == 0 {
            return *self;
        }
        proof {
            lemma_lowest_bit(self.0);
        }
        let new_val = self.0 & (self.0 - 1);
        let lsb = self.0 - new_val;
        proof {
            assert forall|i: int| i < self.lowest() implies !#[trigger] self.has_index(i) by {
                if 0 <= i {
                    assert(!bit(self.0, i as u64));
                }
            }
            assert forall|i: int| #[trigger] BitBoard(lsb).has_index(i) == (i == self.lowest()) by {
                if 0 <= i < 64 {
                    assert(bit(lsb, i as u64) == (i as u64 == self.lowest() as u64));
                }
            }
        }
        BitBoard(lsb)
    }

    /// Takes the lowest cell held out of the mask and returns it alone; the empty mask
    /// when none is held.
    pub fn pop_next_bit(&mut self) -> (r: BitBoard)
        ensures
            old(self).0 == 0 ==> r == *old(self) && *final(self) == *old(self),
            old(self).0 != 0 ==> {
                &&& 0 <= old(self).lowest() < 64
                &&& old(self).has_index(old(self).lowest())
                &&& forall|i: int| i < old(self).lowest() ==> !#[trigger] old(self).has_index(i)
                &&& forall|i: int| #[trigger] r.has_index(i) == (i == old(self).lowest())
                &&& forall|i: int| #[trigger] final(self).has_index(i) == (old(self).has_index(i) && i
                    != old(self).lowest())
                &&& final(self).0 < old(self).0
            },
    {
        if self.0 == 0 {
            return *self;
        }
        proof {
            lemma_lowest_bit(self.0);
        }
        let ghost x = self.0;
        let new_val = self.0 & (self.0 - 1);
        let lsb = self.0 - new_val;
        proof {
            assert forall|i: int| i < self.lowest() implies !#[trigger] self.has_index(i) by {
                if 0 <= i {
                    assert(!bit(self.0, i as u64));
                }
            }
            assert forall|i: int| #[trigger] BitBoard(lsb).has_index(i) == (i == self.lowest()) by {
                if 0 <= i < 64 {
                    assert(bit(lsb, i as u64) == (i as u64 == self.lowest() as u64));
                }
            }
            assert forall|i: int| #[trigger] BitBoard(new_val).has_index(i) == (self.has_index(i) && i
                != self.lowest()) by {
                if 0 <= i < 64 {
                    assert(bit(new_val, i as u64) == (bit(x, i as u64) && i as u64 != self.lowest() as u64));
                }
            }
            assert(new_val != x) by {
                assert(!bit(new_val, self.lowest() as u64));
            }
        }
        self.0 = new_val;
        BitBoard(lsb)
    }

    /// The (row, col) of the lowest cell held.
    pub fn to_bit_pos(self) -> (r: (i8, i8))
        requires
            self.0 != 0,
        ensures
            r.0 == self.lowest() / 8,
            r.1 == self.lowest() % 8,
    {
        proof {
            vstd::std_specs::bits::axiom_u64_trailing_zeros(self.0);
        }
        let bit_num = self.0.trailing_zeros() as i8;
        (bit_num / 8, bit_num % 8)
    }
}

/// The cells marked `X` in the text `s` from its `k`-th character on, the next cell being
/// (row, col): rows end at a newline, and every other character takes one cell.
pub open spec fn text_marks(s: Seq<char>, k: int, row: int, col: int) -> Set<int>
    decreases s.len() - k,
{
    if k >= s.len() || k < 0 {
        Set::empty()
    } else if s[k] == '\n' {
        text_marks(s, k + 1, row + 1, 0)
    } else if s[k] == 'X' {
        text_marks(s, k + 1, row, col + 1).insert(row * 8 + col)
    } else {
        text_marks(s, k + 1, row, col + 1)
    }
}

/// Every `X` of `s` from its `k`-th character on falls on the board.
pub open spec fn marks_fit(s: Seq<char>, k: int, row: int, col: int) -> bool
    decreases s.len() - k,
{
    if k >= s.len() || k < 0 {
        true
    } else if s[k] == '\n' {
        marks_fit(s, k + 1, row + 1, 0)
    } else if s[k] == 'X' {
        on_board(row, col) && marks_fit(s, k + 1, row, col + 1)
    } else {
        marks_fit(s, k + 1, row, col + 1)
    }
}

/// The text of row `r` of a mask: `X` for a held cell, `·` for another.
pub open spec fn mask_row(b: BitBoard, r: int) -> Seq<char> {
    Seq::new(8, |c: int| if b.has(r, c) { 'X' } else { '·' })
}

/// The text of the first `n` rows of a mask, separated by newlines.
pub open spec fn mask_rows(b: BitBoard, n: int) -> Seq<char>
    decreases n,
{
    if n <= 1 {
        mask_row(b, 0)
    } else {
        mask_rows(b, n - 1).push('\n') + mask_row(b, n - 1)
    }
}

impl BitBoard {
    /// The mask of the listed cells.
    pub fn from_positions(positions: &[(i8, i8)]) -> (r: BitBoard)
        requires
            forall|q: int| 0 <= q < positions@.len() ==> on_board(#[trigger] positions@[q].0 as int, positions@[q].1 as int),
        ensures
            forall|i: int| #[trigger] r.has_index(i) == exists|q: int|
                0 <= q < positions@.len() && i == positions@[q].0 * 8 + positions@[q].1,
    {
        let mut bb = BitBoard::new();
        let mut k: usize = 0;
        while k < positions.len()
            invariant
                k <= positions@.len(),
                forall|q: int| 0 <= q < positions@.len() ==> on_board(#[trigger] positions@[q].0 as int, positions@[q].1 as int),
                forall|i: int| #[trigger] bb.has_index(i) == exists|q: int|
                    0 <= q < k && i == positions@[q].0 * 8 + positions@[q].1,
            decreases positions.len() - k,
        {
            let (row, col) = positions[k];
            proof {
                assert(on_board(positions@[k as int].0 as int, positions@[k as int].1 as int));
            }
            let prev = bb;
            bb = bb.or(BitBoard::from_pos(row, col));
            proof {
                assert forall|i: int| #[trigger] bb.has_index(i) == exists|q: int|
                    0 <= q < k + 1 && i == positions@[q].0 * 8 + positions@[q].1 by {
                    if exists|q: int| 0 <= q < k + 1 && i == positions@[q].0 * 8 + positions@[q].1 {
                        let q = choose|q: int| 0 <= q < k + 1 && i == positions@[q].0 * 8 + positions@[q].1;
                        if q < k {
                            assert(prev.has_index(i));
                        }
                    }
                }
            }
            k += 1;
        }
        bb
    }

    /// The mask of the cells marked `X` in a text of rows separated by newlines.
    pub fn from_text(value: &str) -> (r: BitBoard)
        requires
            marks_fit(value@, 0, 0, 0),
        ensures
            forall|i: int| #[trigger] r.has_index(i) == text_marks(value@, 0, 0, 0).contains(i),
    {
        let mut bb = BitBoard::new();
        let n = value.unicode_len();
        let mut k: usize = 0;
        let mut row: usize = 0;
        let mut col: usize = 0;
        let ghost mut got: Set<int> = Set::empty();
        proof {
            assert(got.union(text_marks(value@, 0, 0, 0)) =~= text_marks(value@, 0, 0, 0));
        }
        while k < n
            invariant
                n == value@.len(),
                k <= n,
                row <= k,
                col <= k,
                marks_fit(value@, k as int, row as int, col as int),
                forall|i: int| #[trigger] bb.has_index(i) == got.contains(i),
                got.union(text_marks(value@, k as int, row as int, col as int)) == text_marks(value@, 0, 0, 0),
            decreases n - k,
        {
            let ch = value.get_char(k);
            if ch == '\n' {
                proof {
                    assert(text_marks(value@, k as int, row as int, col as int) == text_marks(value@, k + 1, row + 1, 0));
                }
                row += 1;
                col = 0;
            } else {
                let ghost rest = text_marks(value@, k + 1, row as int, col + 1);
                if ch == 'X' {
                    proof {
                        assert(text_marks(value@, k as int, row as int, col as int) == rest.insert(row * 8 + col));
                        assert(got.insert(row * 8 + col).union(rest) =~= got.union(rest.insert(row * 8 + col)));
                        got = got.insert(row * 8 + col);
                    }
                    bb = bb.or(BitBoard::from_pos(row as i8, col as i8));
                } else {
                    proof {
                        assert(text_marks(value@, k as int, row as int, col as int) == rest);
                    }
                }
                col += 1;
            }
            k += 1;
        }
        proof {
            assert(got.union(text_marks(value@, k as int, row as int, col as int)) =~= got);
        }
        bb
    }

    /// The text of the mask: eight rows of `X` for a held cell and `·` for another,
    /// separated by newlines.
    pub fn to_text(&self) -> (r: String)
        ensures
            r@ == mask_rows(*self, 8),
    {
        let mut out = String::new();
        let mut i: i8 = 0;
        while i < 8
            invariant
                0 <= i <= 8,
                i == 0 ==> out@ == Seq::<char>::empty(),
                i > 0 ==> out@ == mask_rows(*self, i as int),
            decreases 8 - i,
        {
            let ghost start = out@;
            if i > 0 {
                out.append("\n");
                proof {
                    reveal_strlit("\n");
                }
            }
            let ghost row_start = out@;
            let mut j: i8 = 0;
            while j < 8
                invariant
                    0 <= i < 8,
                    0 <= j <= 8,
                    out@ == row_start + mask_row(*self, i as int).take(j as int),
                decreases 8 - j,
            {
                proof {
                    reveal_strlit("X");
                    reveal_strlit("·");
                }
                if self.bit(i, j) {
                    out.append("X");
                } else {
                    out.append("·");
                }
                proof {
                    assert(out@ =~= row_start + mask_row(*self, i as int).take(j + 1));
                }
                j += 1;
            }
            proof {
                assert(mask_row(*self, i as int).take(8) =~= mask_row(*self, i as int));
                if i == 0 {
                    assert(out@ =~= mask_rows(*self, 1));
                } else {
                    assert(out@ =~= mask_rows(*self, i + 1));
                }
            }
            i += 1;
        }
        out
    }
}

/// The number of set bits of `x` among its lowest `n`.
pub open spec fn ones_below(x: u64, n: int) -> int
    decreases n,
{
    if n <= 0 {
        0
    } else {
        ones_below(x, n - 1) + if bit(x, (n - 1) as u64) {
            1int
        } else {
            0int
        }
    }
}

/// Relies on `u64::count_ones`: the number of set bits.
#[verifier::external_body]
fn count_ones(x: u64) -> (r: u32)
    ensures
        r == ones_below(x, 64),
{
    x.count_ones()
}

/// Fills from `gen` along the direction of `shift` through the cells of `pro`, for six
/// steps: with its start a fill spans seven cells, the most that a line of eight can hold
/// before a last one. The result keeps `gen` itself and every cell reached.
pub fn dumb7fill(gen: BitBoard, pro: BitBoard, shift: i8) -> (flood: BitBoard)
    requires
        valid_shift(shift),
    ensures
        forall|row: int, col: int| #[trigger] flood.has(row, col) == exists|k: int|
            0 <= k <= 6 && slides(gen, pro, shift_dr(shift), shift_dc(shift), k, row, col),
{
    let ghost dr = shift_dr(shift);
    let ghost dc = shift_dc(shift);
    let mut g = gen;
    let mut flood = gen;
    let mut i: u32 = 1;
    proof {
        assert forall|row: int, col: int| #[trigger] flood.has(row, col) == exists|k: int|
            0 <= k < 1 && slides(gen, pro, dr, dc, k, row, col) by {
            assert(has_back(gen, dr, dc, 0, row, col) == gen.has(row, col));
            if gen.has(row, col) {
                assert(slides(gen, pro, dr, dc, 0, row, col));
            }
        }
    }
    while i < 7
        invariant
            1 <= i <= 7,
            valid_shift(shift),
            dr == shift_dr(shift),
            dc == shift_dc(shift),
            forall|row: int, col: int| #[trigger] g.has(row, col) == slides(gen, pro, dr, dc, i - 1, row, col),
            forall|row: int, col: int| #[trigger] flood.has(row, col) == exists|k: int|
                0 <= k < i && slides(gen, pro, dr, dc, k, row, col),
        decreases 7 - i,
    {
        let g2 = g.shift(shift).and(pro);
        proof {
            assert forall|row: int, col: int| #[trigger] g2.has(row, col) == slides(gen, pro, dr, dc, i as int, row, col) by {
                lemma_slides_step(gen, pro, dr, dc, i - 1, row, col);
                if !on_board(row, col) {
                    assert(!has_back(pro, dr, dc, 0, row, col));
                }
            }
        }
        g = g2;
        flood = flood.or(g);
        i = i + 1;
    }
    flood
}

/// As `dumb7fill`, but the result leaves out `gen` itself: only the cells reached in one
/// to six steps.
pub fn dumb7fill_occluded(gen: BitBoard, pro: BitBoard, shift: i8) -> (flood: BitBoard)
    requires
        valid_shift(shift),
    ensures
        forall|row: int, col: int| #[trigger] flood.has(row, col) == exists|k: int|
            1 <= k <= 6 && slides(gen, pro, shift_dr(shift), shift_dc(shift), k, row, col),
{
    let ghost dr = shift_dr(shift);
    let ghost dc = shift_dc(shift);
    let mut g = gen;
    let mut flood = BitBoard::new();
    let mut i: u32 = 1;
    while i < 7
        invariant
            1 <= i <= 7,
            valid_shift(shift),
            dr == shift_dr(shift),
            dc == shift_dc(shift),
            forall|row: int, col: int| #[trigger] g.has(row, col) == slides(gen, pro, dr, dc, i - 1, row, col),
            forall|row: int, col: int| #[trigger] flood.has(row, col) == exists|k: int|
                1 <= k < i && slides(gen, pro, dr, dc, k, row, col),
        decreases 7 - i,
    {
        let g2 = g.shift(shift).and(pro);
        proof {
            assert forall|row: int, col: int| #[trigger] g2.has(row, col) == slides(gen, pro, dr, dc, i as int, row, col) by {
                lemma_slides_step(gen, pro, dr, dc, i - 1, row, col);
                if !on_board(row, col) {
                    assert(!has_back(pro, dr, dc, 0, row, col));
                }
            }
        }
        g = g2;
        flood = flood.or(g);
        i = i + 1;
    }
    flood
}

} // verus!
