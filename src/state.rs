//! The game state: a board and the player to move, with the textual board format.

use vstd::prelude::*;
use vstd::string::StrSliceExecFns;
use vstd::string::StringExecFns;

use crate::bitboard::on_board;
use crate::default::DefaultBoard;
use crate::game::{after_move, at, count, empty_cells, initial_cells, is_legal, legal_moves, Board, Cells, Colour, Move, Pos, Score};

verus! {

/// The operations of a game in progress, as the players and the search see it.
pub trait Game {
    /// What each cell holds.
    spec fn position(&self) -> Cells;

    /// The player to move.
    spec fn turn(&self) -> Colour;

    /// The invariant of the representation.
    spec fn valid(&self) -> bool;

    proof fn lemma_position_len(&self)
        requires
            self.valid(),
        ensures
            self.position().len() == 64,
    ;

    /// The player to move.
    fn next_turn(&self) -> (r: Colour)
        ensures
            r == self.turn(),
    ;

    /// Whether `mov` is legal for `mov.player`.
    fn is_valid_move(&self, mov: Move) -> (r: bool)
        requires
            self.valid(),
        ensures
            r == is_legal(self.position(), mov.player, mov.row as int, mov.col as int),
    ;

    /// The legal moves of `for_player`, in row-major order.
    fn valid_moves(&self, for_player: Colour) -> (r: Vec<Move>)
        requires
            self.valid(),
        ensures
            r@ == legal_moves(self.position(), for_player),
    ;

    /// Plays the legal move `mov`; the turn passes to the other player.
    fn apply_in_place(&mut self, mov: Move)
        requires
            old(self).valid(),
            is_legal(old(self).position(), mov.player, mov.row as int, mov.col as int),
        ensures
            final(self).valid(),
            final(self).position() == after_move(old(self).position(), mov.player, mov.row as int, mov.col as int),
            final(self).turn() == old(self).turn().opponent(),
    ;

    /// What the cell (row, col) holds.
    fn get_piece(&self, row: Pos, col: Pos) -> (r: Option<Colour>)
        requires
            self.valid(),
            on_board(row as int, col as int),
        ensures
            r == at(self.position(), row as int, col as int),
    ;

    /// The numbers of Black and of White discs.
    fn scores(&self) -> (r: (Score, Score))
        requires
            self.valid(),
        ensures
            r.0 == count(self.position(), Colour::Black),
            r.1 == count(self.position(), Colour::White),
    ;
}

/// A board and the player to move.
#[derive(Clone, PartialEq)]
pub struct GameRepr<B: Board> {
    pub next_turn: Colour,
    pub board: B,
}

/// A game on the dense board.
pub type DefaultGame = GameRepr<DefaultBoard>;

impl<B: Board> GameRepr<B> {
    /// An empty board, Black to move.
    pub fn empty() -> (g: Self)
        ensures
            g.board.wf(),
            g.board.cells() == empty_cells(),
            g.next_turn == Colour::Black,
    {
        let board = B::empty();
        GameRepr { next_turn: Colour::Black, board }
    }

    /// The starting position, Black to move.
    pub fn new() -> (g: Self)
        ensures
            g.board.wf(),
            g.board.cells() == initial_cells(),
            g.next_turn == Colour::Black,
    {
        let mut board = B::empty();
        board.set(3, 3, Some(Colour::Black));
        board.set(3, 4, Some(Colour::White));
        board.set(4, 3, Some(Colour::White));
        board.set(4, 4, Some(Colour::Black));
        GameRepr { next_turn: Colour::Black, board }
    }

    /// The game after the legal move `mov`; the turn passes to the other player whoever
    /// moved.
    pub fn apply(&self, mov: Move) -> (g: Self)
        requires
            self.board.wf(),
            is_legal(self.board.cells(), mov.player, mov.row as int, mov.col as int),
        ensures
            g.board.wf(),
            g.board.cells() == after_move(self.board.cells(), mov.player, mov.row as int, mov.col as int),
            g.next_turn == self.next_turn.opponent(),
    {
        GameRepr { board: self.board.apply(mov), next_turn: self.next_turn.opponent() }
    }
}

impl<B: Board> Default for GameRepr<B> {
    /// The starting position, Black to move.
    fn default() -> (g: Self)
        ensures
            g.board.wf(),
            g.board.cells() == initial_cells(),
            g.next_turn == Colour::Black,
    {
        GameRepr::new()
    }
}

impl<B: Board> Game for GameRepr<B> {
    open spec fn position(&self) -> Cells {
        self.board.cells()
    }

    open spec fn turn(&self) -> Colour {
        self.next_turn
    }

    open spec fn valid(&self) -> bool {
        self.board.wf()
    }

    proof fn lemma_position_len(&self) {
        self.board.lemma_cells_len();
    }

    fn next_turn(&self) -> (r: Colour) {
        self.next_turn
    }

    fn is_valid_move(&self, mov: Move) -> (r: bool) {
        self.board.is_valid_move(mov)
    }

    fn valid_moves(&self, for_player: Colour) -> (r: Vec<Move>) {
        self.board.moves(for_player)
    }

    fn apply_in_place(&mut self, mov: Move) {
        let new_g = GameRepr { board: self.board.apply(mov), next_turn: self.next_turn.opponent() };
        *self = new_g;
    }

    fn get_piece(&self, row: Pos, col: Pos) -> (r: Option<Colour>) {
        self.board.get(row, col)
    }

    fn scores(&self) -> (r: (Score, Score)) {
        self.board.scores()
    }
}

/// Why a text is not a board.
#[derive(Clone, Copy, Debug, PartialEq, Eq, Structural)]
pub enum GameParseError {
    TooManyRows,
    TooManyColumns,
    InvalidPiece,
}

/// What a character of the textual board stands for: `○` Black, `●` White, `·` an empty
/// cell; `None` for any other character.
pub open spec fn piece_of(c: char) -> Option<Option<Colour>> {
    if c == '○' {
        Some(Some(Colour::Black))
    } else if c == '●' {
        Some(Some(Colour::White))
    } else if c == '·' {
        Some(None)
    } else {
        None
    }
}

/// The character that stands for what a cell holds.
pub open spec fn glyph(piece: Option<Colour>) -> char {
    match piece {
        Some(Colour::Black) => '○',
        Some(Colour::White) => '●',
        None => '·',
    }
}

/// Reads `s` from its `k`-th character on, the next cell being (row, col) and `cells` what
/// was read so far. Rows end at a newline; each other character fills the next cell of its
/// row. The first character that is not a piece is an error; so is a piece in a ninth row
/// or a ninth column.
pub open spec fn parse_from(s: Seq<char>, k: int, row: int, col: int, cells: Cells) -> Result<Cells, GameParseError>
    decreases s.len() - k,
{
    if k >= s.len() || k < 0 {
        Ok(cells)
    } else if s[k] == '\n' {
        parse_from(s, k + 1, row + 1, 0, cells)
    } else {
        match piece_of(s[k]) {
            None => Err(GameParseError::InvalidPiece),
            Some(piece) => if row >= 8 {
                Err(GameParseError::TooManyRows)
            } else if col >= 8 {
                Err(GameParseError::TooManyColumns)
            } else {
                parse_from(s, k + 1, row, col + 1, cells.update(row * 8 + col, piece))
            },
        }
    }
}

/// The board that the text `s` describes; cells that it leaves out are empty.
pub open spec fn parse_board(s: Seq<char>) -> Result<Cells, GameParseError> {
    parse_from(s, 0, 0, 0, empty_cells())
}

/// The text of the first `n` rows: eight characters and a newline each.
pub open spec fn render_rows(cells: Cells, n: int) -> Seq<char>
    decreases n,
{
    if n <= 0 {
        Seq::empty()
    } else {
        render_rows(cells, n - 1) + Seq::new(8, |c: int| glyph(cells[(n - 1) * 8 + c])).push('\n')
    }
}

/// The text of a whole board.
pub open spec fn render_board(cells: Cells) -> Seq<char> {
    render_rows(cells, 8)
}

impl<B: Board> GameRepr<B> {
    /// Reads a board in the textual format; Black is to move.
    pub fn parse(value: &str) -> (r: Result<Self, GameParseError>)
        ensures
            match r {
                Ok(g) => g.board.wf() && parse_board(value@) == Ok::<Cells, GameParseError>(g.board.cells())
                    && g.next_turn == Colour::Black,
                Err(e) => parse_board(value@) == Err::<Cells, GameParseError>(e),
            },
    {
        let mut game: GameRepr<B> = GameRepr::empty();
        let n = value.unicode_len();
        let mut k: usize = 0;
        let mut row: usize = 0;
        let mut col: usize = 0;
        while k < n
            invariant
                n == value@.len(),
                k <= n,
                row <= k,
                col <= k,
                game.board.wf(),
                game.next_turn == Colour::Black,
                parse_board(value@) == parse_from(value@, k as int, row as int, col as int, game.board.cells()),
            decreases n - k,
        {
            let ch = value.get_char(k);
            if ch == '\n' {
                row += 1;
                col = 0;
            } else {
                let piece = match ch {
                    '○' => Some(Colour::Black),
                    '●' => Some(Colour::White),
                    '·' => None,
                    _ => {
                        return Err(GameParseError::InvalidPiece);
                    },
                };
                if row >= 8 {
                    return Err(GameParseError::TooManyRows);
                }
                if col >= 8 {
                    return Err(GameParseError::TooManyColumns);
                }
                game.board.set(row as i8, col as i8, piece);
                col += 1;
            }
            k += 1;
        }
        Ok(game)
    }

    /// The board in the textual format: eight rows of eight characters, each row ending in
    /// a newline.
    pub fn render(&self) -> (r: String)
        requires
            self.board.wf(),
        ensures
            r@ == render_board(self.board.cells()),
    {
        proof {
            self.board.lemma_cells_len();
        }
        let mut out = String::new();
        let mut i: i8 = 0;
        while i < 8
            invariant
                0 <= i <= 8,
                self.board.wf(),
                self.board.cells().len() == 64,
                out@ == render_rows(self.board.cells(), i as int),
            decreases 8 - i,
        {
            let ghost start = out@;
            let mut j: i8 = 0;
            while j < 8
                invariant
                    0 <= i < 8,
                    0 <= j <= 8,
                    self.board.wf(),
                    self.board.cells().len() == 64,
                    out@ == start + Seq::new(j as nat, |c: int| glyph(self.board.cells()[i * 8 + c])),
                decreases 8 - j,
            {
                let piece = self.board.get(i, j);
                proof {
                    reveal_strlit("○");
                    reveal_strlit("●");
                    reveal_strlit("·");
                }
                match piece {
                    Some(Colour::Black) => out.append("○"),
                    Some(Colour::White) => out.append("●"),
                    None => out.append("·"),
                }
                proof {
                    assert(out@ =~= start + Seq::new((j + 1) as nat, |c: int| glyph(self.board.cells()[i * 8 + c])));
                }
                j += 1;
            }
            out.append("\n");
            proof {
                reveal_strlit("\n");
                assert(out@ =~= render_rows(self.board.cells(), i + 1));
            }
            i += 1;
        }
        out
    }
}

/// A board whose every cell is empty, Black or White at random.
pub fn random_board<B: Board>() -> (r: B)
    ensures
        r.wf(),
{
    let choices: Vec<Option<Colour>> = vec![None, Some(Colour::Black), Some(Colour::White)];
    let mut pieces: Vec<Option<Colour>> = Vec::new();
    while pieces.len() < 64
        invariant
            pieces.len() <= 64,
            choices.len() == 3,
        decreases 64 - pieces.len(),
    {
        let piece = crate::random::choose_one(&choices);
        pieces.push(piece.unwrap());
    }
    board_from_pieces(&pieces)
}

/// The board whose cells, row by row, hold `pieces`.
pub fn board_from_pieces<B: Board>(pieces: &Vec<Option<Colour>>) -> (r: B)
    requires
        pieces.len() == 64,
    ensures
        r.wf(),
        r.cells() == pieces@,
{
    let mut board = B::empty();
    proof {
        board.lemma_cells_len();
    }
    let mut i: i8 = 0;
    while i < 8
        invariant
            0 <= i <= 8,
            pieces.len() == 64,
            board.wf(),
            board.cells().len() == 64,
            forall|k: int| 0 <= k < i * 8 ==> #[trigger] board.cells()[k] == pieces@[k],
        decreases 8 - i,
    {
        let mut j: i8 = 0;
        while j < 8
            invariant
                0 <= i < 8,
                0 <= j <= 8,
                pieces.len() == 64,
                board.wf(),
                board.cells().len() == 64,
                forall|k: int| 0 <= k < i * 8 + j ==> #[trigger] board.cells()[k] == pieces@[k],
            decreases 8 - j,
        {
            let piece = pieces[(i * 8 + j) as usize];
            board.set(i, j, piece);
            j += 1;
        }
        i += 1;
    }
    proof {
        assert(board.cells() =~= pieces@);
    }
    board
}

/// `acc` below index `p`, `cells` from `p` on.
pub open spec fn merged(acc: Cells, cells: Cells, p: int) -> Cells {
    Seq::new(64, |i: int| if i < p { acc[i] } else { cells[i] })
}

proof fn lemma_render_layout(cells: Cells, r: int)
    requires
        0 <= r <= 8,
        cells.len() == 64,
    ensures
        render_rows(cells, r).len() == 9 * r,
        forall|k: int| 0 <= k < 9 * r ==> #[trigger] render_rows(cells, r)[k] == if k % 9 == 8 {
            '\n'
        } else {
            glyph(cells[(k / 9) * 8 + k % 9])
        },
    decreases r,
{
    if r > 0 {
        lemma_render_layout(cells, r - 1);
        let prev = render_rows(cells, r - 1);
        let row = Seq::new(8, |c: int| glyph(cells[(r - 1) * 8 + c])).push('\n');
        assert forall|k: int| 0 <= k < 9 * r implies #[trigger] render_rows(cells, r)[k] == if k % 9 == 8 {
            '\n'
        } else {
            glyph(cells[(k / 9) * 8 + k % 9])
        } by {
            if k >= 9 * (r - 1) {
                assert(k / 9 == r - 1);
                assert(render_rows(cells, r)[k] == row[k - 9 * (r - 1)]);
            } else {
                assert(render_rows(cells, r)[k] == prev[k]);
            }
        }
    }
}

proof fn lemma_parse_rendered(cells: Cells, r: int, c: int, acc: Cells)
    requires
        cells.len() == 64,
        acc.len() == 64,
        0 <= r <= 8,
        0 <= c <= 8,
        r == 8 ==> c == 0,
    ensures
        parse_from(render_board(cells), 9 * r + c, r, c, acc) == Ok::<Cells, GameParseError>(merged(acc, cells, 8 * r + c)),
    decreases 72 - (9 * r + c),
{
    let s = render_board(cells);
    lemma_render_layout(cells, 8);
    let k = 9 * r + c;
    if r == 8 {
        assert(merged(acc, cells, 64) =~= acc);
    } else if c == 8 {
        assert(k % 9 == 8);
        assert(s[k] == '\n');
        lemma_parse_rendered(cells, r + 1, 0, acc);
    } else {
        assert(k % 9 == c && k / 9 == r);
        let x = cells[8 * r + c];
        assert(s[k] == glyph(x));
        assert(piece_of(glyph(x)) == Some(x));
        let acc2 = acc.update(8 * r + c, x);
        lemma_parse_rendered(cells, r, c + 1, acc2);
        assert(merged(acc2, cells, 8 * r + c + 1) =~= merged(acc, cells, 8 * r + c));
    }
}

/// Reading back the text of a board gives the same board.
pub proof fn lemma_parse_render(cells: Cells)
    requires
        cells.len() == 64,
    ensures
        parse_board(render_board(cells)) == Ok::<Cells, GameParseError>(cells),
{
    lemma_parse_rendered(cells, 0, 0, empty_cells());
    assert(merged(empty_cells(), cells, 0) =~= cells);
}

/// `s` is eight rows of eight piece characters, each row ending in a newline.
pub open spec fn is_full_grid(s: Seq<char>) -> bool {
    &&& s.len() == 72
    &&& forall|k: int| 0 <= k < 72 ==> if k % 9 == 8 {
        #[trigger] s[k] == '\n'
    } else {
        piece_of(s[k]) is Some
    }
}

/// Reading a full grid of eight rows of eight pieces and rendering the board read gives
/// the same text back.
pub proof fn lemma_render_parse(s: Seq<char>)
    requires
        is_full_grid(s),
    ensures
        parse_board(s) is Ok,
        render_board(parse_board(s)->Ok_0) == s,
{
    let cells = Seq::new(64, |i: int| piece_of(s[(i / 8) * 9 + i % 8])->0);
    lemma_render_layout(cells, 8);
    assert forall|k: int| 0 <= k < 72 implies #[trigger] render_board(cells)[k] == s[k] by {
        if k % 9 != 8 {
            let i = (k / 9) * 8 + k % 9;
            assert(i / 8 == k / 9 && i % 8 == k % 9);
            assert((i / 8) * 9 + i % 8 == k);
            assert(piece_of(s[k]) is Some);
        }
    }
    assert(render_board(cells) =~= s);
    lemma_parse_render(cells);
}

/// Every character of `s` from its `k`-th on that is not a newline lies within the eight
/// rows and eight columns of the board, the next cell being (row, col).
pub open spec fn within_grid(s: Seq<char>, k: int, row: int, col: int) -> bool
    decreases s.len() - k,
{
    if k >= s.len() || k < 0 {
        true
    } else if s[k] == '\n' {
        within_grid(s, k + 1, row + 1, 0)
    } else {
        row < 8 && col < 8 && within_grid(s, k + 1, row, col + 1)
    }
}

/// `s` has, from its `k`-th character on, a character that is neither a newline nor a piece.
pub open spec fn has_bad_char(s: Seq<char>, k: int) -> bool {
    exists|q: int| k <= q < s.len() && #[trigger] s[q] != '\n' && piece_of(s[q]) is None
}

proof fn lemma_bad_char_from(s: Seq<char>, k: int, row: int, col: int, acc: Cells)
    requires
        0 <= k,
        within_grid(s, k, row, col),
        has_bad_char(s, k),
    ensures
        parse_from(s, k, row, col, acc) == Err::<Cells, GameParseError>(GameParseError::InvalidPiece),
    decreases s.len() - k,
{
    let q = choose|q: int| k <= q < s.len() && #[trigger] s[q] != '\n' && piece_of(s[q]) is None;
    if s[k] == '\n' {
        assert(has_bad_char(s, k + 1));
        lemma_bad_char_from(s, k + 1, row + 1, 0, acc);
    } else if piece_of(s[k]) is Some {
        assert(q != k);
        assert(has_bad_char(s, k + 1));
        let piece = piece_of(s[k])->0;
        lemma_bad_char_from(s, k + 1, row, col + 1, acc.update(row * 8 + col, piece));
    }
}

/// A text within the eight rows and eight columns of the board that holds a character other
/// than a newline or a piece is refused as an invalid piece.
pub proof fn lemma_bad_char_in_grid(s: Seq<char>)
    requires
        within_grid(s, 0, 0, 0),
        has_bad_char(s, 0),
    ensures
        parse_board(s) == Err::<Cells, GameParseError>(GameParseError::InvalidPiece),
{
    lemma_bad_char_from(s, 0, 0, 0, empty_cells());
}

/// Boards that hold the same discs, whatever their representations, have the same legal
/// moves for each colour, and a legal move leaves both holding the same discs.
pub proof fn lemma_representations_agree<B1: Board, B2: Board>(a: &B1, b: &B2, player: Colour, mov: Move)
    requires
        a.wf(),
        b.wf(),
        a.cells() == b.cells(),
    ensures
        legal_moves(a.cells(), player) == legal_moves(b.cells(), player),
        is_legal(a.cells(), mov.player, mov.row as int, mov.col as int) == is_legal(
            b.cells(),
            mov.player,
            mov.row as int,
            mov.col as int,
        ),
        after_move(a.cells(), mov.player, mov.row as int, mov.col as int) == after_move(
            b.cells(),
            mov.player,
            mov.row as int,
            mov.col as int,
        ),
{
}

/// A board of another representation holding the same discs as `board`.
pub fn convert_board<B: Board, B2: Board>(board: &B) -> (r: B2)
    requires
        board.wf(),
    ensures
        r.wf(),
        r.cells() == board.cells(),
{
    proof {
        board.lemma_cells_len();
    }
    let mut new_board = B2::empty();
    let mut i: i8 = 0;
    while i < 8
        invariant
            0 <= i <= 8,
            board.wf(),
            board.cells().len() == 64,
            new_board.wf(),
            new_board.cells().len() == 64,
            forall|k: int| 0 <= k < i * 8 ==> #[trigger] new_board.cells()[k] == board.cells()[k],
            forall|k: int| i * 8 <= k < 64 ==> #[trigger] new_board.cells()[k] == None::<Colour>,
        decreases 8 - i,
    {
        let mut j: i8 = 0;
        while j < 8
            invariant
                0 <= i < 8,
                0 <= j <= 8,
                board.wf(),
                board.cells().len() == 64,
                new_board.wf(),
                new_board.cells().len() == 64,
                forall|k: int| 0 <= k < i * 8 + j ==> #[trigger] new_board.cells()[k] == board.cells()[k],
                forall|k: int| i * 8 + j <= k < 64 ==> #[trigger] new_board.cells()[k] == None::<Colour>,
            decreases 8 - j,
        {
            let piece = board.get(i, j);
            new_board.set(i, j, piece);
            j += 1;
        }
        i += 1;
    }
    proof {
        assert(new_board.cells() =~= board.cells());
    }
    new_board
}

/// The same game, on the board representation `B`.
pub fn convert<G: Game, B: Board>(game: &G) -> (r: GameRepr<B>)
    requires
        game.valid(),
    ensures
        r.board.wf(),
        r.board.cells() == game.position(),
        r.next_turn == game.turn(),
{
    proof {
        game.lemma_position_len();
    }
    let mut b = DefaultBoard::empty();
    let mut i: i8 = 0;
    while i < 8
        invariant
            0 <= i <= 8,
            game.valid(),
            game.position().len() == 64,
            b.wf(),
            b.cells().len() == 64,
            forall|k: int| 0 <= k < i * 8 ==> #[trigger] b.cells()[k] == game.position()[k],
        decreases 8 - i,
    {
        let mut j: i8 = 0;
        while j < 8
            invariant
                0 <= i < 8,
                0 <= j <= 8,
                game.valid(),
                game.position().len() == 64,
                b.wf(),
                b.cells().len() == 64,
                forall|k: int| 0 <= k < i * 8 + j ==> #[trigger] b.cells()[k] == game.position()[k],
            decreases 8 - j,
        {
            let piece = game.get_piece(i, j);
            b.set(i, j, piece);
            j += 1;
        }
        i += 1;
    }
    proof {
        assert(b.cells() =~= game.position());
    }
    GameRepr { next_turn: game.next_turn(), board: convert_board(&b) }
}

} // verus!
