use vstd::prelude::*;
use vstd::string::StringSliceAdditionalSpecFns;

verus! {

/// The marker of one of the two players.
#[derive(Clone, Copy, Debug, PartialEq, Eq, Structural)]
pub enum Piece {
    X,
    O,
}

/// A cell of the 3x3 grid: `x` is the column, `y` the row.
#[derive(Clone, Copy, Debug, PartialEq, Eq, Structural)]
pub struct Position {
    pub x: u8,
    pub y: u8,
}

/// Whose turn it is in a game between a person and the computer.
#[derive(Clone, Copy, Debug, PartialEq, Eq, Structural)]
pub enum Turn {
    Player,
    Computer,
}

impl Piece {
    /// The other player's piece.
    pub fn other(self) -> (r: Piece)
        ensures
            r == opponent(self),
    {
        match self {
            Piece::X => Piece::O,
            Piece::O => Piece::X,
        }
    }

    /// The letter that shows the piece on a board.
    pub fn symbol(self) -> (r: char)
        ensures
            r == (match self {
                Piece::X => 'X',
                Piece::O => 'O',
            }),
    {
        match self {
            Piece::X => 'X',
            Piece::O => 'O',
        }
    }
}

impl Turn {
    /// The side that plays after this one.
    pub fn other(self) -> (r: Turn)
        ensures
            r != self,
    {
        match self {
            Turn::Player => Turn::Computer,
            Turn::Computer => Turn::Player,
        }
    }
}

/// What became of a move played in a game.
#[derive(Clone, Copy, Debug, PartialEq, Eq, Structural)]
pub enum MoveOutcome {
    /// The cell was off the board or taken; nothing changed.
    Invalid,
    /// The move completed a line for this piece.
    Won(Piece),
    /// The move filled the last cell and nobody won.
    Draw,
    /// The game goes on with the other player.
    Continue,
}

/// A board: rows of cells, each empty or holding a piece.
pub type Board = Vec<Vec<Option<Piece>>>;

/// The mathematical model of a board: a sequence of rows.
pub type Grid = Seq<Seq<Option<Piece>>>;

pub open spec fn grid(b: &Board) -> Grid {
    b@.map_values(|r: Vec<Option<Piece>>| r@)
}

/// A grid has three rows of three cells each.
pub open spec fn wf_grid(g: Grid) -> bool {
    &&& g.len() == 3
    &&& forall|i: int| 0 <= i < 3 ==> #[trigger] g[i].len() == 3
}

pub open spec fn board_wf(b: &Board) -> bool {
    wf_grid(grid(b))
}

pub open spec fn in_bounds(p: Position) -> bool {
    p.x < 3 && p.y < 3
}

pub open spec fn cell(g: Grid, p: Position) -> Option<Piece> {
    g[p.y as int][p.x as int]
}

pub open spec fn opponent(p: Piece) -> Piece {
    match p {
        Piece::X => Piece::O,
        Piece::O => Piece::X,
    }
}

/// The piece that fills all three given cells, if one does.
pub open spec fn line_winner(a: Option<Piece>, b: Option<Piece>, c: Option<Piece>) -> Option<Piece> {
    if a == b && b == c {
        a
    } else {
        None
    }
}

pub open spec fn row_winner(g: Grid, i: int) -> Option<Piece> {
    line_winner(g[i][0], g[i][1], g[i][2])
}

pub open spec fn col_winner(g: Grid, i: int) -> Option<Piece> {
    line_winner(g[0][i], g[1][i], g[2][i])
}

pub open spec fn diag_winner(g: Grid) -> Option<Piece> {
    line_winner(g[0][0], g[1][1], g[2][2])
}

pub open spec fn anti_diag_winner(g: Grid) -> Option<Piece> {
    line_winner(g[0][2], g[1][1], g[2][0])
}

/// The first completed line, looking at row 0, column 0, row 1, column 1,
/// row 2, column 2, the main diagonal and then the other diagonal.
pub open spec fn winner(g: Grid) -> Option<Piece> {
    if row_winner(g, 0).is_some() {
        row_winner(g, 0)
    } else if col_winner(g, 0).is_some() {
        col_winner(g, 0)
    } else if row_winner(g, 1).is_some() {
        row_winner(g, 1)
    } else if col_winner(g, 1).is_some() {
        col_winner(g, 1)
    } else if row_winner(g, 2).is_some() {
        row_winner(g, 2)
    } else if col_winner(g, 2).is_some() {
        col_winner(g, 2)
    } else if diag_winner(g).is_some() {
        diag_winner(g)
    } else {
        anti_diag_winner(g)
    }
}

/// `p` holds all three cells of some row, column or diagonal.
pub open spec fn has_line(g: Grid, p: Piece) -> bool {
    let s = Some(p);
    ||| exists|i: int| 0 <= i < 3 && #[trigger] row_winner(g, i) == s
    ||| exists|i: int| 0 <= i < 3 && #[trigger] col_winner(g, i) == s
    ||| diag_winner(g) == s
    ||| anti_diag_winner(g) == s
}

/// Every cell is occupied.
pub open spec fn full(g: Grid) -> bool {
    forall|y: int, x: int| 0 <= y < 3 && 0 <= x < 3 ==> (#[trigger] g[y][x]).is_some()
}

pub open spec fn game_over(g: Grid) -> bool {
    winner(g).is_some() || full(g)
}

pub open spec fn valid_move(g: Grid, p: Position) -> bool {
    in_bounds(p) && cell(g, p).is_none()
}

/// The grid after `piece` is placed at `p`.
pub open spec fn apply(g: Grid, p: Position, piece: Piece) -> Grid {
    g.update(p.y as int, g[p.y as int].update(p.x as int, Some(piece)))
}

/// The position of the `i`-th cell in row-major order.
pub open spec fn nth_position(i: int) -> Position {
    Position { x: (i % 3) as u8, y: (i / 3) as u8 }
}

/// The empty cells among the first `k` cells, in row-major order.
pub open spec fn empty_cells_upto(g: Grid, k: nat) -> Seq<Position>
    decreases k,
{
    if k == 0 {
        seq![]
    } else {
        let p = nth_position(k - 1);
        let rest = empty_cells_upto(g, (k - 1) as nat);
        if cell(g, p).is_none() {
            rest.push(p)
        } else {
            rest
        }
    }
}

/// The legal moves: every empty cell, row by row, left to right.
pub open spec fn available_moves(g: Grid) -> Seq<Position> {
    empty_cells_upto(g, 9)
}


/// The lines of a game: the piece that holds the first three cells of `line`
/// if all three are the same piece, `None` otherwise.
pub fn check_line(line: &[Option<Piece>]) -> (r: Option<Piece>)
    requires
        line@.len() >= 3,
    ensures
        r == line_winner(line@[0], line@[1], line@[2]),
{
    if line[0] == line[1] && line[1] == line[2] {
        line[0]
    } else {
        None
    }
}

/// The winner of the game, checking rows and columns, then the diagonals.
pub fn is_game_won(board: &Board) -> (r: Option<Piece>)
    requires
        board_wf(board),
    ensures
        r == winner(grid(board)),
{
    let ghost g = grid(board);
    assert(board@[0]@ == g[0] && board@[1]@ == g[1] && board@[2]@ == g[2]);
    let mut i: usize = 0;
    while i < 3
        invariant
            0 <= i <= 3,
            g == grid(board),
            wf_grid(g),
            forall|j: int| 0 <= j < i ==> row_winner(g, j).is_none() && col_winner(g, j).is_none(),
        decreases 3 - i,
    {
        assert(board@[i as int]@ == g[i as int]);
        let row = [board[i][0], board[i][1], board[i][2]];
        if let Some(piece) = check_line(row.as_slice()) {
            return Some(piece);
        }
        let col = [board[0][i], board[1][i], board[2][i]];
        if let Some(piece) = check_line(col.as_slice()) {
            return Some(piece);
        }
        i = i + 1;
    }
    let diag = [board[0][0], board[1][1], board[2][2]];
    if let Some(piece) = check_line(diag.as_slice()) {
        return Some(piece);
    }
    let anti = [board[0][2], board[1][1], board[2][0]];
    if let Some(piece) = check_line(anti.as_slice()) {
        return Some(piece);
    }
    None
}


/// Whether every cell of the board is occupied.
pub fn no_more_moves(board: &Board) -> (r: bool)
    requires
        board_wf(board),
    ensures
        r == full(grid(board)),
{
    let ghost g = grid(board);
    let mut y: usize = 0;
    while y < 3
        invariant
            0 <= y <= 3,
            g == grid(board),
            wf_grid(g),
            forall|j: int, x: int| 0 <= j < y && 0 <= x < 3 ==> (#[trigger] g[j][x]).is_some(),
        decreases 3 - y,
    {
        assert(board@[y as int]@ == g[y as int]);
        let mut x: usize = 0;
        while x < 3
            invariant
                0 <= x <= 3,
                0 <= y < 3,
                g == grid(board),
                wf_grid(g),
                board@[y as int]@ == g[y as int],
                forall|j: int, k: int| 0 <= j < y && 0 <= k < 3 ==> (#[trigger] g[j][k]).is_some(),
                forall|k: int| 0 <= k < x ==> (#[trigger] g[y as int][k]).is_some(),
            decreases 3 - x,
        {
            if board[y][x].is_none() {
                return false;
            }
            x = x + 1;
        }
        y = y + 1;
    }
    true
}

/// Whether the game has ended: someone has won or the board is full.
pub fn is_game_over(board: &Board) -> (r: bool)
    requires
        board_wf(board),
    ensures
        r == game_over(grid(board)),
{
    is_game_won(board).is_some() || no_more_moves(board)
}

/// Whether `pos` is on the board and its cell is empty.
pub fn is_valid_move(board: &Board, pos: &Position) -> (r: bool)
    requires
        board_wf(board),
    ensures
        r == valid_move(grid(board), *pos),
{
    pos.x < 3 && pos.y < 3 && {
        assert(board@[pos.y as int]@ == grid(board)[pos.y as int]);
        board[pos.y as usize][pos.x as usize].is_none()
    }
}

/// Places `piece` at `pos`, whatever the cell held.
pub fn update_board(board: &mut Board, pos: &Position, piece: Piece)
    requires
        board_wf(old(board)),
        in_bounds(*pos),
    ensures
        grid(final(board)) == apply(grid(old(board)), *pos, piece),
        board_wf(final(board)),
{
    let ghost g = grid(board);
    assert(board@[pos.y as int]@ == g[pos.y as int]);
    assert(board@[pos.y as int]@.len() == 3);
    board[pos.y as usize][pos.x as usize] = Some(piece);
    assert(grid(board) =~= apply(g, *pos, piece));
}

/// A copy of the board that owns its own rows.
pub fn copy_board(board: &Board) -> (r: Board)
    requires
        board_wf(board),
    ensures
        grid(&r) == grid(board),
        board_wf(&r),
{
    let ghost g = grid(board);
    let mut r: Board = Vec::new();
    let mut y: usize = 0;
    while y < 3
        invariant
            0 <= y <= 3,
            g == grid(board),
            wf_grid(g),
            r@.len() == y,
            forall|j: int| 0 <= j < y ==> (#[trigger] r@[j])@ == g[j],
        decreases 3 - y,
    {
        assert(board@[y as int]@ == g[y as int]);
        let mut row: Vec<Option<Piece>> = Vec::new();
        let mut x: usize = 0;
        while x < 3
            invariant
                0 <= x <= 3,
                0 <= y < 3,
                g == grid(board),
                wf_grid(g),
                board@[y as int]@ == g[y as int],
                row@ == g[y as int].subrange(0, x as int),
            decreases 3 - x,
        {
            row.push(board[y][x]);
            x = x + 1;
            assert(row@ =~= g[y as int].subrange(0, x as int));
        }
        assert(row@ =~= g[y as int]);
        r.push(row);
        y = y + 1;
    }
    assert(grid(&r) =~= g);
    r
}

proof fn lemma_nth_position(i: int)
    requires
        0 <= i < 9,
    ensures
        in_bounds(nth_position(i)),
        nth_position(i).y as int * 3 + nth_position(i).x as int == i,
{
}

/// Every position listed among the empty cells is on the board and empty.
pub proof fn lemma_empty_cells_valid(g: Grid, k: nat)
    requires
        k <= 9,
    ensures
        forall|j: int| 0 <= j < empty_cells_upto(g, k).len()
            ==> valid_move(g, #[trigger] empty_cells_upto(g, k)[j]),
    decreases k,
{
    if k > 0 {
        lemma_empty_cells_valid(g, (k - 1) as nat);
        lemma_nth_position(k - 1);
        let rest = empty_cells_upto(g, (k - 1) as nat);
        let p = nth_position(k - 1);
        if cell(g, p).is_none() {
            assert forall|j: int| 0 <= j < rest.push(p).len() implies valid_move(
                g,
                #[trigger] rest.push(p)[j],
            ) by {
                if j < rest.len() {
                    assert(rest.push(p)[j] == rest[j]);
                }
            }
        }
    }
}

/// An empty cell among the first `k` puts at least one position in the list.
pub proof fn lemma_empty_cells_nonempty(g: Grid, k: nat, i: int)
    requires
        0 <= i < k <= 9,
        cell(g, nth_position(i)).is_none(),
    ensures
        empty_cells_upto(g, k).len() > 0,
    decreases k,
{
    if i < k - 1 {
        lemma_empty_cells_nonempty(g, (k - 1) as nat, i);
    }
}

/// A board that is not full has a legal move, and every listed move is legal.
pub proof fn lemma_available_moves(g: Grid)
    requires
        wf_grid(g),
    ensures
        !full(g) ==> available_moves(g).len() > 0,
        forall|j: int| 0 <= j < available_moves(g).len()
            ==> valid_move(g, #[trigger] available_moves(g)[j]),
{
    lemma_empty_cells_valid(g, 9);
    if !full(g) {
        let (y, x) = choose|y: int, x: int| 0 <= y < 3 && 0 <= x < 3 && g[y][x].is_none();
        lemma_nth_position(y * 3 + x);
        assert(nth_position(y * 3 + x) == Position { x: x as u8, y: y as u8 });
        lemma_empty_cells_nonempty(g, 9, y * 3 + x);
    }
}

/// The empty cells of the board, row by row, left to right.
pub fn get_available_moves(board: &Board) -> (r: Vec<Position>)
    requires
        board_wf(board),
    ensures
        r@ == available_moves(grid(board)),
{
    let ghost g = grid(board);
    let mut r: Vec<Position> = Vec::new();
    let mut y: u8 = 0;
    while y < 3
        invariant
            0 <= y <= 3,
            g == grid(board),
            wf_grid(g),
            r@ == empty_cells_upto(g, (3 * y) as nat),
        decreases 3 - y,
    {
        assert(board@[y as int]@ == g[y as int]);
        let mut x: u8 = 0;
        while x < 3
            invariant
                0 <= x <= 3,
                0 <= y < 3,
                g == grid(board),
                wf_grid(g),
                board@[y as int]@ == g[y as int],
                r@ == empty_cells_upto(g, (3 * y + x) as nat),
            decreases 3 - x,
        {
            let ghost k: int = 3 * y + x;
            assert(nth_position(k) == Position { x, y });
            if board[y as usize][x as usize].is_none() {
                r.push(Position { x, y });
            }
            x = x + 1;
        }
        y = y + 1;
    }
    r
}


/// The numeric-keypad key of a cell: 7 8 9 on the top row, 4 5 6 in the
/// middle, 1 2 3 at the bottom.
pub open spec fn move_code(p: Position) -> Option<u8> {
    if in_bounds(p) {
        Some((7 + p.x - 3 * p.y) as u8)
    } else {
        None
    }
}

/// The cell of a numeric-keypad key from 1 to 9.
pub open spec fn code_position(c: int) -> Option<Position> {
    if 1 <= c <= 9 {
        Some(Position { x: ((c - 1) % 3) as u8, y: (2 - (c - 1) / 3) as u8 })
    } else {
        None
    }
}

/// The ASCII code of the digit `0`.
pub const ASCII_ZERO: u8 = 48;

/// The ASCII code of the digit `9`.
pub const ASCII_NINE: u8 = 57;

/// The cell named by a text of exactly one byte, a keypad digit from 1 to 9.
pub open spec fn text_position(bytes: Seq<u8>) -> Option<Position> {
    if bytes.len() == 1 && ASCII_ZERO <= bytes[0] <= ASCII_NINE {
        code_position(bytes[0] - ASCII_ZERO)
    } else {
        None
    }
}

/// The keypad key of `pos`, or `None` off the board.
pub fn position_to_move_code(pos: &Position) -> (r: Option<u8>)
    ensures
        r == move_code(*pos),
{
    if pos.x < 3 && pos.y < 3 {
        Some(7 + pos.x - 3 * pos.y)
    } else {
        None
    }
}

/// The cell that a typed keypad digit names, or `None` for any other text.
pub fn move_code_to_position(input: &str) -> (r: Option<Position>)
    ensures
        r == text_position(input.spec_bytes()),
{
    let bytes = input.as_bytes();
    if bytes.len() != 1 {
        return None;
    }
    let c = bytes[0];
    if c <= ASCII_ZERO || c > ASCII_NINE {
        return None;
    }
    let k = c - ASCII_ZERO - 1;
    Some(Position { x: k % 3, y: 2 - k / 3 })
}


/// The outcome of a move that was placed on the grid `g`.
pub open spec fn outcome_after(g: Grid) -> MoveOutcome {
    match winner(g) {
        Some(w) => MoveOutcome::Won(w),
        None => if full(g) {
            MoveOutcome::Draw
        } else {
            MoveOutcome::Continue
        },
    }
}

/// Plays `piece` at `pos` if that is a legal move and reports whether the
/// game is then won, drawn, or goes on. An illegal move leaves the board as
/// it was.
pub fn play_move(board: &mut Board, pos: &Position, piece: Piece) -> (r: MoveOutcome)
    requires
        board_wf(old(board)),
    ensures
        board_wf(final(board)),
        !valid_move(grid(old(board)), *pos) ==> r == MoveOutcome::Invalid && grid(final(board))
            == grid(old(board)),
        valid_move(grid(old(board)), *pos) ==> grid(final(board)) == apply(
            grid(old(board)),
            *pos,
            piece,
        ) && r == outcome_after(grid(final(board))),
{
    if !is_valid_move(board, pos) {
        return MoveOutcome::Invalid;
    }
    update_board(board, pos, piece);
    match is_game_won(board) {
        Some(w) => MoveOutcome::Won(w),
        None => if no_more_moves(board) {
            MoveOutcome::Draw
        } else {
            MoveOutcome::Continue
        },
    }
}

} // verus!
