//! The board: seven columns of six cells, each column packed into a `u16`
//! in base-4 positional notation, together with the win detector.

use vstd::prelude::*;

verus! {

/// A connect-four grid. Each of the seven columns packs its six cells into
/// one `u16`: the cell of row `l` (1 = bottom, 6 = top) is the base-4 digit
/// at bits `2*(l-1)` and `2*(l-1)+1`. Digit 0 is an empty cell, digits 1
/// and 2 are the two players' tokens.
pub struct Board {
    pub columns: Vec<u16>,
}

impl View for Board {
    type V = Seq<u16>;

    open spec fn view(&self) -> Seq<u16> {
        self.columns@
    }
}

/// A board value is a sequence of exactly seven column values.
pub open spec fn board_wf(b: Seq<u16>) -> bool {
    b.len() == 7
}

/// The base-4 digit that a column value stores for row `l`. Rows 7 and 8
/// read the two unused digit positions of the `u16` (always 0 on a board
/// reached by `add` from empty); any other row reads as empty.
pub open spec fn cell(v: u16, l: int) -> u8 {
    if l == 1 {
        (v & 3) as u8
    } else if l == 2 {
        ((v >> 2) & 3) as u8
    } else if l == 3 {
        ((v >> 4) & 3) as u8
    } else if l == 4 {
        ((v >> 6) & 3) as u8
    } else if l == 5 {
        ((v >> 8) & 3) as u8
    } else if l == 6 {
        ((v >> 10) & 3) as u8
    } else if l == 7 {
        ((v >> 12) & 3) as u8
    } else if l == 8 {
        ((v >> 14) & 3) as u8
    } else {
        0
    }
}

/// The fill height of a column, recovered from magnitude alone: a stack of
/// `h` tokens has its topmost nonzero digit at row `h`, so its value lies
/// in the band between the thresholds `4^(h-1) - 1` and `4^h - 1`.
pub open spec fn col_height(v: u16) -> int {
    if v > 1023 {
        6
    } else if v > 255 {
        5
    } else if v > 63 {
        4
    } else if v > 15 {
        3
    } else if v > 3 {
        2
    } else if v > 0 {
        1
    } else {
        0
    }
}

/// A column is full when six tokens have been stacked in it.
pub open spec fn col_full(v: u16) -> bool {
    v > 1023
}

/// The column value after `player` drops a token into it: the token's
/// digit enters at the lowest empty row; a full column is unchanged.
pub open spec fn col_add(v: u16, player: u16) -> u16 {
    if v > 1023 {
        v
    } else if v > 255 {
        (v + player * 1024) as u16
    } else if v > 63 {
        (v + player * 256) as u16
    } else if v > 15 {
        (v + player * 64) as u16
    } else if v > 3 {
        (v + player * 16) as u16
    } else if v > 0 {
        (v + player * 4) as u16
    } else {
        player
    }
}

/// The row that `add` reports for a column value: the row the token lands
/// in, or the sentinel 7 when the column is already full.
pub open spec fn add_row(v: u16) -> int {
    if col_full(v) {
        7
    } else {
        col_height(v) + 1
    }
}

/// The cell at column `c`, row `l` of a board; columns outside 1..7 read
/// as empty.
pub open spec fn board_cell(b: Seq<u16>, c: int, l: int) -> u8 {
    if 1 <= c <= 7 {
        cell(b[c - 1], l)
    } else {
        0
    }
}

/// The board after `player` drops a token into column `c`; a full column
/// leaves the board unchanged.
pub open spec fn board_add(b: Seq<u16>, player: u16, c: int) -> Seq<u16> {
    b.update(c - 1, col_add(b[c - 1], player))
}

/// Whether column `c` of a board is full.
pub open spec fn board_col_full(b: Seq<u16>, c: int) -> bool {
    col_full(b[c - 1])
}

/// Creates the empty board: seven empty columns.
pub fn new_board() -> (b: Board)
    ensures
        board_wf(b@),
        forall|c: int| 0 <= c < 7 ==> b@[c] == 0,
{
    Board { columns: vec![0; 7] }
}

impl Board {
    /// A deep value copy, independent of the original.
    pub fn copy(&self) -> (r: Board)
        requires
            board_wf(self@),
        ensures
            r@ == self@,
    {
        let mut n_board = new_board();
        let mut i: usize = 0;
        while i < 7
            invariant
                board_wf(self@),
                board_wf(n_board@),
                i <= 7,
                forall|c: int| 0 <= c < i ==> n_board@[c] == self@[c],
            decreases 7 - i,
        {
            n_board.columns[i] = self.columns[i];
            i = i + 1;
        }
        proof {
            assert(n_board@ =~= self@);
        }
        n_board
    }
}

/// Reads the digit at column `col`, row `line`. Row 7, one above the grid,
/// reads the unused bits of the column value and is always empty on a
/// board reached by `add` from empty.
pub fn read_value(board: &Board, col: usize, line: u8) -> (r: u8)
    requires
        board_wf(board@),
        1 <= col <= 7,
        1 <= line <= 7,
    ensures
        r == board_cell(board@, col as int, line as int),
{
    let v: u16 = board.columns[col - 1];
    let sh: u16 = 2 * ((line as u16) - 1);
    let r: u16 = (v & (3u16 << sh)) >> sh;
    proof {
        if line == 1 {
            assert((v & (3u16 << 0)) >> 0 == v & 3 && v & 3 < 4) by (bit_vector);
        } else if line == 2 {
            assert((v & (3u16 << 2)) >> 2 == (v >> 2) & 3 && (v >> 2) & 3 < 4) by (bit_vector);
        } else if line == 3 {
            assert((v & (3u16 << 4)) >> 4 == (v >> 4) & 3 && (v >> 4) & 3 < 4) by (bit_vector);
        } else if line == 4 {
            assert((v & (3u16 << 6)) >> 6 == (v >> 6) & 3 && (v >> 6) & 3 < 4) by (bit_vector);
        } else if line == 5 {
            assert((v & (3u16 << 8)) >> 8 == (v >> 8) & 3 && (v >> 8) & 3 < 4) by (bit_vector);
        } else if line == 6 {
            assert((v & (3u16 << 10)) >> 10 == (v >> 10) & 3 && (v >> 10) & 3 < 4) by (bit_vector);
        } else {
            assert((v & (3u16 << 12)) >> 12 == (v >> 12) & 3 && (v >> 12) & 3 < 4) by (bit_vector);
        }
    }
    r as u8
}

/// Drops a token of `player` into column `col`: the token lands in the
/// lowest empty row, whose number (1..6) is returned. A full column is
/// left unchanged and the sentinel row 7 is returned; callers that must
/// tell the two apart check `column_full` first.
pub fn add(board: &mut Board, player: u16, col: usize) -> (row: u8)
    requires
        board_wf(old(board)@),
        player == 1 || player == 2,
        1 <= col <= 7,
    ensures
        final(board)@ == board_add(old(board)@, player, col as int),
        row as int == add_row(old(board)@[col as int - 1]),
        board_wf(final(board)@),
{
    let v: u16 = board.columns[col - 1];
    if v > 1023 {
        proof {
            assert(board@ =~= board_add(old(board)@, player, col as int));
        }
        return 7;
    }
    if v > 255 {
        board.columns[col - 1] = v + player * 1024;
        return 6;
    }
    if v > 63 {
        board.columns[col - 1] = v + player * 256;
        return 5;
    }
    if v > 15 {
        board.columns[col - 1] = v + player * 64;
        return 4;
    }
    if v > 3 {
        board.columns[col - 1] = v + player * 16;
        return 3;
    }
    if v > 0 {
        board.columns[col - 1] = v + player * 4;
        return 2;
    }
    board.columns[col - 1] = player;
    return 1;
}

/// Whether (c, l) is a cell of the 7-wide, 6-tall grid.
pub open spec fn in_grid(c: int, l: int) -> bool {
    1 <= c <= 7 && 1 <= l <= 6
}

/// A grid cell that holds `player`'s token.
pub open spec fn win_cell(b: Seq<u16>, player: u8, c: int, l: int) -> bool {
    in_grid(c, l) && board_cell(b, c, l) == player
}

/// Four consecutive grid cells starting at (c0, l0) and stepping by
/// (dc, dl), all holding `player`'s tokens.
pub open spec fn win_window(b: Seq<u16>, player: u8, c0: int, l0: int, dc: int, dl: int) -> bool {
    &&& win_cell(b, player, c0, l0)
    &&& win_cell(b, player, c0 + dc, l0 + dl)
    &&& win_cell(b, player, c0 + 2 * dc, l0 + 2 * dl)
    &&& win_cell(b, player, c0 + 3 * dc, l0 + 3 * dl)
}

/// The window of four cells along (dc, dl) in which (col, line) is the
/// `d`-th cell, all holding `player`'s tokens.
pub open spec fn win_window_at(
    b: Seq<u16>,
    player: u8,
    col: int,
    line: int,
    d: int,
    dc: int,
    dl: int,
) -> bool {
    win_window(b, player, col - d * dc, line - d * dl, dc, dl)
}

/// The token at (col, line) is part of a run of four aligned tokens of
/// `player` in direction (dc, dl): some window of four consecutive grid
/// cells along that direction contains (col, line) and holds only
/// `player`'s tokens.
pub open spec fn line_win(b: Seq<u16>, player: u8, col: int, line: int, dc: int, dl: int) -> bool {
    exists|d: int| 0 <= d <= 3 && #[trigger] win_window_at(b, player, col, line, d, dc, dl)
}

/// The row of the token that `add` wrote last into a column: the top of
/// the stack, or row 1 when the column is empty (that cell then reads
/// empty, so no win is ever detected on it).
pub open spec fn top_row(v: u16) -> int {
    if col_height(v) == 0 {
        1
    } else {
        col_height(v)
    }
}

/// Whether the token most recently dropped into column `col` completed a
/// run of four for `player`: the top cell of the column holds `player`'s
/// token and lies in a full window of four along the row, the column, or
/// one of the two diagonals.
pub open spec fn spec_wins(b: Seq<u16>, player: u8, col: int) -> bool {
    let line = top_row(b[col - 1]);
    &&& board_cell(b, col, line) == player
    &&& {
        ||| line_win(b, player, col, line, 1, 0)
        ||| line_win(b, player, col, line, 0, 1)
        ||| line_win(b, player, col, line, 1, 1)
        ||| line_win(b, player, col, line, 1, -1)
    }
}

/// How far a run of `player`'s tokens extends from (c, l) in direction
/// (dc, dl), not counting (c, l) itself and capped at `fuel` cells.
pub open spec fn run_from(
    b: Seq<u16>,
    player: u8,
    c: int,
    l: int,
    dc: int,
    dl: int,
    fuel: nat,
) -> nat
    decreases fuel,
{
    if fuel == 0 {
        0
    } else if win_cell(b, player, c + dc, l + dl) {
        1 + run_from(b, player, c + dc, l + dl, dc, dl, (fuel - 1) as nat)
    } else {
        0
    }
}

/// The first three cells of a run: a run of length at least `k` puts
/// `player`'s tokens on the `k` cells after (c, l) in direction (dc, dl).
proof fn lemma_run3_cells(b: Seq<u16>, player: u8, c: int, l: int, dc: int, dl: int)
    ensures
        run_from(b, player, c, l, dc, dl, 3) <= 3,
        run_from(b, player, c, l, dc, dl, 3) >= 1 ==> win_cell(b, player, c + dc, l + dl),
        run_from(b, player, c, l, dc, dl, 3) >= 2 ==> win_cell(b, player, c + 2 * dc, l + 2 * dl),
        run_from(b, player, c, l, dc, dl, 3) >= 3 ==> win_cell(b, player, c + 3 * dc, l + 3 * dl),
{
    reveal_with_fuel(run_from, 4);
    assert(c + dc + dc == c + 2 * dc);
    assert(l + dl + dl == l + 2 * dl);
    assert(c + 2 * dc + dc == c + 3 * dc);
    assert(l + 2 * dl + dl == l + 3 * dl);
}

/// The converse: `k` consecutive tokens of `player` after (c, l) give a
/// run of length at least `k`.
proof fn lemma_cells_run3(b: Seq<u16>, player: u8, c: int, l: int, dc: int, dl: int, k: int)
    requires
        0 <= k <= 3,
        k >= 1 ==> win_cell(b, player, c + dc, l + dl),
        k >= 2 ==> win_cell(b, player, c + 2 * dc, l + 2 * dl),
        k >= 3 ==> win_cell(b, player, c + 3 * dc, l + 3 * dl),
    ensures
        run_from(b, player, c, l, dc, dl, 3) >= k,
{
    reveal_with_fuel(run_from, 4);
    assert(c + dc + dc == c + 2 * dc);
    assert(l + dl + dl == l + 2 * dl);
    assert(c + 2 * dc + dc == c + 3 * dc);
    assert(l + 2 * dl + dl == l + 3 * dl);
}

/// A token lies in a full window of four along (dc, dl) exactly when the
/// runs extending from it both ways cover at least three further cells.
proof fn lemma_runs_window(b: Seq<u16>, player: u8, col: int, line: int, dc: int, dl: int)
    requires
        win_cell(b, player, col, line),
    ensures
        line_win(b, player, col, line, dc, dl) <==> run_from(b, player, col, line, -dc, -dl, 3)
            + run_from(b, player, col, line, dc, dl, 3) >= 3,
{
    let bk = run_from(b, player, col, line, -dc, -dl, 3) as int;
    let fw = run_from(b, player, col, line, dc, dl, 3) as int;
    lemma_run3_cells(b, player, col, line, -dc, -dl);
    lemma_run3_cells(b, player, col, line, dc, dl);
    assert(col + -dc == col - dc);
    assert(col + 2 * -dc == col - 2 * dc);
    assert(col + 3 * -dc == col - 3 * dc);
    assert(line + -dl == line - dl);
    assert(line + 2 * -dl == line - 2 * dl);
    assert(line + 3 * -dl == line - 3 * dl);
    if bk + fw >= 3 {
        let d: int = if bk >= 3 {
            3
        } else {
            bk
        };
        if d == 3 {
            assert(win_window_at(b, player, col, line, 3, dc, dl));
        } else if d == 2 {
            assert(win_window_at(b, player, col, line, 2, dc, dl));
        } else if d == 1 {
            assert(win_window_at(b, player, col, line, 1, dc, dl));
        } else {
            assert(win_window_at(b, player, col, line, 0, dc, dl));
        }
        assert(line_win(b, player, col, line, dc, dl));
    }
    if line_win(b, player, col, line, dc, dl) {
        let d = choose|d: int| 0 <= d <= 3 && #[trigger] win_window_at(b, player, col, line, d, dc, dl);
        if d == 0 {
            lemma_cells_run3(b, player, col, line, dc, dl, 3);
        } else if d == 1 {
            lemma_cells_run3(b, player, col, line, -dc, -dl, 1);
            lemma_cells_run3(b, player, col, line, dc, dl, 2);
        } else if d == 2 {
            lemma_cells_run3(b, player, col, line, -dc, -dl, 2);
            lemma_cells_run3(b, player, col, line, dc, dl, 1);
        } else {
            lemma_cells_run3(b, player, col, line, -dc, -dl, 3);
        }
    }
}

/// Reads a cell that may lie outside the grid; such a cell reads as empty.
fn cell_or_empty(board: &Board, c: i32, l: i32) -> (r: u8)
    requires
        board_wf(board@),
    ensures
        r == if in_grid(c as int, l as int) {
            board_cell(board@, c as int, l as int)
        } else {
            0u8
        },
{
    if 1 <= c && c <= 7 && 1 <= l && l <= 6 {
        read_value(board, c as usize, l as u8)
    } else {
        0
    }
}

/// Counts how far a run of `player`'s tokens extends from (col, line) in
/// direction (dc, dl), capped at three cells.
fn run_len(board: &Board, player: u8, col: i32, line: i32, dc: i32, dl: i32) -> (r: u8)
    requires
        board_wf(board@),
        player == 1 || player == 2,
        1 <= col <= 7,
        1 <= line <= 6,
        -1 <= dc <= 1,
        -1 <= dl <= 1,
    ensures
        r as nat == run_from(board@, player, col as int, line as int, dc as int, dl as int, 3),
        r <= 3,
{
    proof {
        reveal_with_fuel(run_from, 4);
    }
    let c1 = col + dc;
    let l1 = line + dl;
    if cell_or_empty(board, c1, l1) != player {
        return 0;
    }
    let c2 = c1 + dc;
    let l2 = l1 + dl;
    if cell_or_empty(board, c2, l2) != player {
        return 1;
    }
    let c3 = c2 + dc;
    let l3 = l2 + dl;
    if cell_or_empty(board, c3, l3) != player {
        return 2;
    }
    3
}

/// Whether the token most recently dropped into column `col` completed a
/// run of four for `player`. Called right after `add` on the same column;
/// the top of the stack is recovered from the column's magnitude, and the
/// four alignment directions are checked without reading outside the grid.
pub fn just_won(board: &Board, player: u8, col: usize) -> (r: bool)
    requires
        board_wf(board@),
        player == 1 || player == 2,
        1 <= col <= 7,
    ensures
        r == spec_wins(board@, player, col as int),
{
    // recover the row of the latest token from the column's magnitude
    let v: u16 = board.columns[col - 1];
    let line: u8 = if v > 1023 {
        6
    } else if v > 255 {
        5
    } else if v > 63 {
        4
    } else if v > 15 {
        3
    } else if v > 3 {
        2
    } else {
        1
    };

    // if the token there does not belong to this player, no win for them
    if read_value(board, col, line) != player {
        return false;
    }

    let ci = col as i32;
    let li = line as i32;

    // check the column, the row, and the two diagonals
    proof {
        lemma_runs_window(board@, player, col as int, line as int, 0, 1);
        lemma_runs_window(board@, player, col as int, line as int, 1, 0);
        lemma_runs_window(board@, player, col as int, line as int, 1, 1);
        lemma_runs_window(board@, player, col as int, line as int, 1, -1);
    }
    if run_len(board, player, ci, li, 0, -1) + run_len(board, player, ci, li, 0, 1) >= 3 {
        return true;
    }
    if run_len(board, player, ci, li, -1, 0) + run_len(board, player, ci, li, 1, 0) >= 3 {
        return true;
    }
    if run_len(board, player, ci, li, -1, -1) + run_len(board, player, ci, li, 1, 1) >= 3 {
        return true;
    }
    if run_len(board, player, ci, li, -1, 1) + run_len(board, player, ci, li, 1, -1) >= 3 {
        return true;
    }
    false
}

/// On the empty board no column is full, and a token dropped into any
/// column lands in row 1.
pub proof fn lemma_empty_board(b: Seq<u16>, col: int)
    requires
        board_wf(b),
        forall|c: int| 0 <= c < 7 ==> b[c] == 0,
        1 <= col <= 7,
    ensures
        !board_col_full(b, col),
        add_row(b[col - 1]) == 1,
{
}

/// A drop into a column that still has room raises its height by one; a
/// full column keeps its value.
pub proof fn lemma_add_height(v: u16, p: u16)
    requires
        p == 1 || p == 2,
    ensures
        !col_full(v) ==> col_height(col_add(v, p)) == col_height(v) + 1,
        col_full(v) ==> col_add(v, p) == v,
{
}

/// A column value after a sequence of drops, first drop first.
pub open spec fn col_after(v: u16, players: Seq<u16>) -> u16
    decreases players.len(),
{
    if players.len() == 0 {
        v
    } else {
        col_after(col_add(v, players[0]), players.drop_first())
    }
}

/// Drops into one column stack up: as long as the column has room for
/// them, each raises the height by one.
proof fn lemma_appends_raise(v: u16, players: Seq<u16>)
    requires
        forall|i: int| 0 <= i < players.len() ==> players[i] == 1 || players[i] == 2,
        col_height(v) + players.len() <= 6,
    ensures
        col_height(col_after(v, players)) == col_height(v) + players.len(),
    decreases players.len(),
{
    if players.len() > 0 {
        lemma_add_height(v, players[0]);
        lemma_appends_raise(col_add(v, players[0]), players.drop_first());
    }
}

/// Six successive drops fill a column: it is then full, and any further
/// drop leaves its value unchanged and reports the sentinel row 7.
pub proof fn lemma_six_appends_fill(players: Seq<u16>)
    requires
        players.len() == 6,
        forall|i: int| 0 <= i < 6 ==> players[i] == 1 || players[i] == 2,
    ensures
        col_full(col_after(0, players)),
        forall|p: u16| #[trigger] col_add(col_after(0, players), p) == col_after(0, players),
        add_row(col_after(0, players)) == 7,
{
    lemma_appends_raise(0, players);
}

/// Whether column `col` is full: six tokens already stacked.
pub fn column_full(board: &Board, col: usize) -> (r: bool)
    requires
        board_wf(board@),
        1 <= col <= 7,
    ensures
        r == board_col_full(board@, col as int),
{
    board.columns[col - 1] > 1023
}

} // verus!
