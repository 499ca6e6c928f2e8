//! The move selector: two bounded exhaustive searches for forced outcomes,
//! a pattern-based heuristic scorer, and the column chooser built on them.

use vstd::prelude::*;

use crate::board;
use crate::board::{
    board_add, board_cell, board_col_full, board_wf, col_height, just_won, spec_wins, Board,
};
use rand::Rng;

verus! {

/// The other player: the identifiers 1 and 2 map to each other.
pub open spec fn spec_opponent(player: u8) -> u8 {
    (3 - player) as u8
}

/// Whether the opponent of `player`, moving first, can force a win within
/// `n` plies: some opponent move wins at once, or leaves `player` with no
/// reply that escapes the same search one ply shorter. A budget of 0 means
/// the horizon is exhausted with no forced win found.
pub open spec fn spec_opp_can_win(n: int, player: u8, b: Seq<u16>) -> bool
    decreases n, 1int,
{
    if n <= 0 {
        false
    } else {
        exists|oc: int|
            #![trigger board_add(b, spec_opponent(player) as u16, oc)]
            1 <= oc <= 7 && spec_opp_threat(n, player, b, oc)
    }
}

/// One opponent move that carries the threat of `spec_opp_can_win`: played
/// in column `oc`, it either wins at once or leaves every reply of
/// `player` losing to the search one ply shorter.
pub open spec fn spec_opp_threat(n: int, player: u8, b: Seq<u16>, oc: int) -> bool
    decreases n, 0int,
{
    let b2 = board_add(b, spec_opponent(player) as u16, oc);
    ||| spec_wins(b2, spec_opponent(player), oc)
    ||| (n > 0 && forall|pc: int|
        1 <= pc <= 7 ==> spec_opp_can_win(n - 1, player, #[trigger] board_add(b2, player as u16, pc)))
}

/// Whether `player`, whose latest move stands in `last_col`, can force a
/// win within `n` more plies: no opponent move may win at once, and each
/// must leave `player` some reply that the search one ply shorter still
/// confirms. A budget of 0 asks whether the move at `last_col` has already
/// won.
pub open spec fn spec_i_can_win(n: int, player: u8, b: Seq<u16>, last_col: int) -> bool
    decreases n, 1int,
{
    if n <= 0 {
        spec_wins(b, player, last_col)
    } else {
        forall|oc: int|
            #![trigger board_add(b, spec_opponent(player) as u16, oc)]
            1 <= oc <= 7 ==> spec_i_branch(n, player, b, oc)
    }
}

/// One opponent reply survived by `spec_i_can_win`: played in column `oc`
/// it does not win for the opponent, and `player` has a response that the
/// search one ply shorter still confirms as winning.
pub open spec fn spec_i_branch(n: int, player: u8, b: Seq<u16>, oc: int) -> bool
    decreases n, 0int,
{
    let b2 = board_add(b, spec_opponent(player) as u16, oc);
    &&& !spec_wins(b2, spec_opponent(player), oc)
    &&& (n <= 0 || exists|pc: int|
        1 <= pc <= 7 && spec_i_can_win(n - 1, player, #[trigger] board_add(b2, player as u16, pc), pc))
}

/// The exhaustive search behind `spec_i_can_win`: true iff `player`, whose
/// latest move stands in `last_col_played`, can force a win within
/// `n_turns` plies no matter how the opponent replies.
pub fn can_i_win_in(n_turns: usize, player: u8, the_board: &Board, last_col_played: usize) -> (r:
    bool)
    requires
        board_wf(the_board@),
        player == 1 || player == 2,
        1 <= last_col_played <= 7,
    ensures
        r == spec_i_can_win(n_turns as int, player, the_board@, last_col_played as int),
    decreases n_turns, 1int,
{
    if n_turns == 0 {
        return just_won(the_board, player, last_col_played);
    }

    let mut col_opp_next: usize = 1;
    while col_opp_next <= 7
        invariant
            board_wf(the_board@),
            player == 1 || player == 2,
            n_turns >= 1,
            1 <= col_opp_next <= 8,
            forall|oc: int|
                #![trigger board_add(the_board@, spec_opponent(player) as u16, oc)]
                1 <= oc < col_opp_next ==> spec_i_branch(n_turns as int, player, the_board@, oc),
        decreases 8 - col_opp_next,
    {
        let opp: u8 = 3 - player;
        proof {
            assert(opp == spec_opponent(player));
        }
        let mut the_board_2 = the_board.copy();
        board::add(&mut the_board_2, opp as u16, col_opp_next);
        proof {
            assert(the_board_2@ == board_add(
                the_board@,
                spec_opponent(player) as u16,
                col_opp_next as int,
            ));
        }
        if just_won(&the_board_2, opp, col_opp_next) {
            assert(!spec_i_branch(n_turns as int, player, the_board@, col_opp_next as int));
            return false;
        }
        let i_can_win = some_reply_wins(n_turns, player, &the_board_2);
        if !i_can_win {
            assert(!spec_i_branch(n_turns as int, player, the_board@, col_opp_next as int));
            return false;
        }
        assert(spec_i_branch(n_turns as int, player, the_board@, col_opp_next as int));
        col_opp_next = col_opp_next + 1;
    }

    true
}

/// The inner step of `can_i_win_in`: after the opponent's reply produced
/// `board_2`, looks for one response of `player` that the search one ply
/// shorter still confirms as a forced win.
fn some_reply_wins(n_turns: usize, player: u8, board_2: &Board) -> (r: bool)
    requires
        board_wf(board_2@),
        player == 1 || player == 2,
        n_turns >= 1,
    ensures
        r == exists|pc: int|
            1 <= pc <= 7 && spec_i_can_win(
                n_turns - 1,
                player,
                #[trigger] board_add(board_2@, player as u16, pc),
                pc,
            ),
    decreases n_turns, 0int,
{
    let mut col_next: usize = 1;
    while col_next <= 7
        invariant
            board_wf(board_2@),
            player == 1 || player == 2,
            n_turns >= 1,
            1 <= col_next <= 8,
            forall|pc: int|
                1 <= pc < col_next ==> !spec_i_can_win(
                    n_turns - 1,
                    player,
                    #[trigger] board_add(board_2@, player as u16, pc),
                    pc,
                ),
        decreases 8 - col_next,
    {
        let mut the_board_3 = board_2.copy();
        board::add(&mut the_board_3, player as u16, col_next);
        if can_i_win_in(n_turns - 1, player, &the_board_3, col_next) {
            return true;
        }
        col_next = col_next + 1;
    }
    false
}

/// The exhaustive search behind `spec_opp_can_win`: true iff the opponent
/// of `player`, moving first, can force a win within `n_turns` plies no
/// matter how `player` replies.
pub fn can_opp_win_in(n_turns: usize, player: u8, the_board: &Board) -> (r: bool)
    requires
        board_wf(the_board@),
        player == 1 || player == 2,
    ensures
        r == spec_opp_can_win(n_turns as int, player, the_board@),
    decreases n_turns, 1int,
{
    if n_turns == 0 {
        return false;
    }

    let mut col_opp_next: usize = 1;
    while col_opp_next <= 7
        invariant
            board_wf(the_board@),
            player == 1 || player == 2,
            n_turns >= 1,
            1 <= col_opp_next <= 8,
            forall|oc: int|
                #![trigger board_add(the_board@, spec_opponent(player) as u16, oc)]
                1 <= oc < col_opp_next ==> !spec_opp_threat(n_turns as int, player, the_board@, oc),
        decreases 8 - col_opp_next,
    {
        let opp: u8 = 3 - player;
        proof {
            assert(opp == spec_opponent(player));
        }
        let mut the_board_2 = the_board.copy();
        board::add(&mut the_board_2, opp as u16, col_opp_next);
        proof {
            assert(the_board_2@ == board_add(
                the_board@,
                spec_opponent(player) as u16,
                col_opp_next as int,
            ));
        }
        if just_won(&the_board_2, opp, col_opp_next) {
            assert(spec_opp_threat(n_turns as int, player, the_board@, col_opp_next as int));
            return true;
        }
        let she_can_win = all_replies_lose(n_turns, player, &the_board_2);
        if she_can_win {
            assert(spec_opp_threat(n_turns as int, player, the_board@, col_opp_next as int));
            return true;
        }
        assert(!spec_opp_threat(n_turns as int, player, the_board@, col_opp_next as int));
        col_opp_next = col_opp_next + 1;
    }

    false
}

/// The inner step of `can_opp_win_in`: after the opponent's probe produced
/// `board_2`, checks that every reply of `player` still loses to the
/// search one ply shorter.
fn all_replies_lose(n_turns: usize, player: u8, board_2: &Board) -> (r: bool)
    requires
        board_wf(board_2@),
        player == 1 || player == 2,
        n_turns >= 1,
    ensures
        r == forall|pc: int|
            1 <= pc <= 7 ==> spec_opp_can_win(
                n_turns - 1,
                player,
                #[trigger] board_add(board_2@, player as u16, pc),
            ),
    decreases n_turns, 0int,
{
    let mut col_next: usize = 1;
    while col_next <= 7
        invariant
            board_wf(board_2@),
            player == 1 || player == 2,
            n_turns >= 1,
            1 <= col_next <= 8,
            forall|pc: int|
                1 <= pc < col_next ==> spec_opp_can_win(
                    n_turns - 1,
                    player,
                    #[trigger] board_add(board_2@, player as u16, pc),
                ),
        decreases 8 - col_next,
    {
        let mut the_board_3 = board_2.copy();
        board::add(&mut the_board_3, player as u16, col_next);
        if !can_opp_win_in(n_turns - 1, player, &the_board_3) {
            return false;
        }
        col_next = col_next + 1;
    }
    true
}

/// How a window of four consecutive cells counts for the player `me`:
/// 0 if any of the four holds `other`'s token, else 1 plus the number of
/// `me`'s tokens in it. The window starts at (c0, l0) and steps by
/// (dc, dl).
pub open spec fn window_count(
    b: Seq<u16>,
    me: u8,
    other: u8,
    c0: int,
    l0: int,
    dc: int,
    dl: int,
) -> int {
    let t0 = board_cell(b, c0, l0);
    let t1 = board_cell(b, c0 + dc, l0 + dl);
    let t2 = board_cell(b, c0 + 2 * dc, l0 + 2 * dl);
    let t3 = board_cell(b, c0 + 3 * dc, l0 + 3 * dl);
    if t0 == other || t1 == other || t2 == other || t3 == other {
        0
    } else {
        1 + (if t0 == me {
            1int
        } else {
            0int
        }) + (if t1 == me {
            1int
        } else {
            0int
        }) + (if t2 == me {
            1int
        } else {
            0int
        }) + (if t3 == me {
            1int
        } else {
            0int
        })
    }
}

/// The bonus one window awards. A build window (`blocked` false) counts
/// the candidate's own tokens and pays 1, 2 or 4 for none, one or two of
/// them beside the candidate cell; a block window (`blocked` true) counts
/// opponent tokens and pays the heavier 4 or 8 for one or two, since
/// blocking a near-complete line outranks extending one's own.
pub open spec fn window_bonus(
    b: Seq<u16>,
    player: u8,
    blocked: bool,
    c0: int,
    l0: int,
    dc: int,
    dl: int,
) -> int {
    if blocked {
        let n = window_count(b, spec_opponent(player), player, c0, l0, dc, dl);
        if n == 2 {
            4
        } else if n == 3 {
            8
        } else {
            0
        }
    } else {
        let n = window_count(b, player, spec_opponent(player), c0, l0, dc, dl);
        if n == 1 {
            1
        } else if n == 2 {
            2
        } else if n == 3 {
            4
        } else {
            0
        }
    }
}

/// The bonuses of the horizontal windows through (col, line) from offset
/// `i` up: the window whose rightmost cell is col + i counts when it fits
/// in the row.
pub open spec fn row_windows_score(
    b: Seq<u16>,
    player: u8,
    blocked: bool,
    col: int,
    line: int,
    i: int,
) -> int
    decreases 4 - i,
{
    if i >= 4 {
        0
    } else {
        (if col > 3 - i && col < 8 - i {
            window_bonus(b, player, blocked, col + i, line, -1, 0)
        } else {
            0
        }) + row_windows_score(b, player, blocked, col, line, i + 1)
    }
}

/// The bonuses of the vertical windows through (col, line) from offset
/// `i` up: the window whose top cell is line + i counts when its foot
/// stays in the grid (its top may poke one row above it, where every cell
/// reads empty).
pub open spec fn col_windows_score(
    b: Seq<u16>,
    player: u8,
    blocked: bool,
    col: int,
    line: int,
    i: int,
) -> int
    decreases 4 - i,
{
    if i >= 4 {
        0
    } else {
        (if line > 3 - i && line <= 7 - i {
            window_bonus(b, player, blocked, col, line + i, 0, -1)
        } else {
            0
        }) + col_windows_score(b, player, blocked, col, line, i + 1)
    }
}

/// The bonuses of the rising-diagonal windows through (col, line) from
/// offset `i` up: the window whose upper-right cell is (col + i, line + i)
/// counts when it stays in the columns and its foot in the grid.
pub open spec fn diag_up_windows_score(
    b: Seq<u16>,
    player: u8,
    blocked: bool,
    col: int,
    line: int,
    i: int,
) -> int
    decreases 4 - i,
{
    if i >= 4 {
        0
    } else {
        (if line > 3 - i && line <= 7 - i && col > 3 - i && col < 8 - i {
            window_bonus(b, player, blocked, col + i, line + i, -1, -1)
        } else {
            0
        }) + diag_up_windows_score(b, player, blocked, col, line, i + 1)
    }
}

/// The bonuses of the falling-diagonal windows through (col, line) from
/// offset `i` up: the window whose lower-right cell is (col + i, line - i)
/// counts when it stays in the columns and above the floor.
pub open spec fn diag_down_windows_score(
    b: Seq<u16>,
    player: u8,
    blocked: bool,
    col: int,
    line: int,
    i: int,
) -> int
    decreases 3 - i,
{
    if i >= 3 {
        0
    } else {
        (if line > i && line < 5 + i && col > 3 - i && col < 8 - i {
            window_bonus(b, player, blocked, col + i, line - i, -1, 1)
        } else {
            0
        }) + diag_down_windows_score(b, player, blocked, col, line, i + 1)
    }
}

/// The pattern score of the candidate move landing at (col, line) on the
/// board `b` as it stood before the move: the base `strength + 1` plus the
/// build and block bonuses of every window through the landing cell in the
/// four alignment directions.
pub open spec fn spec_pattern_score(
    b: Seq<u16>,
    player: u8,
    col: int,
    line: int,
    strength: int,
) -> int {
    strength + 1 + row_windows_score(b, player, false, col, line, 0) + row_windows_score(
        b,
        player,
        true,
        col,
        line,
        0,
    ) + col_windows_score(b, player, false, col, line, 1) + col_windows_score(
        b,
        player,
        true,
        col,
        line,
        1,
    ) + diag_up_windows_score(b, player, false, col, line, 1) + diag_up_windows_score(
        b,
        player,
        true,
        col,
        line,
        1,
    ) + diag_down_windows_score(b, player, false, col, line, 0) + diag_down_windows_score(
        b,
        player,
        true,
        col,
        line,
        0,
    )
}

/// The pattern score clamped below the forced-win band: a pattern score
/// may never reach `usize::MAX - strength`, where the forced-win values
/// live.
pub open spec fn spec_clamped_score(
    b: Seq<u16>,
    player: u8,
    col: int,
    line: int,
    strength: int,
) -> int {
    let s = spec_pattern_score(b, player, col, line, strength);
    if s < usize::MAX - strength {
        s
    } else {
        usize::MAX - strength - 1
    }
}

/// The score of a candidate move as the deepening probe settles it from
/// ply budget `n` up: the first budget at which the opponent can force a
/// win gives the score `n` (sooner losses score lower); failing that, the
/// first at which `player` can force a win gives `usize::MAX - n` (sooner
/// wins score higher); if the horizon `strength` passes with neither, the
/// clamped pattern score of the landing cell decides. `b` is the board
/// before the move, `b2` the board after it.
pub open spec fn spec_search_score(
    n: int,
    strength: int,
    player: u8,
    b: Seq<u16>,
    b2: Seq<u16>,
    col: int,
    line: int,
) -> int
    decreases strength - n + 1,
{
    if n > strength {
        spec_clamped_score(b, player, col, line, strength)
    } else if spec_opp_can_win(n, player, b2) {
        n
    } else if spec_i_can_win(n, player, b2, col) {
        usize::MAX - n
    } else {
        spec_search_score(n + 1, strength, player, b, b2, col, line)
    }
}

/// The score of dropping `player`'s token into `col`: 0 for a full column
/// (the bottom sentinel, never preferred while a move exists), the top
/// sentinel `usize::MAX` for an immediate win, and otherwise the deepening
/// probe's verdict starting at one ply.
pub open spec fn spec_estimate_score(col: int, player: u8, b: Seq<u16>, strength: int) -> int {
    if board_col_full(b, col) {
        0
    } else {
        let b2 = board_add(b, player as u16, col);
        let line = col_height(b[col - 1]) + 1;
        if spec_wins(b2, player, col) {
            usize::MAX as int
        } else {
            spec_search_score(1, strength, player, b, b2, col, line)
        }
    }
}

/// A single window pays at most 4 as a build window and at most 8 as a
/// block window, and never a negative bonus.
proof fn lemma_window_bonus_bounds(
    b: Seq<u16>,
    player: u8,
    blocked: bool,
    c0: int,
    l0: int,
    dc: int,
    dl: int,
)
    ensures
        0 <= window_bonus(b, player, blocked, c0, l0, dc, dl) <= if blocked {
            8int
        } else {
            4int
        },
{
}

/// The horizontal windows from offset `i` up pay together at most 4 or 8
/// per remaining window.
proof fn lemma_row_windows_bounds(b: Seq<u16>, player: u8, blocked: bool, col: int, line: int, i: int)
    requires
        0 <= i <= 4,
    ensures
        0 <= row_windows_score(b, player, blocked, col, line, i) <= (if blocked {
            8int
        } else {
            4int
        }) * (4 - i),
    decreases 4 - i,
{
    if i < 4 {
        lemma_window_bonus_bounds(b, player, blocked, col + i, line, -1, 0);
        lemma_row_windows_bounds(b, player, blocked, col, line, i + 1);
    }
}

/// The vertical windows from offset `i` up pay together at most 4 or 8
/// per remaining window.
proof fn lemma_col_windows_bounds(b: Seq<u16>, player: u8, blocked: bool, col: int, line: int, i: int)
    requires
        0 <= i <= 4,
    ensures
        0 <= col_windows_score(b, player, blocked, col, line, i) <= (if blocked {
            8int
        } else {
            4int
        }) * (4 - i),
    decreases 4 - i,
{
    if i < 4 {
        lemma_window_bonus_bounds(b, player, blocked, col, line + i, 0, -1);
        lemma_col_windows_bounds(b, player, blocked, col, line, i + 1);
    }
}

/// The rising-diagonal windows from offset `i` up pay together at most 4
/// or 8 per remaining window.
proof fn lemma_diag_up_windows_bounds(
    b: Seq<u16>,
    player: u8,
    blocked: bool,
    col: int,
    line: int,
    i: int,
)
    requires
        0 <= i <= 4,
    ensures
        0 <= diag_up_windows_score(b, player, blocked, col, line, i) <= (if blocked {
            8int
        } else {
            4int
        }) * (4 - i),
    decreases 4 - i,
{
    if i < 4 {
        lemma_window_bonus_bounds(b, player, blocked, col + i, line + i, -1, -1);
        lemma_diag_up_windows_bounds(b, player, blocked, col, line, i + 1);
    }
}

/// The falling-diagonal windows from offset `i` up pay together at most 4
/// or 8 per remaining window.
proof fn lemma_diag_down_windows_bounds(
    b: Seq<u16>,
    player: u8,
    blocked: bool,
    col: int,
    line: int,
    i: int,
)
    requires
        0 <= i <= 3,
    ensures
        0 <= diag_down_windows_score(b, player, blocked, col, line, i) <= (if blocked {
            8int
        } else {
            4int
        }) * (3 - i),
    decreases 3 - i,
{
    if i < 3 {
        lemma_window_bonus_bounds(b, player, blocked, col + i, line - i, -1, 1);
        lemma_diag_down_windows_bounds(b, player, blocked, col, line, i + 1);
    }
}

/// The whole pattern bonus beyond the base stays at most 156: the eight
/// window families pay at most 16, 32, 12, 24, 12, 24, 12 and 24.
proof fn lemma_pattern_score_bounds(b: Seq<u16>, player: u8, col: int, line: int, strength: int)
    ensures
        strength + 1 <= spec_pattern_score(b, player, col, line, strength) <= strength + 157,
{
    lemma_row_windows_bounds(b, player, false, col, line, 0);
    lemma_row_windows_bounds(b, player, true, col, line, 0);
    lemma_col_windows_bounds(b, player, false, col, line, 1);
    lemma_col_windows_bounds(b, player, true, col, line, 1);
    lemma_diag_up_windows_bounds(b, player, false, col, line, 1);
    lemma_diag_up_windows_bounds(b, player, true, col, line, 1);
    lemma_diag_down_windows_bounds(b, player, false, col, line, 0);
    lemma_diag_down_windows_bounds(b, player, true, col, line, 0);
}

/// Reads one window of four cells and counts it for `me`: 0 as soon as a
/// token of `other` shows up, else 1 plus the tokens of `me` found.
fn count_window(board: &Board, me: u8, other: u8, c0: i32, l0: i32, dc: i32, dl: i32) -> (n: u8)
    requires
        board_wf(board@),
        1 <= c0 <= 7,
        1 <= l0 <= 7,
        1 <= c0 + dc <= 7,
        1 <= l0 + dl <= 7,
        1 <= c0 + 2 * dc <= 7,
        1 <= l0 + 2 * dl <= 7,
        1 <= c0 + 3 * dc <= 7,
        1 <= l0 + 3 * dl <= 7,
    ensures
        n as int == window_count(board@, me, other, c0 as int, l0 as int, dc as int, dl as int),
{
    let mut n: u8 = 1;
    let t0 = board::read_value(board, c0 as usize, l0 as u8);
    if t0 == other {
        return 0;
    }
    if t0 == me {
        n = n + 1;
    }
    let t1 = board::read_value(board, (c0 + dc) as usize, (l0 + dl) as u8);
    if t1 == other {
        return 0;
    }
    if t1 == me {
        n = n + 1;
    }
    let t2 = board::read_value(board, (c0 + 2 * dc) as usize, (l0 + 2 * dl) as u8);
    if t2 == other {
        return 0;
    }
    if t2 == me {
        n = n + 1;
    }
    let t3 = board::read_value(board, (c0 + 3 * dc) as usize, (l0 + 3 * dl) as u8);
    if t3 == other {
        return 0;
    }
    if t3 == me {
        n = n + 1;
    }
    n
}

/// Scores dropping `player`'s token into `col` on `the_board`, which is
/// left untouched: 0 for a full column, `usize::MAX` for an immediate
/// win, the ply count `n` of the soonest forced opponent win within the
/// `strength` horizon, `usize::MAX - n` for the soonest forced own win,
/// and otherwise the clamped pattern score of the landing cell. The
/// pattern bonuses total at most 156, so `strength` must leave that room
/// below `usize::MAX` for the base score to stay representable.
pub fn estimate_score(col: usize, player: u8, the_board: &Board, strength: usize) -> (score: usize)
    requires
        board_wf(the_board@),
        player == 1 || player == 2,
        1 <= col <= 7,
        strength <= usize::MAX - 157,
    ensures
        score as int == spec_estimate_score(col as int, player, the_board@, strength as int),
{
    // if the move is not possible, the lowest score
    if board::column_full(the_board, col) {
        return 0;
    }

    // try the move on a copy of the board
    let mut test_board = the_board.copy();
    let line: u8 = board::add(&mut test_board, player as u16, col);

    // an immediate win takes the highest score
    if just_won(&test_board, player, col) {
        return usize::MAX;
    }

    // probe increasing depths for a forced outcome; the first depth that
    // settles one decides the score
    let mut n_turns: usize = 1;
    while n_turns <= strength
        invariant
            board_wf(the_board@),
            board_wf(test_board@),
            player == 1 || player == 2,
            1 <= col <= 7,
            strength <= usize::MAX - 157,
            1 <= n_turns <= strength + 1,
            !board_col_full(the_board@, col as int),
            test_board@ == board_add(the_board@, player as u16, col as int),
            line as int == col_height(the_board@[col as int - 1]) + 1,
            !spec_wins(test_board@, player, col as int),
            spec_search_score(
                1,
                strength as int,
                player,
                the_board@,
                test_board@,
                col as int,
                line as int,
            ) == spec_search_score(
                n_turns as int,
                strength as int,
                player,
                the_board@,
                test_board@,
                col as int,
                line as int,
            ),
        decreases strength - n_turns + 1,
    {
        if can_opp_win_in(n_turns, player, &test_board) {
            return n_turns;
        }
        if can_i_win_in(n_turns, player, &test_board, col) {
            return usize::MAX - n_turns;
        }
        n_turns = n_turns + 1;
    }

    // no forced outcome within the horizon: add up the window bonuses of
    // the landing cell on the board as it stood before the move
    let opp: u8 = 3 - player;
    proof {
        assert(opp == spec_opponent(player));
    }
    let ghost b = the_board@;
    let ghost colx = col as int;
    let ghost linex = line as int;
    let ghost mut done: int = 0;
    let mut bonus: u32 = 0;

    // row build windows through the landing cell
    let mut i: usize = 0;
    while i < 4
        invariant
            board_wf(the_board@),
            the_board@ == b,
            player == 1 || player == 2,
            opp == spec_opponent(player),
            1 <= col <= 7,
            col as int == colx,
            1 <= line <= 6,
            line as int == linex,
            0 <= i <= 4,
            0 <= done <= 156,
            bonus as int == done + row_windows_score(b, player, false, colx, linex, 0)
                - row_windows_score(b, player, false, colx, linex, i as int),
        decreases 4 - i,
    {
        proof {
            lemma_row_windows_bounds(b, player, false, colx, linex, 0);
            lemma_row_windows_bounds(b, player, false, colx, linex, i as int);
            lemma_row_windows_bounds(b, player, false, colx, linex, i as int + 1);
        }
        if col > 3 - i && col < 8 - i {
            let n = count_window(the_board, player, opp, (col + i) as i32, line as i32, -1, 0);
            match n {
                1 => {
                    bonus = bonus + 1;
                },
                2 => {
                    bonus = bonus + 2;
                },
                3 => {
                    bonus = bonus + 4;
                },
                _ => {},
            }
        }
        i = i + 1;
    }
    proof {
        lemma_row_windows_bounds(b, player, false, colx, linex, 0);
        done = done + row_windows_score(b, player, false, colx, linex, 0);
    }

    // row block windows through the landing cell
    let mut i: usize = 0;
    while i < 4
        invariant
            board_wf(the_board@),
            the_board@ == b,
            player == 1 || player == 2,
            opp == spec_opponent(player),
            1 <= col <= 7,
            col as int == colx,
            1 <= line <= 6,
            line as int == linex,
            0 <= i <= 4,
            0 <= done <= 156,
            bonus as int == done + row_windows_score(b, player, true, colx, linex, 0)
                - row_windows_score(b, player, true, colx, linex, i as int),
        decreases 4 - i,
    {
        proof {
            lemma_row_windows_bounds(b, player, true, colx, linex, 0);
            lemma_row_windows_bounds(b, player, true, colx, linex, i as int);
            lemma_row_windows_bounds(b, player, true, colx, linex, i as int + 1);
        }
        if col > 3 - i && col < 8 - i {
            let n = count_window(the_board, opp, player, (col + i) as i32, line as i32, -1, 0);
            match n {
                2 => {
                    bonus = bonus + 4;
                },
                3 => {
                    bonus = bonus + 8;
                },
                _ => {},
            }
        }
        i = i + 1;
    }
    proof {
        lemma_row_windows_bounds(b, player, true, colx, linex, 0);
        done = done + row_windows_score(b, player, true, colx, linex, 0);
    }

    // column build windows through the landing cell
    let mut i: usize = 1;
    while i < 4
        invariant
            board_wf(the_board@),
            the_board@ == b,
            player == 1 || player == 2,
            opp == spec_opponent(player),
            1 <= col <= 7,
            col as int == colx,
            1 <= line <= 6,
            line as int == linex,
            1 <= i <= 4,
            0 <= done <= 156,
            bonus as int == done + col_windows_score(b, player, false, colx, linex, 1)
                - col_windows_score(b, player, false, colx, linex, i as int),
        decreases 4 - i,
    {
        proof {
            lemma_col_windows_bounds(b, player, false, colx, linex, 1);
            lemma_col_windows_bounds(b, player, false, colx, linex, i as int);
            lemma_col_windows_bounds(b, player, false, colx, linex, i as int + 1);
        }
        if (line as usize) > 3 - i && (line as usize) <= 7 - i {
            let n = count_window(the_board, player, opp, col as i32, (line as i32) + (i as i32), 0, -1);
            match n {
                1 => {
                    bonus = bonus + 1;
                },
                2 => {
                    bonus = bonus + 2;
                },
                3 => {
                    bonus = bonus + 4;
                },
                _ => {},
            }
        }
        i = i + 1;
    }
    proof {
        lemma_col_windows_bounds(b, player, false, colx, linex, 1);
        done = done + col_windows_score(b, player, false, colx, linex, 1);
    }

    // column block windows through the landing cell
    let mut i: usize = 1;
    while i < 4
        invariant
            board_wf(the_board@),
            the_board@ == b,
            player == 1 || player == 2,
            opp == spec_opponent(player),
            1 <= col <= 7,
            col as int == colx,
            1 <= line <= 6,
            line as int == linex,
            1 <= i <= 4,
            0 <= done <= 156,
            bonus as int == done + col_windows_score(b, player, true, colx, linex, 1)
                - col_windows_score(b, player, true, colx, linex, i as int),
        decreases 4 - i,
    {
        proof {
            lemma_col_windows_bounds(b, player, true, colx, linex, 1);
            lemma_col_windows_bounds(b, player, true, colx, linex, i as int);
            lemma_col_windows_bounds(b, player, true, colx, linex, i as int + 1);
        }
        if (line as usize) > 3 - i && (line as usize) <= 7 - i {
            let n = count_window(the_board, opp, player, col as i32, (line as i32) + (i as i32), 0, -1);
            match n {
                2 => {
                    bonus = bonus + 4;
                },
                3 => {
                    bonus = bonus + 8;
                },
                _ => {},
            }
        }
        i = i + 1;
    }
    proof {
        lemma_col_windows_bounds(b, player, true, colx, linex, 1);
        done = done + col_windows_score(b, player, true, colx, linex, 1);
    }

    // rising-diagonal build windows through the landing cell
    let mut i: usize = 1;
    while i < 4
        invariant
            board_wf(the_board@),
            the_board@ == b,
            player == 1 || player == 2,
            opp == spec_opponent(player),
            1 <= col <= 7,
            col as int == colx,
            1 <= line <= 6,
            line as int == linex,
            1 <= i <= 4,
            0 <= done <= 156,
            bonus as int == done + diag_up_windows_score(b, player, false, colx, linex, 1)
                - diag_up_windows_score(b, player, false, colx, linex, i as int),
        decreases 4 - i,
    {
        proof {
            lemma_diag_up_windows_bounds(b, player, false, colx, linex, 1);
            lemma_diag_up_windows_bounds(b, player, false, colx, linex, i as int);
            lemma_diag_up_windows_bounds(b, player, false, colx, linex, i as int + 1);
        }
        if (line as usize) > 3 - i && (line as usize) <= 7 - i && col > 3 - i && col < 8 - i {
            let n = count_window(the_board, player, opp, (col + i) as i32, (line as i32) + (i as i32), -1, -1);
            match n {
                1 => {
                    bonus = bonus + 1;
                },
                2 => {
                    bonus = bonus + 2;
                },
                3 => {
                    bonus = bonus + 4;
                },
                _ => {},
            }
        }
        i = i + 1;
    }
    proof {
        lemma_diag_up_windows_bounds(b, player, false, colx, linex, 1);
        done = done + diag_up_windows_score(b, player, false, colx, linex, 1);
    }

    // rising-diagonal block windows through the landing cell
    let mut i: usize = 1;
    while i < 4
        invariant
            board_wf(the_board@),
            the_board@ == b,
            player == 1 || player == 2,
            opp == spec_opponent(player),
            1 <= col <= 7,
            col as int == colx,
            1 <= line <= 6,
            line as int == linex,
            1 <= i <= 4,
            0 <= done <= 156,
            bonus as int == done + diag_up_windows_score(b, player, true, colx, linex, 1)
                - diag_up_windows_score(b, player, true, colx, linex, i as int),
        decreases 4 - i,
    {
        proof {
            lemma_diag_up_windows_bounds(b, player, true, colx, linex, 1);
            lemma_diag_up_windows_bounds(b, player, true, colx, linex, i as int);
            lemma_diag_up_windows_bounds(b, player, true, colx, linex, i as int + 1);
        }
        if (line as usize) > 3 - i && (line as usize) <= 7 - i && col > 3 - i && col < 8 - i {
            let n = count_window(the_board, opp, player, (col + i) as i32, (line as i32) + (i as i32), -1, -1);
            match n {
                2 => {
                    bonus = bonus + 4;
                },
                3 => {
                    bonus = bonus + 8;
                },
                _ => {},
            }
        }
        i = i + 1;
    }
    proof {
        lemma_diag_up_windows_bounds(b, player, true, colx, linex, 1);
        done = done + diag_up_windows_score(b, player, true, colx, linex, 1);
    }

    // falling-diagonal build windows through the landing cell
    let mut i: usize = 0;
    while i < 3
        invariant
            board_wf(the_board@),
            the_board@ == b,
            player == 1 || player == 2,
            opp == spec_opponent(player),
            1 <= col <= 7,
            col as int == colx,
            1 <= line <= 6,
            line as int == linex,
            0 <= i <= 3,
            0 <= done <= 156,
            bonus as int == done + diag_down_windows_score(b, player, false, colx, linex, 0)
                - diag_down_windows_score(b, player, false, colx, linex, i as int),
        decreases 3 - i,
    {
        proof {
            lemma_diag_down_windows_bounds(b, player, false, colx, linex, 0);
            lemma_diag_down_windows_bounds(b, player, false, colx, linex, i as int);
            lemma_diag_down_windows_bounds(b, player, false, colx, linex, i as int + 1);
        }
        if (line as usize) > i && (line as usize) < 5 + i && col > 3 - i && col < 8 - i {
            let n = count_window(the_board, player, opp, (col + i) as i32, (line as i32) - (i as i32), -1, 1);
            match n {
                1 => {
                    bonus = bonus + 1;
                },
                2 => {
                    bonus = bonus + 2;
                },
                3 => {
                    bonus = bonus + 4;
                },
                _ => {},
            }
        }
        i = i + 1;
    }
    proof {
        lemma_diag_down_windows_bounds(b, player, false, colx, linex, 0);
        done = done + diag_down_windows_score(b, player, false, colx, linex, 0);
    }

    // falling-diagonal block windows through the landing cell
    let mut i: usize = 0;
    while i < 3
        invariant
            board_wf(the_board@),
            the_board@ == b,
            player == 1 || player == 2,
            opp == spec_opponent(player),
            1 <= col <= 7,
            col as int == colx,
            1 <= line <= 6,
            line as int == linex,
            0 <= i <= 3,
            0 <= done <= 156,
            bonus as int == done + diag_down_windows_score(b, player, true, colx, linex, 0)
                - diag_down_windows_score(b, player, true, colx, linex, i as int),
        decreases 3 - i,
    {
        proof {
            lemma_diag_down_windows_bounds(b, player, true, colx, linex, 0);
            lemma_diag_down_windows_bounds(b, player, true, colx, linex, i as int);
            lemma_diag_down_windows_bounds(b, player, true, colx, linex, i as int + 1);
        }
        if (line as usize) > i && (line as usize) < 5 + i && col > 3 - i && col < 8 - i {
            let n = count_window(the_board, opp, player, (col + i) as i32, (line as i32) - (i as i32), -1, 1);
            match n {
                2 => {
                    bonus = bonus + 4;
                },
                3 => {
                    bonus = bonus + 8;
                },
                _ => {},
            }
        }
        i = i + 1;
    }
    proof {
        lemma_diag_down_windows_bounds(b, player, true, colx, linex, 0);
        done = done + diag_down_windows_score(b, player, true, colx, linex, 0);
    }

    proof {
        lemma_pattern_score_bounds(b, player, colx, linex, strength as int);
        assert(strength + 1 + bonus as int == spec_pattern_score(b, player, colx, linex, strength as int));
    }
    let score: usize = strength + 1 + (bonus as usize);
    if score < usize::MAX - strength {
        score
    } else {
        usize::MAX - strength - 1
    }
}

#[verifier::external_type_specification]
#[verifier::external_body]
pub struct ExThreadRng(rand::rngs::ThreadRng);

/// Relies on rand's `Rng::gen_range`: it returns a value drawn uniformly
/// from the given range, which must not be empty; the value is therefore
/// below `n`.
#[verifier::external_body]
fn random_below(rng: &mut rand::rngs::ThreadRng, n: usize) -> (r: usize)
    requires
        n >= 1,
    ensures
        r < n,
{
    rng.gen_range(0..n)
}

/// Picks a column for `player` to play: all seven columns are scored, and
/// one of the best-scoring ones is returned, drawn at random to break
/// ties. While any column has room, the choice is never a full column;
/// when all are full, it is still some column, whose score is the shared 0.
pub fn play(board: &Board, player: u8, rng: &mut rand::rngs::ThreadRng, strength: usize) -> (col:
    usize)
    requires
        board_wf(board@),
        player == 1 || player == 2,
        strength <= usize::MAX - 157,
    ensures
        1 <= col <= 7,
        forall|c: int|
            1 <= c <= 7 ==> spec_estimate_score(c, player, board@, strength as int)
                <= spec_estimate_score(col as int, player, board@, strength as int),
{
    let mut best_cols: Vec<usize> = Vec::new();
    let mut best_score: usize = 0;

    // look for the moves with a best score
    let mut col: usize = 1;
    while col <= 7
        invariant
            board_wf(board@),
            player == 1 || player == 2,
            strength <= usize::MAX - 157,
            1 <= col <= 8,
            col == 1 ==> best_score == 0,
            col > 1 ==> best_cols.len() >= 1,
            forall|i: int| 0 <= i < best_cols.len() ==> 1 <= #[trigger] best_cols@[i] <= 7,
            forall|i: int|
                0 <= i < best_cols.len() ==> spec_estimate_score(
                    #[trigger] best_cols@[i] as int,
                    player,
                    board@,
                    strength as int,
                ) == best_score as int,
            forall|c: int|
                1 <= c < col ==> spec_estimate_score(c, player, board@, strength as int)
                    <= best_score as int,
        decreases 8 - col,
    {
        let score = estimate_score(col, player, board, strength);
        if score == best_score {
            best_cols.push(col);
        }
        if score > best_score {
            best_score = score;
            let mut fresh: Vec<usize> = Vec::new();
            fresh.push(col);
            best_cols = fresh;
        }
        col = col + 1;
    }

    // choose a move randomly among these
    let idx = random_below(rng, best_cols.len());
    best_cols[idx]
}

/// Every score the deepening probe can settle on lies strictly between
/// the two sentinels: forced losses score 1..strength, forced wins
/// `usize::MAX - strength`..`usize::MAX - 1`, and pattern scores in
/// between.
proof fn lemma_search_score_range(
    n: int,
    strength: int,
    player: u8,
    b: Seq<u16>,
    b2: Seq<u16>,
    col: int,
    line: int,
)
    requires
        1 <= n <= strength + 1,
        strength <= usize::MAX - 157,
    ensures
        1 <= spec_search_score(n, strength, player, b, b2, col, line) <= usize::MAX - 1,
    decreases strength - n + 1,
{
    if n > strength {
        lemma_pattern_score_bounds(b, player, col, line, strength);
    } else if spec_opp_can_win(n, player, b2) {
    } else if spec_i_can_win(n, player, b2, col) {
    } else {
        lemma_search_score_range(n + 1, strength, player, b, b2, col, line);
    }
}

/// The two sentinels are exact: a candidate move scores 0 exactly when
/// its column is full, and `usize::MAX` exactly when it completes a run
/// of four at once.
pub proof fn lemma_estimate_score_sentinels(col: int, player: u8, b: Seq<u16>, strength: int)
    requires
        board_wf(b),
        player == 1 || player == 2,
        1 <= col <= 7,
        0 <= strength <= usize::MAX - 157,
    ensures
        spec_estimate_score(col, player, b, strength) == 0 <==> board_col_full(b, col),
        spec_estimate_score(col, player, b, strength) == usize::MAX <==> (!board_col_full(b, col)
            && spec_wins(board_add(b, player as u16, col), player, col)),
{
    if !board_col_full(b, col) {
        if !spec_wins(board_add(b, player as u16, col), player, col) {
            lemma_search_score_range(
                1,
                strength,
                player,
                b,
                board_add(b, player as u16, col),
                col,
                col_height(b[col - 1]) + 1,
            );
        }
    }
}

/// While any column still has room, every best-scoring column has room:
/// a full column scores the bottom sentinel 0 and a playable one at
/// least 1, so the selector never prefers a full column to a playable
/// one.
pub proof fn lemma_best_col_not_full(b: Seq<u16>, player: u8, strength: int, col: int)
    requires
        board_wf(b),
        player == 1 || player == 2,
        1 <= col <= 7,
        0 <= strength <= usize::MAX - 157,
        forall|c: int|
            1 <= c <= 7 ==> spec_estimate_score(c, player, b, strength) <= spec_estimate_score(
                col,
                player,
                b,
                strength,
            ),
        exists|c: int| 1 <= c <= 7 && !board_col_full(b, c),
    ensures
        !board_col_full(b, col),
{
    let c0 = choose|c: int| 1 <= c <= 7 && !board_col_full(b, c);
    lemma_estimate_score_sentinels(c0, player, b, strength);
    lemma_estimate_score_sentinels(col, player, b, strength);
    if !spec_wins(board_add(b, player as u16, c0), player, c0) {
        lemma_search_score_range(
            1,
            strength,
            player,
            b,
            board_add(b, player as u16, c0),
            c0,
            col_height(b[c0 - 1]) + 1,
        );
    }
    assert(spec_estimate_score(c0, player, b, strength) >= 1);
}

} // verus!
