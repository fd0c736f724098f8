//! Tic-tac-toe: board inspection and a minimax solver. The board is three
//! rows of three cells, each holding a side mark or the empty mark.

use vstd::prelude::*;

verus! {

/// The mark of an empty cell.
pub const EMPTY: char = '_';

/// The mark of the player moving first.
pub const PLAYER: char = 'X';

/// The mark of the opponent.
pub const OPPONENT: char = 'O';

/// `side` holds a full row, column or diagonal of the nine-cell board `b`,
/// laid out row-major.
pub open spec fn wins(b: Seq<char>, s: char) -> bool {
    ||| (b[0] == s && b[1] == s && b[2] == s)
    ||| (b[3] == s && b[4] == s && b[5] == s)
    ||| (b[6] == s && b[7] == s && b[8] == s)
    ||| (b[0] == s && b[3] == s && b[6] == s)
    ||| (b[1] == s && b[4] == s && b[7] == s)
    ||| (b[2] == s && b[5] == s && b[8] == s)
    ||| (b[0] == s && b[4] == s && b[8] == s)
    ||| (b[2] == s && b[4] == s && b[6] == s)
}

/// How many cells of `b` are empty.
pub open spec fn empties(b: Seq<char>) -> nat
    decreases b.len(),
{
    if b.len() == 0 {
        0
    } else {
        (if b.last() == EMPTY {
            1nat
        } else {
            0nat
        }) + empties(b.drop_last())
    }
}

/// Filling an empty cell lowers the empty count by exactly one.
proof fn lemma_empties_update(b: Seq<char>, k: int, c: char)
    requires
        0 <= k < b.len(),
        b[k] == EMPTY,
        c != EMPTY,
    ensures
        empties(b.update(k, c)) + 1 == empties(b),
    decreases b.len(),
{
    if k == b.len() - 1 {
        assert(b.update(k, c).drop_last() =~= b.drop_last());
    } else {
        assert(b.update(k, c).drop_last() =~= b.drop_last().update(k, c));
        lemma_empties_update(b.drop_last(), k, c);
        assert(b.update(k, c).last() == b.last());
    }
}

/// The empty count never exceeds the cell count.
proof fn lemma_empties_le_len(b: Seq<char>)
    ensures
        empties(b) <= b.len(),
    decreases b.len(),
{
    if b.len() > 0 {
        lemma_empties_le_len(b.drop_last());
    }
}

/// The minimax value of board `b` for side `me`, with `round` to move at
/// recursion depth `depth`: a decided board scores 10 for `me`'s win and
/// -10 for a loss, a full board scores the depth, and otherwise the best
/// value over every empty cell — maximized on `me`'s turns and minimized on
/// the other side's.
pub open spec fn solve_spec(b: Seq<char>, me: char, round: char, depth: int) -> int
    decreases empties(b), 10int,
{
    if wins(b, PLAYER) {
        if me == PLAYER {
            10
        } else {
            -10
        }
    } else if wins(b, OPPONENT) {
        if me == OPPONENT {
            10
        } else {
            -10
        }
    } else if forall|k: int| 0 <= k < 9 ==> b[k] != EMPTY {
        depth
    } else {
        scan_spec(
            b,
            me,
            round,
            depth,
            0,
            if me == round {
                i32::MIN as int
            } else {
                i32::MAX as int
            },
        )
    }
}

/// The minimax fold over the cells from `k` on, carrying the best value
/// found so far in `val`.
pub open spec fn scan_spec(
    b: Seq<char>,
    me: char,
    round: char,
    depth: int,
    k: int,
    val: int,
) -> int
    decreases empties(b), 9 - k,
    via scan_spec_decreases
{
    if !(round == PLAYER || round == OPPONENT) || b.len() != 9 || k < 0 || k >= 9 {
        val
    } else if b[k] != EMPTY {
        scan_spec(b, me, round, depth, k + 1, val)
    } else {
        let v2 = solve_spec(
            b.update(k, round),
            me,
            if round == PLAYER {
                OPPONENT
            } else {
                PLAYER
            },
            depth + 1,
        );
        let val2: int = if me == round {
            if v2 > val {
                v2
            } else {
                val
            }
        } else {
            if v2 < val {
                v2
            } else {
                val
            }
        };
        scan_spec(b, me, round, depth, k + 1, val2)
    }
}

/// The solver's score for the side `me` placing its mark at cell `k` of
/// board `b` and handing the round over.
pub open spec fn move_value(b: Seq<char>, me: char, k: int) -> int {
    solve_spec(
        b.update(k, me),
        me,
        if me == PLAYER {
            OPPONENT
        } else {
            PLAYER
        },
        0,
    )
}

#[via_fn]
proof fn scan_spec_decreases(b: Seq<char>, me: char, round: char, depth: int, k: int, val: int) {
    if (round == PLAYER || round == OPPONENT) && b.len() == 9 && 0 <= k < 9 && b[k] == EMPTY {
        lemma_empties_update(b, k, round);
    }
}

/// The side to move after `round`.
pub fn get_next_round(round: char) -> (r: char)
    ensures
        r == (if round == PLAYER {
            OPPONENT
        } else {
            PLAYER
        }),
{
    if round == PLAYER {
        OPPONENT
    } else {
        PLAYER
    }
}

/// A tic-tac-toe game: the board and whose round it is.
pub struct TicTacToe {
    board: Vec<char>,
    round: char,
}

impl TicTacToe {
    /// The nine cells, row-major.
    pub closed spec fn board_spec(&self) -> Seq<char> {
        self.board@
    }

    /// The side to move.
    pub closed spec fn round_spec(&self) -> char {
        self.round
    }

    /// Nine cells, and the side to move is one of the two marks.
    pub open spec fn wf(&self) -> bool {
        &&& self.board_spec().len() == 9
        &&& (self.round_spec() == PLAYER || self.round_spec() == OPPONENT)
    }

    /// Start a game from the given rows, the first player to move.
    pub fn new(board: [[char; 3]; 3]) -> (r: TicTacToe)
        ensures
            r.wf(),
            r.round_spec() == PLAYER,
            forall|i: int, j: int|
                0 <= i < 3 && 0 <= j < 3 ==> r.board_spec()[3 * i + j] == board@[i]@[j],
    {
        let mut cells: Vec<char> = Vec::new();
        cells.push(board[0][0]);
        cells.push(board[0][1]);
        cells.push(board[0][2]);
        cells.push(board[1][0]);
        cells.push(board[1][1]);
        cells.push(board[1][2]);
        cells.push(board[2][0]);
        cells.push(board[2][1]);
        cells.push(board[2][2]);
        TicTacToe { board: cells, round: PLAYER }
    }

    /// The mark at row `i`, column `j`.
    pub fn cell_at(&self, i: usize, j: usize) -> (r: char)
        requires
            self.wf(),
            i < 3,
            j < 3,
        ensures
            r == self.board_spec()[3 * i + j],
    {
        self.board[3 * i + j]
    }

    /// The side to move.
    pub fn round(&self) -> (r: char)
        ensures
            r == self.round_spec(),
    {
        self.round
    }

    /// The first empty cell in row-major order, or `None` when the board is
    /// full.
    pub fn get_empty_space(&self) -> (r: Option<(usize, usize)>)
        requires
            self.wf(),
        ensures
            match r {
                Some(p) => p.0 < 3 && p.1 < 3 && self.board_spec()[3 * p.0 + p.1] == EMPTY
                    && forall|k: int| 0 <= k < 3 * p.0 + p.1 ==> self.board_spec()[k] != EMPTY,
                None => forall|k: int| 0 <= k < 9 ==> self.board_spec()[k] != EMPTY,
            },
    {
        let mut k: usize = 0;
        while k < 9
            invariant
                self.wf(),
                k <= 9,
                forall|m: int| 0 <= m < k ==> self.board_spec()[m] != EMPTY,
            decreases 9 - k,
        {
            if self.board[k] == EMPTY {
                return Some((k / 3, k % 3));
            }
            k = k + 1;
        }
        None
    }

    /// Whether `s` holds a full line.
    fn wins_side(&self, s: char) -> (r: bool)
        requires
            self.wf(),
        ensures
            r == wins(self.board_spec(), s),
    {
        let b = &self.board;
        (b[0] == s && b[1] == s && b[2] == s) || (b[3] == s && b[4] == s && b[5] == s) || (b[6]
            == s && b[7] == s && b[8] == s) || (b[0] == s && b[3] == s && b[6] == s) || (b[1] == s
            && b[4] == s && b[7] == s) || (b[2] == s && b[5] == s && b[8] == s) || (b[0] == s
            && b[4] == s && b[8] == s) || (b[2] == s && b[4] == s && b[6] == s)
    }

    /// The winning side, if any, with the first player checked first.
    pub fn get_winning_side(&self) -> (r: Option<char>)
        requires
            self.wf(),
        ensures
            r == (if wins(self.board_spec(), PLAYER) {
                Some(PLAYER)
            } else if wins(self.board_spec(), OPPONENT) {
                Some(OPPONENT)
            } else {
                None::<char>
            }),
    {
        if self.wins_side(PLAYER) {
            Some(PLAYER)
        } else if self.wins_side(OPPONENT) {
            Some(OPPONENT)
        } else {
            None
        }
    }

    /// Minimax value of the position for the side owning this game, with
    /// `round` to move at recursion depth `depth`: a win scores 10, a loss
    /// -10, a full board scores the depth, and otherwise the best value
    /// over every empty cell, maximized on the owner's turns and minimized
    /// on the other side's. The board is explored and fully restored.
    pub fn solve(&mut self, round: char, depth: i32) -> (v: i32)
        requires
            old(self).wf(),
            round == PLAYER || round == OPPONENT,
            0 <= depth,
            depth + empties(old(self).board_spec()) <= i32::MAX,
        ensures
            final(self).board_spec() == old(self).board_spec(),
            final(self).round_spec() == old(self).round_spec(),
            v as int == solve_spec(
                old(self).board_spec(),
                old(self).round_spec(),
                round,
                depth as int,
            ),
        decreases empties(old(self).board_spec()),
    {
        if let Some(winner) = self.get_winning_side() {
            if winner == self.round {
                return 10;
            } else {
                return -10;
            }
        }
        if self.get_empty_space().is_none() {
            return depth;
        }
        let maximizing = self.round == round;
        let mut val: i32 = if maximizing {
            i32::MIN
        } else {
            i32::MAX
        };
        let ghost b0 = self.board@;
        let ghost r0 = self.round;
        let ghost target = solve_spec(b0, r0, round, depth as int);
        proof {
            assert(target == scan_spec(
                b0,
                r0,
                round,
                depth as int,
                0,
                if r0 == round {
                    i32::MIN as int
                } else {
                    i32::MAX as int
                },
            ));
        }
        let mut k: usize = 0;
        while k < 9
            invariant
                b0 == old(self).board_spec(),
                self.board@ == b0,
                self.round == r0,
                b0.len() == 9,
                r0 == PLAYER || r0 == OPPONENT,
                k <= 9,
                round == PLAYER || round == OPPONENT,
                0 <= depth,
                depth + empties(b0) <= i32::MAX,
                maximizing == (r0 == round),
                target == solve_spec(b0, r0, round, depth as int),
                scan_spec(b0, r0, round, depth as int, k as int, val as int) == target,
            decreases 9 - k,
        {
            if self.board[k] != EMPTY {
                proof {
                    assert(scan_spec(b0, r0, round, depth as int, k as int, val as int)
                        == scan_spec(b0, r0, round, depth as int, k + 1, val as int));
                }
                k = k + 1;
            } else {
                proof {
                    lemma_empties_update(b0, k as int, round);
                }
                self.board.set(k, round);
                let next_round = get_next_round(round);
                let v2 = self.solve(next_round, depth + 1);
                let ghost val_before = val as int;
                val = if maximizing {
                    if v2 > val {
                        v2
                    } else {
                        val
                    }
                } else {
                    if v2 < val {
                        v2
                    } else {
                        val
                    }
                };
                self.board.set(k, EMPTY);
                proof {
                    assert(self.board@ =~= b0);
                    assert(v2 as int == solve_spec(
                        b0.update(k as int, round),
                        r0,
                        if round == PLAYER {
                            OPPONENT
                        } else {
                            PLAYER
                        },
                        depth + 1,
                    ));
                    assert(scan_spec(b0, r0, round, depth as int, k as int, val_before)
                        == scan_spec(b0, r0, round, depth as int, k + 1, val as int));
                }
                k = k + 1;
            }
        }
        proof {
            assert(scan_spec(b0, r0, round, depth as int, 9, val as int) == val as int);
        }
        val
    }

    /// The move the solver prefers for the side to move: every empty cell is
    /// tried, scored by [`TicTacToe::solve`], and the last cell with a
    /// maximal score in row-major order wins. `None` only on a full board.
    /// The board is explored and fully restored.
    pub fn best_move(&mut self) -> (r: Option<(usize, usize)>)
        requires
            old(self).wf(),
        ensures
            final(self).board_spec() == old(self).board_spec(),
            final(self).round_spec() == old(self).round_spec(),
            (r is Some) <==> exists|k: int| 0 <= k < 9 && old(self).board_spec()[k] == EMPTY,
            match r {
                Some(p) => p.0 < 3 && p.1 < 3 && old(self).board_spec()[3 * p.0 + p.1] == EMPTY
                    && forall|k: int|
                    0 <= k < 9 && old(self).board_spec()[k] == EMPTY ==> move_value(
                        old(self).board_spec(),
                        old(self).round_spec(),
                        k,
                    ) <= move_value(
                        old(self).board_spec(),
                        old(self).round_spec(),
                        3 * p.0 + p.1,
                    ),
                None => true,
            },
    {
        let mut best: Option<(usize, usize)> = None;
        let mut max: i32 = i32::MIN;
        let ghost b0 = self.board@;
        let ghost r0 = self.round;
        let mut k: usize = 0;
        while k < 9
            invariant
                self.board@ == b0,
                self.round == r0,
                b0.len() == 9,
                r0 == PLAYER || r0 == OPPONENT,
                k <= 9,
                (best is Some) <==> exists|m: int| 0 <= m < k && b0[m] == EMPTY,
                match best {
                    Some(p) => p.0 < 3 && p.1 < 3 && b0[3 * p.0 + p.1] == EMPTY && max as int
                        == move_value(b0, r0, 3 * p.0 + p.1) && forall|t: int|
                        0 <= t < k && b0[t] == EMPTY ==> move_value(b0, r0, t) <= max as int,
                    None => true,
                },
            decreases 9 - k,
        {
            if self.board[k] != EMPTY {
                k = k + 1;
            } else {
                proof {
                    lemma_empties_update(b0, k as int, r0);
                    lemma_empties_le_len(b0.update(k as int, r0));
                }
                let mark = self.round;
                self.board.set(k, mark);
                let next_round = get_next_round(mark);
                let v = self.solve(next_round, 0);
                self.board.set(k, EMPTY);
                proof {
                    assert(self.board@ =~= b0);
                    assert(v as int == move_value(b0, r0, k as int));
                }
                if v >= max || best.is_none() {
                    best = Some((k / 3, k % 3));
                    max = v;
                    proof {
                        assert(3 * ((k as int) / 3) + (k as int) % 3 == k as int);
                    }
                }
                k = k + 1;
            }
        }
        best
    }

    /// Place the mark of the side to move at row `i`, column `j`, and hand
    /// the round to the other side.
    pub fn play_move(&mut self, i: usize, j: usize)
        requires
            old(self).wf(),
            i < 3,
            j < 3,
        ensures
            final(self).wf(),
            final(self).board_spec() == old(self).board_spec().update(
                3 * i + j,
                old(self).round_spec(),
            ),
            final(self).round_spec() == (if old(self).round_spec() == PLAYER {
                OPPONENT
            } else {
                PLAYER
            }),
    {
        let mark = self.round;
        self.board.set(3 * i + j, mark);
        self.round = get_next_round(mark);
    }
}

} // verus!
