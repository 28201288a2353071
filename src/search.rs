//! Searches over the game tree: forced-win proof search, terminal-line counting and
//! alpha-beta minimax scored by the cards left when the game ends.

use vstd::prelude::*;
use crate::point::Point;
use crate::board::{
    Board, BoardView, wf, legal, apply, lemma_history_bound, lemma_apply_wf,
    lemma_undo_inverts_move,
};

verus! {

/// Whether one of the first `n` legal moves leaves the opponent without a forced win.
pub open spec fn win_upto(b: BoardView, n: nat) -> bool
    decreases 16 - b.history.len(), n,
{
    if n == 0 {
        false
    } else {
        win_upto(b, (n - 1) as nat) || (b.history.len() < 16 && n - 1 < legal(b).len() && {
            let c = apply(b, legal(b)[n - 1]);
            !win_upto(c, legal(c).len())
        })
    }
}

/// Whether the side to move can force a win: some legal move leaves the opponent
/// unable to force one. A side with no legal move has lost.
pub open spec fn can_win(b: BoardView) -> bool {
    win_upto(b, legal(b).len())
}

/// Terminal lines below the first `n` legal moves.
pub open spec fn lines_upto(b: BoardView, n: nat) -> nat
    decreases 16 - b.history.len(), n,
{
    if n == 0 {
        0
    } else {
        lines_upto(b, (n - 1) as nat) + if b.history.len() < 16 && n - 1 < legal(b).len() {
            let c = apply(b, legal(b)[n - 1]);
            if legal(c).len() == 0 {
                1
            } else {
                lines_upto(c, legal(c).len())
            }
        } else {
            0
        }
    }
}

/// Number of complete lines of play from `b`: one per terminal position reached.
pub open spec fn count_lines(b: BoardView) -> nat {
    if legal(b).len() == 0 {
        1
    } else {
        lines_upto(b, legal(b).len())
    }
}

/// Score of a finished game: the cards left, positive when their number is odd (side 1
/// is stuck), negative when it is even (side 0 is stuck).
pub open spec fn terminal_score(b: BoardView) -> int {
    let rem = 16 - b.history.len();
    if rem % 2 == 1 {
        rem
    } else {
        -rem
    }
}

/// Full-width minimax over the first `n` legal moves: side 0 maximises, side 1 minimises,
/// starting from the worst score for the side to move.
pub open spec fn mm_upto(b: BoardView, n: nat) -> int
    decreases 16 - b.history.len(), n,
{
    if n == 0 {
        if b.turn == 0 {
            -16
        } else {
            16
        }
    } else {
        let prev = mm_upto(b, (n - 1) as nat);
        if b.history.len() < 16 && n - 1 < legal(b).len() {
            let c = apply(b, legal(b)[n - 1]);
            let v = if legal(c).len() == 0 {
                terminal_score(c)
            } else {
                mm_upto(c, legal(c).len())
            };
            if b.turn == 0 {
                if v > prev {
                    v
                } else {
                    prev
                }
            } else {
                if v < prev {
                    v
                } else {
                    prev
                }
            }
        } else {
            prev
        }
    }
}

/// Unpruned minimax value of a position.
pub open spec fn minimax(b: BoardView) -> int {
    if legal(b).len() == 0 {
        terminal_score(b)
    } else {
        mm_upto(b, legal(b).len())
    }
}

/// What a window search returns about the true value `v`: exact inside the window, an
/// upper bound at or below it, a lower bound at or above it.
pub open spec fn fail_soft(v: int, r: int, lo: int, hi: int) -> bool {
    &&& (lo < r < hi ==> r == v)
    &&& (r <= lo ==> v <= r)
    &&& (r >= hi ==> v >= r)
}

/// Range of a score returned at `b`: that of a finished game, between 2 and 14 cards
/// left, no more than the cards left now, and strictly less where a move is still possible.
pub open spec fn score_range(b: BoardView, r: int) -> bool {
    let rem = 16 - b.history.len();
    &&& (r <= -2 || r >= 2)
    &&& -14 <= r <= 14
    &&& -rem <= r <= rem
    &&& (legal(b).len() > 0 ==> -rem < r < rem)
}

proof fn lemma_win_mono(b: BoardView, i: nat, j: nat)
    requires
        i <= j,
        win_upto(b, i),
    ensures
        win_upto(b, j),
    decreases j - i,
{
    if i < j {
        lemma_win_mono(b, i, (j - 1) as nat);
    }
}

proof fn lemma_lines_mono(b: BoardView, i: nat, j: nat)
    requires
        i <= j,
    ensures
        lines_upto(b, i) <= lines_upto(b, j),
    decreases j - i,
{
    if i < j {
        lemma_lines_mono(b, i, (j - 1) as nat);
    }
}

proof fn lemma_mm_mono(b: BoardView, i: nat, j: nat)
    requires
        i <= j,
    ensures
        b.turn == 0 ==> mm_upto(b, i) <= mm_upto(b, j),
        b.turn != 0 ==> mm_upto(b, i) >= mm_upto(b, j),
    decreases j - i,
{
    if i < j {
        lemma_mm_mono(b, i, (j - 1) as nat);
    }
}

/// Counts the terminal positions below `board` into `counter`.
pub fn traverse_game_tree(board: &mut Board, counter: &mut u64)
    requires
        wf(old(board)@),
        *old(counter) + count_lines(old(board)@) <= u64::MAX,
    ensures
        final(board)@ == old(board)@,
        *final(counter) == *old(counter) + count_lines(old(board)@),
    decreases 16 - old(board)@.history.len(),
{
    let ghost b0 = board@;
    let ghost c0 = *counter;
    proof {
        lemma_history_bound(b0);
    }
    let moves = board.legal_moves();
    if moves.len() == 0 {
        *counter += 1;
        return;
    }
    let mut i: usize = 0;
    while i < moves.len()
        invariant
            board@ == b0,
            old(board)@ == b0,
            wf(b0),
            b0.history.len() <= 14,
            moves@ == legal(b0),
            moves@.len() > 0,
            i <= moves@.len(),
            *counter == c0 + lines_upto(b0, i as nat),
            c0 + count_lines(b0) <= u64::MAX,
        decreases moves@.len() - i,
    {
        let m = moves[i];
        proof {
            assert(legal(b0).contains(m)) by {
                assert(legal(b0)[i as int] == m);
            }
            lemma_apply_wf(b0, m);
            lemma_undo_inverts_move(b0, m);
            lemma_lines_mono(b0, (i + 1) as nat, moves@.len());
        }
        board.make_move(m);
        traverse_game_tree(board, counter);
        board.undo_move();
        i += 1;
    }
}

impl Board {
    /// A move after which the opponent cannot force a win; `None` when there is none.
    pub fn winning_move(&mut self) -> (r: Option<Point>)
        requires
            wf(old(self)@),
        ensures
            final(self)@ == old(self)@,
            r.is_some() == can_win(old(self)@),
            r matches Some(m) ==> legal(old(self)@).contains(m) && !can_win(apply(old(self)@, m)),
        decreases 16 - old(self)@.history.len(),
    {
        let ghost b0 = self@;
        proof {
            lemma_history_bound(b0);
        }
        let moves = self.legal_moves();
        let mut i: usize = 0;
        while i < moves.len()
            invariant
                self@ == b0,
                old(self)@ == b0,
                wf(b0),
                b0.history.len() <= 14,
                moves@ == legal(b0),
                i <= moves@.len(),
                !win_upto(b0, i as nat),
            decreases moves@.len() - i,
        {
            let m = moves[i];
            proof {
                assert(legal(b0).contains(m)) by {
                    assert(legal(b0)[i as int] == m);
                }
                lemma_apply_wf(b0, m);
                lemma_undo_inverts_move(b0, m);
            }
            self.make_move(m);
            let reply = self.winning_move();
            self.undo_move();
            if reply.is_none() {
                proof {
                    lemma_win_mono(b0, (i + 1) as nat, moves@.len());
                }
                return Some(m);
            }
            i += 1;
        }
        None
    }

    /// Number of complete lines of play from this position.
    pub fn count_terminal_lines(&mut self) -> (r: u64)
        requires
            wf(old(self)@),
        ensures
            final(self)@ == old(self)@,
            r == count_lines(old(self)@),
    {
        proof {
            lemma_count_lines_bound(self@);
            lemma_pow16_mono((14 - self@.history.len()) as nat, 14);
            reveal_with_fuel(pow16, 15);
        }
        let mut counter: u64 = 0;
        traverse_game_tree(self, &mut counter);
        counter
    }
}

impl Board {
    /// Alpha-beta search of the cards-remaining score inside the window
    /// `(at_least, at_most)`. Returns a best move (none when the game is over) and a
    /// score that is exact inside the window and a bound outside it.
    pub fn best_move_by_cards_remaining_bounded(&mut self, at_least: i8, at_most: i8) -> (r: (
        Option<Point>,
        i8,
    ))
        requires
            wf(old(self)@),
            -16 <= at_least < at_most <= 16,
        ensures
            final(self)@ == old(self)@,
            fail_soft(minimax(old(self)@), r.1 as int, at_least as int, at_most as int),
            score_range(old(self)@, r.1 as int),
            legal(old(self)@).len() == 0 ==> r.0 is None && r.1 == terminal_score(old(self)@),
            legal(old(self)@).len() > 0 ==> r.0 is Some,
            r.0 matches Some(m) ==> legal(old(self)@).contains(m) && (at_least < r.1 < at_most
                ==> minimax(apply(old(self)@, m)) == r.1),
        decreases 16 - old(self)@.history.len(),
    {
        let ghost b0 = self@;
        proof {
            lemma_history_bound(b0);
        }
        let ghost k = b0.history.len() as int;
        let moves = self.legal_moves();
        if moves.len() == 0 {
            proof {
                crate::board::lemma_no_early_end(b0);
            }
            let cards_remaining: i8 = 16 - self.moves_played() as i8;
            if cards_remaining % 2 == 1 {
                return (None, cards_remaining);
            } else {
                return (None, -cards_remaining);
            }
        }
        let mut lo: i8 = at_least;
        let mut hi: i8 = at_most;
        let mut best_score: i8 = if self.turn() == 0 {
            -16
        } else {
            16
        };
        let mut best_move = Point(0, 0);
        let mut i: usize = 0;
        while i < moves.len()
            invariant
                self@ == b0,
                old(self)@ == b0,
                wf(b0),
                k == b0.history.len(),
                k <= 14,
                moves@ == legal(b0),
                moves@.len() > 0,
                i <= moves@.len(),
                -16 <= at_least < at_most <= 16,
                -16 <= lo < hi <= 16,
                i == 0 ==> best_score == if b0.turn == 0 {
                    -16int
                } else {
                    16int
                },
                i > 0 ==> -(15 - k) <= best_score <= 15 - k && legal(b0).contains(best_move)
                    && (best_score <= -2 || best_score >= 2) && -14 <= best_score <= 14,
                b0.turn == 0 ==> {
                    &&& hi == at_most
                    &&& lo == if best_score > at_least {
                        best_score
                    } else {
                        at_least
                    }
                    &&& best_score < hi
                    &&& mm_upto(b0, i as nat) <= best_score
                    &&& (best_score > at_least ==> best_score == mm_upto(b0, i as nat))
                    &&& (i > 0 && best_score > at_least ==> minimax(apply(b0, best_move))
                        == best_score)
                },
                b0.turn != 0 ==> {
                    &&& lo == at_least
                    &&& hi == if best_score < at_most {
                        best_score
                    } else {
                        at_most
                    }
                    &&& best_score > lo
                    &&& mm_upto(b0, i as nat) >= best_score
                    &&& (best_score < at_most ==> best_score == mm_upto(b0, i as nat))
                    &&& (i > 0 && best_score < at_most ==> minimax(apply(b0, best_move))
                        == best_score)
                },
            decreases moves@.len() - i,
        {
            let m = moves[i];
            proof {
                assert(legal(b0).contains(m)) by {
                    assert(legal(b0)[i as int] == m);
                }
                lemma_apply_wf(b0, m);
                lemma_undo_inverts_move(b0, m);
                lemma_mm_mono(b0, (i + 1) as nat, moves@.len());
            }
            let ghost c = apply(b0, m);
            self.make_move(m);
            let (_, score) = self.best_move_by_cards_remaining_bounded(lo, hi);
            proof {
                assert(mm_upto(b0, (i + 1) as nat) == if b0.turn == 0 {
                    if minimax(c) > mm_upto(b0, i as nat) {
                        minimax(c)
                    } else {
                        mm_upto(b0, i as nat)
                    }
                } else {
                    if minimax(c) < mm_upto(b0, i as nat) {
                        minimax(c)
                    } else {
                        mm_upto(b0, i as nat)
                    }
                });
            }
            if self.turn() == 1 {
                if score > best_score {
                    best_score = score;
                    best_move = m;
                    if best_score >= hi {
                        self.undo_move();
                        return (Some(best_move), best_score);
                    }
                    if best_score > lo {
                        lo = best_score;
                    }
                }
            } else {
                if score < best_score {
                    best_score = score;
                    best_move = m;
                    if best_score <= lo {
                        self.undo_move();
                        return (Some(best_move), best_score);
                    }
                    if best_score < hi {
                        hi = best_score;
                    }
                }
            }
            self.undo_move();
            i += 1;
        }
        (Some(best_move), best_score)
    }

    /// Best move and score with the full window: the score is the unpruned minimax value,
    /// and the move, present exactly when one is legal, achieves it.
    pub fn best_move_by_cards_remaining(&mut self) -> (r: (Option<Point>, i8))
        requires
            wf(old(self)@),
        ensures
            final(self)@ == old(self)@,
            r.1 == minimax(old(self)@),
            r.0 is None <==> legal(old(self)@).len() == 0,
            r.0 matches Some(m) ==> legal(old(self)@).contains(m) && minimax(apply(old(self)@, m))
                == minimax(old(self)@),
    {
        self.best_move_by_cards_remaining_bounded(-16, 16)
    }
}

/// One move of a simulated game, as chosen by `Board::simulate_step`.
#[derive(Clone, Copy, Debug, PartialEq, Eq, Structural)]
pub enum SimStep {
    /// The side to move can force a win and plays a winning move.
    Confident(Point),
    /// The side to move cannot force a win and plays its first legal move.
    Hopeless(Point),
    /// The side to move has no legal move and has lost.
    Lost,
}

impl Board {
    /// Plays one move of a game where each side plays a winning move when it has one,
    /// and otherwise its first legal move.
    pub fn simulate_step(&mut self) -> (r: SimStep)
        requires
            wf(old(self)@),
        ensures
            wf(final(self)@),
            match r {
                SimStep::Confident(m) => can_win(old(self)@) && legal(old(self)@).contains(m)
                    && !can_win(apply(old(self)@, m)) && final(self)@ == apply(old(self)@, m),
                SimStep::Hopeless(m) => !can_win(old(self)@) && legal(old(self)@).len() > 0 && m
                    == legal(old(self)@)[0] && final(self)@ == apply(old(self)@, m),
                SimStep::Lost => legal(old(self)@).len() == 0 && final(self)@ == old(self)@,
            },
    {
        match self.winning_move() {
            Some(m) => {
                self.make_move(m);
                SimStep::Confident(m)
            },
            None => {
                let moves = self.legal_moves();
                if moves.len() > 0 {
                    let m = moves[0];
                    proof {
                        assert(legal(self@).contains(m)) by {
                            assert(legal(self@)[0] == m);
                        }
                    }
                    self.make_move(m);
                    SimStep::Hopeless(m)
                } else {
                    SimStep::Lost
                }
            },
        }
    }
}

/// From any well-formed board there are at most 2^56 complete lines, so a counter at or
/// below `u64::MAX - 2^56` has room for them.
pub proof fn lemma_count_lines_fits(b: BoardView)
    requires
        wf(b),
    ensures
        count_lines(b) <= 72057594037927936,
{
    lemma_count_lines_bound(b);
    lemma_pow16_mono((14 - b.history.len()) as nat, 14);
    reveal_with_fuel(pow16, 15);
}

/// `16` to the power `e`.
pub open spec fn pow16(e: nat) -> nat
    decreases e,
{
    if e == 0 {
        1
    } else {
        16 * pow16((e - 1) as nat)
    }
}

proof fn lemma_pow16_mono(e: nat, f: nat)
    requires
        e <= f,
    ensures
        1 <= pow16(e) <= pow16(f),
    decreases f,
{
    if e < f {
        lemma_pow16_mono(e, (f - 1) as nat);
    } else if e > 0 {
        lemma_pow16_mono((e - 1) as nat, (e - 1) as nat);
    }
}

/// Lines below a position grow at most sixteenfold per move still to play.
pub proof fn lemma_count_lines_bound(b: BoardView)
    requires
        wf(b),
    ensures
        b.history.len() <= 14,
        count_lines(b) <= pow16((14 - b.history.len()) as nat),
    decreases 16 - b.history.len(), 17nat,
{
    lemma_history_bound(b);
    crate::board::lemma_legal_upto(b, 16);
    let k = b.history.len();
    if legal(b).len() == 0 {
        lemma_pow16_mono(0, (14 - k) as nat);
    } else {
        let m = legal(b)[0];
        assert(legal(b).contains(m));
        lemma_apply_wf(b, m);
        lemma_history_bound(apply(b, m));
        lemma_lines_upto_bound(b, legal(b).len());
        let x = pow16((13 - k) as nat);
        let n = legal(b).len();
        assert(n * x <= 16 * x) by (nonlinear_arith)
            requires
                n <= 16,
        ;
        assert(pow16((14 - k) as nat) == 16 * x);
    }
}

proof fn lemma_lines_upto_bound(b: BoardView, n: nat)
    requires
        wf(b),
        b.history.len() <= 13,
        n <= legal(b).len(),
    ensures
        lines_upto(b, n) <= n * pow16((13 - b.history.len()) as nat),
    decreases 16 - b.history.len(), n,
{
    if n > 0 {
        lemma_lines_upto_bound(b, (n - 1) as nat);
        let m = legal(b)[n - 1];
        assert(legal(b).contains(m));
        lemma_apply_wf(b, m);
        lemma_count_lines_bound(apply(b, m));
        let x = pow16((13 - b.history.len()) as nat);
        assert((n - 1) * x + x == n * x) by (nonlinear_arith);
    }
}

} // verus!
