//! Game state: the card grid, the two pawns, the side to move and the undo history.

use vstd::prelude::*;
use crate::point::{Point, step, point_of, SIZE, CELLS};
use itertools::Itertools;

verus! {

/// Mathematical picture of a board.
pub struct BoardView {
    /// Card value of each cell, row-major.
    pub cards: Seq<u8>,
    /// Pawn of side 0, then pawn of side 1.
    pub pawns: Seq<Point>,
    /// Side to move.
    pub turn: int,
    /// One entry per move played: card value at the origin before leaving it, and the origin.
    pub history: Seq<(u8, Point)>,
}

/// A position of the game, mutated in place by `make_move` and `undo_move`.
pub struct Board {
    cards: Vec<u8>,
    pawns: Vec<Point>,
    turn: usize,
    moves: Vec<(u8, Point)>,
}

impl View for Board {
    type V = BoardView;

    closed spec fn view(&self) -> BoardView {
        BoardView {
            cards: self.cards@,
            pawns: self.pawns@,
            turn: self.turn as int,
            history: self.moves@,
        }
    }
}

/// Card under a point.
pub open spec fn card_at(b: BoardView, p: Point) -> u8 {
    b.cards[p.cell()]
}

/// Sizes and ranges of every component.
pub open spec fn shape(b: BoardView) -> bool {
    &&& b.cards.len() == CELLS
    &&& forall|i: int| 0 <= i < CELLS ==> #[trigger] b.cards[i] <= 4
    &&& b.pawns.len() == 2
    &&& b.pawns[0].valid()
    &&& b.pawns[1].valid()
    &&& (b.turn == 0 || b.turn == 1)
    &&& forall|i: int|
        0 <= i < b.history.len() ==> (#[trigger] b.history[i]).1.valid() && b.history[i].0 <= 4
}

/// Which cells hold a spent card: a zero that no pawn stands on.
pub open spec fn spent_flags(b: BoardView) -> Seq<bool> {
    Seq::new(
        CELLS as nat,
        |i: int| b.cards[i] == 0 && i != b.pawns[0].cell() && i != b.pawns[1].cell(),
    )
}

/// Number of `true` entries.
pub open spec fn count_true(s: Seq<bool>) -> nat
    decreases s.len(),
{
    if s.len() == 0 {
        0
    } else {
        count_true(s.drop_last()) + if s.last() {
            1nat
        } else {
            0nat
        }
    }
}

/// Number of spent cards.
pub open spec fn spent(b: BoardView) -> nat {
    count_true(spent_flags(b))
}

/// A board reachable by play from a fresh deal: the pawns stand apart, one card has
/// been spent per move played, side 0 moved first, and a pawn that has not moved yet
/// stands on a zero card.
pub open spec fn wf(b: BoardView) -> bool {
    &&& shape(b)
    &&& b.pawns[0] != b.pawns[1]
    &&& spent(b) == b.history.len()
    &&& b.turn == b.history.len() % 2
    &&& (b.history.len() == 0 ==> card_at(b, b.pawns[0]) == 0)
    &&& (b.history.len() <= 1 ==> card_at(b, b.pawns[1]) == 0)
}

/// A fresh deal: no move played, side 0 to move, and the zero cards are exactly the
/// cells under the pawns.
pub open spec fn fresh(b: BoardView) -> bool {
    &&& shape(b)
    &&& b.pawns[0] != b.pawns[1]
    &&& b.history.len() == 0
    &&& b.turn == 0
    &&& forall|i: int|
        0 <= i < CELLS ==> (#[trigger] b.cards[i] == 0 <==> (i == b.pawns[0].cell() || i
            == b.pawns[1].cell()))
}

/// Whether a walk of exactly `dist` further steps from `p` can end on cell `target`,
/// entering only cells with a live card and never a cell already on the path.
pub open spec fn walk(cards: Seq<u8>, p: Point, dist: nat, visited: Seq<bool>, target: int) -> bool
    decreases dist,
{
    if visited[p.cell()] || cards[p.cell()] == 0 {
        false
    } else if dist == 0 {
        p.cell() == target
    } else {
        let on_path = visited.update(p.cell(), true);
        let d = (dist - 1) as nat;
        walk(cards, step(p, 0), d, on_path, target) || walk(cards, step(p, 1), d, on_path, target)
            || walk(cards, step(p, 2), d, on_path, target) || walk(cards, step(p, 3), d, on_path, target)
    }
}

/// No cell visited yet.
pub open spec fn no_cells() -> Seq<bool> {
    Seq::new(CELLS as nat, |i: int| false)
}

/// Whether cell `t` is a legal destination for the side to move.
pub open spec fn is_dest(b: BoardView, t: int) -> bool {
    let origin = b.pawns[b.turn];
    let dist = card_at(b, origin);
    &&& 0 <= t < CELLS
    &&& t != b.pawns[0].cell()
    &&& t != b.pawns[1].cell()
    &&& if dist == 0 {
        b.cards[t] != 0
    } else {
        walk(b.cards, origin, dist as nat, no_cells(), t)
    }
}

/// Legal destinations among the first `n` cells, in cell order.
pub open spec fn legal_upto(b: BoardView, n: nat) -> Seq<Point>
    decreases n,
{
    if n == 0 {
        Seq::empty()
    } else {
        let prev = legal_upto(b, (n - 1) as nat);
        if is_dest(b, n - 1) {
            prev.push(point_of(n - 1))
        } else {
            prev
        }
    }
}

/// All legal destinations for the side to move, in cell order.
pub open spec fn legal(b: BoardView) -> Seq<Point> {
    legal_upto(b, CELLS as nat)
}

/// The board after the side to move goes to `m`.
pub open spec fn apply(b: BoardView, m: Point) -> BoardView {
    let from = b.pawns[b.turn];
    BoardView {
        cards: b.cards.update(from.cell(), 0),
        pawns: b.pawns.update(b.turn, m),
        turn: 1 - b.turn,
        history: b.history.push((b.cards[from.cell()], from)),
    }
}

/// The board with its last move taken back.
pub open spec fn unapply(b: BoardView) -> BoardView {
    let (value, from) = b.history.last();
    let mover = 1 - b.turn;
    BoardView {
        cards: b.cards.update(from.cell(), value),
        pawns: b.pawns.update(mover, from),
        turn: mover,
        history: b.history.drop_last(),
    }
}

proof fn lemma_count_true_set(s: Seq<bool>, i: int)
    requires
        0 <= i < s.len(),
        !s[i],
    ensures
        count_true(s.update(i, true)) == count_true(s) + 1,
    decreases s.len(),
{
    let u = s.update(i, true);
    if i == s.len() - 1 {
        assert(u.drop_last() =~= s.drop_last());
    } else {
        assert(u.drop_last() =~= s.drop_last().update(i, true));
        lemma_count_true_set(s.drop_last(), i);
    }
}

proof fn lemma_count_true_one_false(s: Seq<bool>, i: int)
    requires
        0 <= i < s.len(),
        !s[i],
    ensures
        count_true(s) + 1 <= s.len(),
    decreases s.len(),
{
    lemma_count_true_le(s.drop_last());
    if i < s.len() - 1 {
        lemma_count_true_one_false(s.drop_last(), i);
    }
}

proof fn lemma_count_true_le(s: Seq<bool>)
    ensures
        count_true(s) <= s.len(),
    decreases s.len(),
{
    if s.len() > 0 {
        lemma_count_true_le(s.drop_last());
    }
}

proof fn lemma_count_true_two_false(s: Seq<bool>, i: int, j: int)
    requires
        0 <= i < s.len(),
        0 <= j < s.len(),
        i != j,
        !s[i],
        !s[j],
    ensures
        count_true(s) + 2 <= s.len(),
    decreases s.len(),
{
    let n = s.len() - 1;
    if i == n {
        lemma_count_true_one_false(s.drop_last(), j);
    } else if j == n {
        lemma_count_true_one_false(s.drop_last(), i);
    } else {
        lemma_count_true_two_false(s.drop_last(), i, j);
    }
}

/// On a well-formed board at most fourteen moves have been played.
pub proof fn lemma_history_bound(b: BoardView)
    requires
        wf(b),
    ensures
        b.history.len() <= 14,
{
    let s = spent_flags(b);
    lemma_count_true_two_false(s, b.pawns[0].cell(), b.pawns[1].cell());
}

proof fn lemma_walk_lands_on_live_card(cards: Seq<u8>, p: Point, dist: nat, visited: Seq<bool>, target: int)
    requires
        p.valid(),
        cards.len() == CELLS,
        visited.len() == CELLS,
        walk(cards, p, dist, visited, target),
    ensures
        0 <= target < CELLS,
        cards[target] != 0,
    decreases dist,
{
    if dist > 0 {
        let on_path = visited.update(p.cell(), true);
        let d = (dist - 1) as nat;
        if walk(cards, step(p, 0), d, on_path, target) {
            lemma_walk_lands_on_live_card(cards, step(p, 0), d, on_path, target);
        } else if walk(cards, step(p, 1), d, on_path, target) {
            lemma_walk_lands_on_live_card(cards, step(p, 1), d, on_path, target);
        } else if walk(cards, step(p, 2), d, on_path, target) {
            lemma_walk_lands_on_live_card(cards, step(p, 2), d, on_path, target);
        } else {
            lemma_walk_lands_on_live_card(cards, step(p, 3), d, on_path, target);
        }
    }
}

proof fn lemma_point_cell(p: Point)
    requires
        p.valid(),
    ensures
        point_of(p.cell()) == p,
        0 <= p.cell() < CELLS,
{
}

proof fn lemma_cell_point(t: int)
    requires
        0 <= t < CELLS,
    ensures
        point_of(t).valid(),
        point_of(t).cell() == t,
{
}

/// What the legal destinations among the first `n` cells are: exactly the points of the
/// cells below `n` that `is_dest` admits, in strictly increasing cell order.
pub proof fn lemma_legal_upto(b: BoardView, n: nat)
    requires
        n <= CELLS,
    ensures
        forall|p: Point|
            legal_upto(b, n).contains(p) <==> (p.valid() && p.cell() < n && is_dest(b, p.cell())),
        forall|j: int, k: int|
            0 <= j < k < legal_upto(b, n).len() ==> legal_upto(b, n)[j].cell() < legal_upto(
                b,
                n,
            )[k].cell(),
        forall|j: int|
            0 <= j < legal_upto(b, n).len() ==> (#[trigger] legal_upto(b, n)[j]).valid()
                && legal_upto(b, n)[j].cell() < n,
        legal_upto(b, n).len() <= n,
    decreases n,
{
    if n > 0 {
        lemma_legal_upto(b, (n - 1) as nat);
        lemma_cell_point(n - 1);
        let prev = legal_upto(b, (n - 1) as nat);
        assert forall|p: Point|
            legal_upto(b, n).contains(p) <==> (p.valid() && p.cell() < n && is_dest(
                b,
                p.cell(),
            )) by {
            if p.valid() {
                lemma_point_cell(p);
            }
            if is_dest(b, n - 1) {
                if legal_upto(b, n).contains(p) && !prev.contains(p) {
                    let j = choose|j: int| 0 <= j < legal_upto(b, n).len() && legal_upto(b, n)[j] == p;
                    assert(j == prev.len());
                }
                if p.valid() && p.cell() == n - 1 && is_dest(b, p.cell()) {
                    assert(legal_upto(b, n)[prev.len() as int] == p);
                }
                if prev.contains(p) {
                    let j = choose|j: int| 0 <= j < prev.len() && prev[j] == p;
                    assert(legal_upto(b, n)[j] == p);
                }
            }
        }
    }
}

/// Facts about a legal destination.
pub proof fn lemma_legal_member(b: BoardView, m: Point)
    requires
        shape(b),
        legal(b).contains(m),
    ensures
        m.valid(),
        m != b.pawns[0],
        m != b.pawns[1],
        card_at(b, m) != 0,
        is_dest(b, m.cell()),
{
    lemma_legal_upto(b, CELLS as nat);
    lemma_point_cell(m);
    lemma_point_cell(b.pawns[0]);
    lemma_point_cell(b.pawns[1]);
    let origin = b.pawns[b.turn];
    if card_at(b, origin) != 0 {
        lemma_walk_lands_on_live_card(b.cards, origin, card_at(b, origin) as nat, no_cells(), m.cell());
    }
}

/// Moving to a legal destination keeps the board well formed.
pub proof fn lemma_apply_wf(b: BoardView, m: Point)
    requires
        wf(b),
        legal(b).contains(m),
    ensures
        wf(apply(b, m)),
        apply(b, m).history.len() == b.history.len() + 1,
{
    lemma_legal_member(b, m);
    let a = apply(b, m);
    let from = b.pawns[b.turn];
    lemma_point_cell(from);
    lemma_point_cell(b.pawns[0]);
    lemma_point_cell(b.pawns[1]);
    assert(spent_flags(a) =~= spent_flags(b).update(from.cell(), true));
    lemma_count_true_set(spent_flags(b), from.cell());
    assert forall|i: int| 0 <= i < a.history.len() implies (#[trigger] a.history[i]).1.valid()
        && a.history[i].0 <= 4 by {
        if i < b.history.len() {
            assert(a.history[i] == b.history[i]);
        }
    }
}

proof fn lemma_count_true_all_but_two(s: Seq<bool>, i: int, j: int)
    requires
        forall|t: int| 0 <= t < s.len() && t != i && t != j ==> #[trigger] s[t],
    ensures
        count_true(s) + (if 0 <= i < s.len() {
            1int
        } else {
            0int
        }) + (if 0 <= j < s.len() && j != i {
            1int
        } else {
            0int
        }) >= s.len(),
    decreases s.len(),
{
    if s.len() > 0 {
        lemma_count_true_all_but_two(s.drop_last(), i, j);
    }
}

/// A game cannot end before each side has made its opening move: while a pawn still
/// stands on its starting zero, every live cell off the pawns is open to it.
pub proof fn lemma_no_early_end(b: BoardView)
    requires
        wf(b),
        legal(b).len() == 0,
    ensures
        b.history.len() >= 2,
{
    if b.history.len() < 2 {
        lemma_point_cell(b.pawns[0]);
        lemma_point_cell(b.pawns[1]);
        lemma_legal_upto(b, CELLS as nat);
        let p0 = b.pawns[0].cell();
        let p1 = b.pawns[1].cell();
        if forall|t: int| 0 <= t < CELLS && t != p0 && t != p1 ==> b.cards[t] == 0 {
            let f = spent_flags(b);
            assert forall|t: int| 0 <= t < f.len() && t != p0 && t != p1 implies #[trigger] f[t] by {
                assert(b.cards[t] == 0);
            }
            lemma_count_true_all_but_two(f, p0, p1);
        } else {
            let t = choose|t: int| 0 <= t < CELLS && t != p0 && t != p1 && b.cards[t] != 0;
            lemma_cell_point(t);
            assert(is_dest(b, t));
            assert(legal(b).contains(point_of(t)));
        }
    }
}

/// Making a move and then taking it back restores the exact board: grid, pawns, side to
/// move and history.
pub proof fn lemma_undo_inverts_move(b: BoardView, m: Point)
    requires
        shape(b),
    ensures
        unapply(apply(b, m)) == b,
{
    let from = b.pawns[b.turn];
    lemma_point_cell(from);
    let u = unapply(apply(b, m));
    assert(u.cards =~= b.cards);
    assert(u.pawns =~= b.pawns);
    assert(u.history =~= b.history);
}

/// The board after playing the moves of `ms` in order.
pub open spec fn apply_all(b: BoardView, ms: Seq<Point>) -> BoardView
    decreases ms.len(),
{
    if ms.len() == 0 {
        b
    } else {
        apply(apply_all(b, ms.drop_last()), ms.last())
    }
}

/// The board with its last `n` moves taken back, most recent first.
pub open spec fn unapply_n(b: BoardView, n: nat) -> BoardView
    decreases n,
{
    if n == 0 {
        b
    } else {
        unapply_n(unapply(b), (n - 1) as nat)
    }
}

proof fn lemma_apply_shape(b: BoardView, m: Point)
    requires
        shape(b),
        m.valid(),
    ensures
        shape(apply(b, m)),
{
    let a = apply(b, m);
    lemma_point_cell(b.pawns[b.turn]);
    assert forall|i: int| 0 <= i < a.history.len() implies (#[trigger] a.history[i]).1.valid()
        && a.history[i].0 <= 4 by {
        if i < b.history.len() {
            assert(a.history[i] == b.history[i]);
        }
    }
}

/// Playing any number of moves and then taking back as many restores the exact board:
/// moves are undone last first.
pub proof fn lemma_undo_all_inverts_moves(b: BoardView, ms: Seq<Point>)
    requires
        shape(b),
        forall|i: int| 0 <= i < ms.len() ==> (#[trigger] ms[i]).valid(),
    ensures
        shape(apply_all(b, ms)),
        unapply_n(apply_all(b, ms), ms.len()) == b,
    decreases ms.len(),
{
    if ms.len() > 0 {
        let prev = ms.drop_last();
        assert forall|i: int| 0 <= i < prev.len() implies (#[trigger] prev[i]).valid() by {
            assert(prev[i] == ms[i]);
        }
        lemma_undo_all_inverts_moves(b, prev);
        lemma_apply_shape(apply_all(b, prev), ms.last());
        lemma_undo_inverts_move(apply_all(b, prev), ms.last());
    }
}

/// A legal destination is never under a pawn and never holds a spent card; in the opening
/// move, where the pawn stands on a zero card, every other live cell is a destination.
pub proof fn lemma_legal_avoids_pawns_and_spent_cards(b: BoardView)
    requires
        shape(b),
    ensures
        forall|m: Point|
            #[trigger] legal(b).contains(m) ==> m.valid() && m != b.pawns[0] && m != b.pawns[1]
                && card_at(b, m) != 0,
        card_at(b, b.pawns[b.turn]) == 0 ==> forall|m: Point|
            m.valid() ==> (#[trigger] legal(b).contains(m) <==> (m != b.pawns[0] && m
                != b.pawns[1] && card_at(b, m) != 0)),
        legal(b).no_duplicates(),
{
    lemma_legal_upto(b, CELLS as nat);
    assert forall|m: Point| #[trigger] legal(b).contains(m) implies m.valid() && m != b.pawns[0]
        && m != b.pawns[1] && card_at(b, m) != 0 by {
        lemma_legal_member(b, m);
    }
    lemma_point_cell(b.pawns[0]);
    lemma_point_cell(b.pawns[1]);
    assert forall|m: Point| m.valid() && card_at(b, b.pawns[b.turn]) == 0 implies (
    #[trigger] legal(b).contains(m) <==> (m != b.pawns[0] && m != b.pawns[1] && card_at(b, m)
        != 0)) by {
        lemma_point_cell(m);
    }
}

/// Relies on itertools' `cartesian_product`: every pair `(a, b)` with `a, b < n`,
/// `a` major and `b` minor, in increasing order.
#[verifier::external_body]
fn grid_pairs(n: usize) -> (r: Vec<(usize, usize)>)
    requires
        n <= SIZE,
    ensures
        r@.len() == n * n,
        forall|i: int| 0 <= i < n * n ==> #[trigger] r@[i] == ((i / n as int) as usize, (i % n as int) as usize),
{
    (0..n).cartesian_product(0..n).collect()
}

impl Board {
    /// The canonical starting layout, side 0 to move.
    pub fn new() -> (r: Board)
        ensures
            r@.cards == seq![1u8, 2, 2, 3, 4, 1, 2, 0, 3, 1, 2, 3, 0, 3, 1, 4],
            r@.pawns == seq![Point(1, 3), Point(3, 0)],
            r@.turn == 0,
            r@.history.len() == 0,
            fresh(r@),
            wf(r@),
    {
        let r = Board {
            cards: vec![1, 2, 2, 3, 4, 1, 2, 0, 3, 1, 2, 3, 0, 3, 1, 4],
            pawns: vec![Point(1, 3), Point(3, 0)],
            turn: 0,
            moves: Vec::new(),
        };
        proof {
            assert(r@.cards =~= seq![1u8, 2, 2, 3, 4, 1, 2, 0, 3, 1, 2, 3, 0, 3, 1, 4]);
            assert(r@.pawns =~= seq![Point(1, 3), Point(3, 0)]);
            lemma_fresh_wf(r@);
        }
        r
    }

    /// Builds a fresh deal from its cards (row-major) and pawn cells.
    pub fn from_parts(cards: Vec<u8>, pawn0: Point, pawn1: Point) -> (r: Board)
        requires
            fresh(BoardView { cards: cards@, pawns: seq![pawn0, pawn1], turn: 0, history: seq![] }),
        ensures
            r@ == (BoardView { cards: cards@, pawns: seq![pawn0, pawn1], turn: 0, history: seq![] }),
            wf(r@),
    {
        let r = Board { cards, pawns: vec![pawn0, pawn1], turn: 0, moves: Vec::new() };
        proof {
            assert(r@.pawns =~= seq![pawn0, pawn1]);
            assert(r@.history =~= seq![]);
            lemma_fresh_wf(r@);
        }
        r
    }

    /// Card under a point.
    pub fn card(&self, point: Point) -> (r: u8)
        requires
            shape(self@),
            point.valid(),
        ensures
            r == card_at(self@, point),
    {
        self.cards[point.index()]
    }

    /// Cards of the grid, row-major.
    pub fn cards(&self) -> (r: &Vec<u8>)
        ensures
            r@ == self@.cards,
    {
        &self.cards
    }

    /// Pawn of side `side`.
    pub fn pawn(&self, side: usize) -> (r: Point)
        requires
            shape(self@),
            side < 2,
        ensures
            r == self@.pawns[side as int],
    {
        self.pawns[side]
    }

    /// Side to move.
    pub fn turn(&self) -> (r: usize)
        ensures
            r == self@.turn,
    {
        self.turn
    }

    /// Number of moves played.
    pub fn moves_played(&self) -> (r: usize)
        ensures
            r == self@.history.len(),
    {
        self.moves.len()
    }

    fn set_card(&mut self, point: Point, dist: u8)
        requires
            shape(old(self)@),
            point.valid(),
            dist <= 4,
        ensures
            final(self)@ == (BoardView { cards: old(self)@.cards.update(point.cell(), dist), ..old(self)@ }),
            shape(final(self)@),
    {
        let i = point.index();
        self.cards.set(i, dist);
    }

    /// Adds to `out` every cell where a walk of exactly `dist` steps from `point` can end,
    /// avoiding the cells marked in `visited`.
    fn reachable(&self, point: Point, dist: u8, visited: &mut Vec<bool>, out: &mut Vec<bool>)
        requires
            shape(self@),
            point.valid(),
            old(visited)@.len() == CELLS,
            old(out)@.len() == CELLS,
        ensures
            final(visited)@ == old(visited)@,
            final(out)@.len() == CELLS,
            forall|t: int|
                0 <= t < CELLS ==> #[trigger] final(out)@[t] == (old(out)@[t] || walk(
                    self@.cards,
                    point,
                    dist as nat,
                    old(visited)@,
                    t,
                )),
        decreases dist,
    {
        let c = point.index();
        if visited[c] || self.cards[c] == 0 {
            return;
        }
        if dist == 0 {
            out.set(c, true);
            return;
        }
        let ghost v0 = visited@;
        let ghost o0 = out@;
        let nbs = point.neighbors();
        visited.set(c, true);
        self.reachable(nbs[0], dist - 1, visited, out);
        self.reachable(nbs[1], dist - 1, visited, out);
        self.reachable(nbs[2], dist - 1, visited, out);
        self.reachable(nbs[3], dist - 1, visited, out);
        visited.set(c, false);
        proof {
            assert(visited@ =~= v0);
        }
    }

    /// Legal destinations for the side to move, in cell order.
    pub fn legal_moves(&self) -> (r: Vec<Point>)
        requires
            shape(self@),
        ensures
            r@ == legal(self@),
    {
        let origin = self.pawns[self.turn];
        let dist = self.card(origin);
        let mut reached: Vec<bool> = vec![false; CELLS];
        if dist != 0 {
            let mut visited: Vec<bool> = vec![false; CELLS];
            proof {
                assert(visited@ =~= no_cells());
            }
            self.reachable(origin, dist, &mut visited, &mut reached);
        }
        let cells = grid_pairs(SIZE);
        let mut out: Vec<Point> = Vec::new();
        let mut i: usize = 0;
        while i < CELLS
            invariant
                shape(self@),
                origin == self@.pawns[self@.turn],
                dist == card_at(self@, origin),
                reached@.len() == CELLS,
                dist != 0 ==> forall|t: int|
                    0 <= t < CELLS ==> #[trigger] reached@[t] == walk(
                        self@.cards,
                        origin,
                        dist as nat,
                        no_cells(),
                        t,
                    ),
                cells@.len() == 16,
                forall|j: int| 0 <= j < 16 ==> #[trigger] cells@[j] == ((j / 4) as usize, (j % 4) as usize),
                i <= CELLS,
                out@ == legal_upto(self@, i as nat),
            decreases CELLS - i,
        {
            let (x, y) = cells[i];
            let p = Point(x, y);
            proof {
                lemma_cell_point(i as int);
                lemma_point_cell(self@.pawns[0]);
                lemma_point_cell(self@.pawns[1]);
            }
            let ci = p.index();
            let live = if dist == 0 {
                self.cards[ci] != 0
            } else {
                reached[ci]
            };
            if live && p != self.pawns[0] && p != self.pawns[1] {
                out.push(p);
            }
            i = i + 1;
        }
        out
    }

    /// Moves the pawn of the side to move to `point`, spending the card it leaves, and
    /// passes the turn.
    pub fn make_move(&mut self, point: Point)
        requires
            wf(old(self)@),
            legal(old(self)@).contains(point),
        ensures
            final(self)@ == apply(old(self)@, point),
            wf(final(self)@),
    {
        proof {
            lemma_apply_wf(self@, point);
        }
        let from = self.pawns[self.turn];
        let value = self.card(from);
        self.moves.push((value, from));
        self.set_card(from, 0);
        self.pawns.set(self.turn, point);
        self.turn = 1 - self.turn;
    }

    /// Takes back the last move played.
    pub fn undo_move(&mut self)
        requires
            shape(old(self)@),
            old(self)@.history.len() > 0,
        ensures
            final(self)@ == unapply(old(self)@),
            shape(final(self)@),
    {
        let (dist, from) = self.moves.pop().unwrap();
        self.turn = 1 - self.turn;
        self.pawns.set(self.turn, from);
        self.set_card(from, dist);
    }
}

/// A fresh deal is a well-formed board.
pub proof fn lemma_fresh_wf(b: BoardView)
    requires
        fresh(b),
    ensures
        wf(b),
{
    assert(spent_flags(b) =~= Seq::new(CELLS as nat, |i: int| false));
    lemma_count_true_all_false(CELLS as nat);
    lemma_point_cell(b.pawns[0]);
    lemma_point_cell(b.pawns[1]);
    assert(b.cards[b.pawns[0].cell()] == 0);
    assert(b.cards[b.pawns[1].cell()] == 0);
}

proof fn lemma_count_true_all_false(n: nat)
    ensures
        count_true(Seq::new(n, |i: int| false)) == 0,
    decreases n,
{
    if n > 0 {
        assert(Seq::new(n, |i: int| false).drop_last() =~= Seq::new((n - 1) as nat, |i: int| false));
        lemma_count_true_all_false((n - 1) as nat);
    }
}

} // verus!
