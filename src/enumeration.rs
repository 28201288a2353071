//! The distinguishable initial deals, each with the number of raw deals it stands for.

use vstd::prelude::*;
use crate::point::{Point, CELLS};
use crate::board::{Board, BoardView, fresh, wf};
use crate::deals::{
    arrangement, extends_with_arrangement, factorial, lemma_multinomial, multiplicity_factorials,
    perm_count, total, unique_permutations,
};

verus! {

/// The card multiset of a deal, by value: no 0 outside the pawns' cells, four 1s,
/// four 2s, four 3s and two 4s.
pub open spec fn deck() -> Seq<u8> {
    seq![0u8, 4u8, 4u8, 4u8, 2u8]
}

/// Representative cells for pawn 1 (pawn 0 stands on cell 0), each with the number of
/// raw placements of pawn 1 it stands for; the weights add up to the fifteen free cells.
pub open spec fn offsets() -> Seq<(usize, u64)> {
    seq![(1usize, 4u64), (2usize, 2u64), (5usize, 4u64), (6usize, 4u64), (10usize, 1u64)]
}

/// Grid of a deal: a zero for each pawn, at cells 0 and `q`, and the arranged cards
/// filling the other cells in order.
pub open spec fn deal_cards(perm: Seq<u8>, q: int) -> Seq<u8> {
    seq![0u8] + perm.take(q - 1) + seq![0u8] + perm.skip(q - 1)
}

/// The fresh board of a deal.
pub open spec fn deal_view(perm: Seq<u8>, q: int) -> BoardView {
    BoardView {
        cards: deal_cards(perm, q),
        pawns: seq![Point(0, 0), crate::point::point_of(q)],
        turn: 0,
        history: seq![],
    }
}

/// Sum of the weights.
pub open spec fn weight_sum(s: Seq<(Board, u64)>) -> int
    decreases s.len(),
{
    if s.len() == 0 {
        0
    } else {
        weight_sum(s.drop_last()) + s.last().1
    }
}

/// Sum of the first `j` offset weights.
pub open spec fn offset_weights(j: int) -> int
    decreases j,
{
    if j <= 0 {
        0
    } else {
        offset_weights(j - 1) + offsets()[j - 1].1
    }
}

proof fn lemma_deal_fresh(perm: Seq<u8>, q: int)
    requires
        arrangement(perm, deck()),
        1 <= q < CELLS,
    ensures
        fresh(deal_view(perm, q)),
        wf(deal_view(perm, q)),
{
    let b = deal_view(perm, q);
    assert(total(deck()) == 14);
    let c = deal_cards(perm, q);
    assert forall|i: int| 0 <= i < CELLS implies #[trigger] c[i] <= 4 && (c[i] == 0 <==> (i
        == b.pawns[0].cell() || i == b.pawns[1].cell())) by {
        if 0 < i < q {
            assert(c[i] == perm[i - 1]);
        } else if i > q {
            assert(c[i] == perm[i - 2]);
        }
    }
    crate::board::lemma_fresh_wf(b);
}

proof fn lemma_deal_cards_injective(p1: Seq<u8>, p2: Seq<u8>, q: int)
    requires
        p1.len() == 14,
        p2.len() == 14,
        1 <= q < CELLS,
        deal_cards(p1, q) == deal_cards(p2, q),
    ensures
        p1 == p2,
{
    assert forall|i: int| 0 <= i < 14 implies p1[i] == p2[i] by {
        if i < q - 1 {
            assert(deal_cards(p1, q)[i + 1] == p1[i]);
            assert(deal_cards(p2, q)[i + 1] == p2[i]);
        } else {
            assert(deal_cards(p1, q)[i + 2] == p1[i]);
            assert(deal_cards(p2, q)[i + 2] == p2[i]);
        }
    }
    assert(p1 =~= p2);
}

/// Lays out the cards of a deal: zeros at cells 0 and `q`, `perm` in the other cells.
fn deal_grid(perm: &Vec<u8>, q: usize) -> (r: Vec<u8>)
    requires
        perm@.len() == 14,
        1 <= q < CELLS,
    ensures
        r@ == deal_cards(perm@, q as int),
{
    let mut cards: Vec<u8> = Vec::new();
    let mut i: usize = 0;
    while i < CELLS
        invariant
            perm@.len() == 14,
            1 <= q < CELLS,
            i <= CELLS,
            cards@ == deal_cards(perm@, q as int).take(i as int),
        decreases CELLS - i,
    {
        if i == 0 || i == q {
            cards.push(0);
        } else if i < q {
            cards.push(perm[i - 1]);
        } else {
            cards.push(perm[i - 2]);
        }
        proof {
            assert(cards@ =~= deal_cards(perm@, q as int).take(i + 1));
        }
        i += 1;
    }
    proof {
        assert(cards@ =~= deal_cards(perm@, q as int));
    }
    cards
}

/// Appends the deal of every arrangement in `perms` with pawn 1 on cell `q`, each with
/// weight `weight`.
fn push_deals(boards: &mut Vec<(Board, u64)>, perms: &Vec<Vec<u8>>, q: usize, weight: u64)
    requires
        1 <= q < CELLS,
        lists_deck(perms@),
    ensures
        final(boards)@.len() == old(boards)@.len() + perms@.len(),
        block_appended(final(boards)@, old(boards)@, perms@, q as int, weight),
        weight_sum(final(boards)@) == weight_sum(old(boards)@) + perms@.len() * weight,
{
    let ghost b0 = boards@;
    proof {
        reveal(lists_deck);
    }
    let mut k: usize = 0;
    while k < perms.len()
        invariant
            1 <= q < CELLS,
            forall|k: int| 0 <= k < perms@.len() ==> arrangement(#[trigger] perms@[k]@, deck()),
            k <= perms@.len(),
            boards@.len() == b0.len() + k,
            forall|j: int| 0 <= j < b0.len() ==> #[trigger] boards@[j] == b0[j],
            forall|j: int|
                0 <= j < k ==> (#[trigger] boards@[b0.len() + j]).0@ == deal_view(perms@[j]@, q as int)
                    && boards@[b0.len() + j].1 == weight,
            weight_sum(boards@) == weight_sum(b0) + k * weight,
        decreases perms@.len() - k,
    {
        proof {
            assert(arrangement(perms@[k as int]@, deck()));
            assert(total(deck()) == 14);
            lemma_deal_fresh(perms@[k as int]@, q as int);
        }
        let cards = deal_grid(&perms[k], q);
        let board = Board::from_parts(cards, Point(0, 0), Point(q / 4, q % 4));
        let ghost before = boards@;
        boards.push((board, weight));
        proof {
            assert(boards@.drop_last() == before);
            assert((k + 1) * weight == k * weight + weight) by (nonlinear_arith);
        }
        k += 1;
    }
    proof {
        reveal(block_appended);
    }
}

/// `e` is the deal of an arrangement of the deck with pawn 1 on one of the first `upto`
/// representative cells, weighted as that cell is.
#[verifier::opaque]
pub open spec fn is_deal(e: (Board, u64), upto: int) -> bool {
    exists|jj: int, perm: Seq<u8>|
        0 <= jj < upto && arrangement(perm, deck()) && e.0@ == deal_view(perm, offsets()[jj].0 as int)
            && e.1 == offsets()[jj].1
}

/// No board occurs twice.
#[verifier::opaque]
pub open spec fn distinct_boards(s: Seq<(Board, u64)>) -> bool {
    forall|i: int, i2: int| 0 <= i < i2 < s.len() ==> s[i].0@ != s[i2].0@
}

/// Every arrangement of the deck, with pawn 1 on any of the first `upto` representative
/// cells, has its deal in `s` with that cell's weight.
#[verifier::opaque]
pub open spec fn covers_deals(s: Seq<(Board, u64)>, upto: int) -> bool {
    forall|jj: int, perm: Seq<u8>|
        #![trigger arrangement(perm, deck()), offsets()[jj]]
        0 <= jj < upto && arrangement(perm, deck()) ==> exists|i: int|
            0 <= i < s.len() && s[i].0@ == deal_view(perm, offsets()[jj].0 as int) && s[i].1
                == offsets()[jj].1
}

/// `perms` lists every arrangement of the deck exactly once.
#[verifier::opaque]
pub open spec fn lists_deck(perms: Seq<Vec<u8>>) -> bool {
    &&& forall|k: int| 0 <= k < perms.len() ==> arrangement(#[trigger] perms[k]@, deck())
    &&& forall|k1: int, k2: int| 0 <= k1 < k2 < perms.len() ==> perms[k1]@ != perms[k2]@
    &&& forall|perm: Seq<u8>|
        #[trigger] arrangement(perm, deck()) ==> exists|k: int|
            0 <= k < perms.len() && perms[k]@ == perm
}

/// `s` is `b0` followed by the deals of `perms` with pawn 1 on cell `q`, weight `w`.
#[verifier::opaque]
pub open spec fn block_appended(s: Seq<(Board, u64)>, b0: Seq<(Board, u64)>, perms: Seq<Vec<u8>>, q: int, w: u64) -> bool {
    &&& s.len() == b0.len() + perms.len()
    &&& forall|k: int| 0 <= k < b0.len() ==> #[trigger] s[k] == b0[k]
    &&& forall|k: int|
        0 <= k < perms.len() ==> (#[trigger] s[b0.len() + k]).0@ == deal_view(perms[k]@, q) && s[b0.len() + k].1 == w
}

proof fn lemma_block_members(s: Seq<(Board, u64)>, b0: Seq<(Board, u64)>, perms: Seq<Vec<u8>>, j: int)
    requires
        0 <= j < 5,
        lists_deck(perms),
        block_appended(s, b0, perms, offsets()[j].0 as int, offsets()[j].1),
        forall|i: int| 0 <= i < b0.len() ==> is_deal(#[trigger] b0[i], j),
    ensures
        forall|i: int| 0 <= i < s.len() ==> is_deal(#[trigger] s[i], j + 1),
{
    reveal(is_deal);
    reveal(lists_deck);
    reveal(block_appended);
    assert forall|i: int| 0 <= i < s.len() implies is_deal(#[trigger] s[i], j + 1) by {
        if i >= b0.len() {
            let k = i - b0.len();
            assert(s[b0.len() + k] == s[i]);
            assert(arrangement(perms[k]@, deck()));
        } else {
            assert(s[i] == b0[i]);
            assert(is_deal(b0[i], j));
        }
    }
}

proof fn lemma_block_distinct(s: Seq<(Board, u64)>, b0: Seq<(Board, u64)>, perms: Seq<Vec<u8>>, j: int)
    requires
        0 <= j < 5,
        lists_deck(perms),
        block_appended(s, b0, perms, offsets()[j].0 as int, offsets()[j].1),
        forall|i: int| 0 <= i < b0.len() ==> is_deal(#[trigger] b0[i], j),
        distinct_boards(b0),
    ensures
        distinct_boards(s),
{
    reveal(is_deal);
    reveal(lists_deck);
    reveal(block_appended);
    reveal(distinct_boards);
    let q = offsets()[j].0 as int;
    assert(total(deck()) == 14);
    assert forall|i: int, i2: int| 0 <= i < i2 < s.len() implies s[i].0@ != s[i2].0@ by {
        if i2 >= b0.len() {
            let k2 = i2 - b0.len();
            assert(s[b0.len() + k2] == s[i2]);
            assert(arrangement(perms[k2]@, deck()));
            if i >= b0.len() {
                let k1 = i - b0.len();
                assert(s[b0.len() + k1] == s[i]);
                assert(arrangement(perms[k1]@, deck()));
                if s[i].0@ == s[i2].0@ {
                    assert(s[i].0@.cards == s[i2].0@.cards);
                    lemma_deal_cards_injective(perms[k1]@, perms[k2]@, q);
                }
            } else {
                assert(s[i] == b0[i]);
                assert(is_deal(b0[i], j));
                let (jj, perm) = choose|jj: int, perm: Seq<u8>|
                    0 <= jj < j && arrangement(perm, deck()) && b0[i].0@ == deal_view(
                        perm,
                        offsets()[jj].0 as int,
                    ) && b0[i].1 == offsets()[jj].1;
                assert(s[i].0@.pawns[1] != s[i2].0@.pawns[1]);
            }
        } else {
            assert(s[i] == b0[i]);
            assert(s[i2] == b0[i2]);
        }
    }
}

proof fn lemma_block_covers(s: Seq<(Board, u64)>, b0: Seq<(Board, u64)>, perms: Seq<Vec<u8>>, j: int)
    requires
        0 <= j < 5,
        lists_deck(perms),
        block_appended(s, b0, perms, offsets()[j].0 as int, offsets()[j].1),
        covers_deals(b0, j),
    ensures
        covers_deals(s, j + 1),
{
    reveal(covers_deals);
    reveal(lists_deck);
    reveal(block_appended);
    assert forall|jj: int, perm: Seq<u8>|
        #![trigger arrangement(perm, deck()), offsets()[jj]]
        0 <= jj < j + 1 && arrangement(perm, deck()) implies exists|i: int|
            0 <= i < s.len() && s[i].0@ == deal_view(perm, offsets()[jj].0 as int) && s[i].1
                == offsets()[jj].1 by {
        if jj < j {
            let i0 = choose|i: int|
                0 <= i < b0.len() && b0[i].0@ == deal_view(perm, offsets()[jj].0 as int)
                    && b0[i].1 == offsets()[jj].1;
            assert(s[i0] == b0[i0]);
        } else {
            let k = choose|k: int| 0 <= k < perms.len() && perms[k]@ == perm;
            assert(s[b0.len() + k].0@ == deal_view(perms[k]@, offsets()[j].0 as int));
        }
    }
}

proof fn lemma_deals_wf(s: Seq<(Board, u64)>)
    requires
        forall|i: int| 0 <= i < s.len() ==> is_deal(#[trigger] s[i], 5),
    ensures
        forall|i: int| 0 <= i < s.len() ==> wf((#[trigger] s[i]).0@),
{
    reveal(is_deal);
    assert forall|i: int| 0 <= i < s.len() implies wf((#[trigger] s[i]).0@) by {
        assert(is_deal(s[i], 5));
        let (jj, perm) = choose|jj: int, perm: Seq<u8>|
            0 <= jj < 5 && arrangement(perm, deck()) && s[i].0@ == deal_view(perm, offsets()[jj].0 as int)
                && s[i].1 == offsets()[jj].1;
        lemma_deal_fresh(perm, offsets()[jj].0 as int);
    }
}

proof fn lemma_lists_deck(perms: Seq<Vec<u8>>)
    requires
        forall|i: int|
            0 <= i < perms.len() ==> extends_with_arrangement(#[trigger] perms[i]@, Seq::<u8>::empty(), deck()),
        forall|i: int, j: int| 0 <= i < j < perms.len() ==> perms[i]@ != perms[j]@,
        forall|t: Seq<u8>|
            #[trigger] arrangement(t, deck()) ==> exists|i: int|
                0 <= i < perms.len() && perms[i]@ == Seq::<u8>::empty() + t,
    ensures
        lists_deck(perms),
{
    reveal(lists_deck);
    assert forall|k: int| 0 <= k < perms.len() implies arrangement(#[trigger] perms[k]@, deck()) by {
        assert(extends_with_arrangement(perms[k]@, Seq::<u8>::empty(), deck()));
        assert(perms[k]@.skip(0) =~= perms[k]@);
    }
    assert forall|perm: Seq<u8>| #[trigger] arrangement(perm, deck()) implies exists|k: int|
        0 <= k < perms.len() && perms[k]@ == perm by {
        assert(Seq::<u8>::empty() + perm =~= perm);
    }
}

/// The deck has 14! / (4! 4! 4! 2!) = 3153150 distinct arrangements, so the deals
/// stand for fifteen times as many raw deals: 47297250.
pub proof fn lemma_deal_counts()
    ensures
        perm_count(deck()) * (24 * 24 * 24 * 2) == factorial(14),
        perm_count(deck()) == 3153150,
        15 * perm_count(deck()) == 47297250,
{
    lemma_multinomial(deck());
    assert(total(deck()) == 14);
    reveal_with_fuel(factorial, 15);
    assert(multiplicity_factorials(deck()) == 24 * 24 * 24 * 2);
    assert(factorial(4) == 24);
    assert(factorial(8) == 40320);
    assert(factorial(11) == 39916800);
    assert(factorial(12) == 479001600);
    assert(factorial(13) == 6227020800);
    assert(factorial(14) == 87178291200);
    let pc = perm_count(deck());
    assert(pc * multiplicity_factorials(deck()) == factorial(14));
    assert(pc * 27648 == 87178291200) by (nonlinear_arith)
        requires
            pc * multiplicity_factorials(deck()) == 87178291200,
            multiplicity_factorials(deck()) == 27648,
    ;
}

impl Board {
    /// Every distinguishable initial deal, with the number of raw deals it stands for.
    /// Pawn 0 stands on cell 0; pawn 1 on one of the representative cells; the other
    /// fourteen cells hold an arrangement of the deck. Each (arrangement, cell) pair comes
    /// exactly once, and the weights add up to fifteen times the number of arrangements.
    pub fn all_boards() -> (r: Vec<(Board, u64)>)
        ensures
            r@.len() == 5 * perm_count(deck()),
            weight_sum(r@) == 15 * perm_count(deck()),
            forall|i: int| 0 <= i < r@.len() ==> is_deal(#[trigger] r@[i], 5) && wf(r@[i].0@),
            distinct_boards(r@),
            covers_deals(r@, 5),
    {
        let reps: [(usize, u64); 5] = [(1, 4), (2, 2), (5, 4), (6, 4), (10, 1)];
        let multiset: [u8; 5] = [0, 4, 4, 4, 2];
        proof {
            assert(reps@ =~= offsets());
            assert(multiset@ =~= deck());
        }
        let perms = unique_permutations(Vec::new(), &multiset);
        let ghost pc = perm_count(deck());
        proof {
            lemma_lists_deck(perms@);
            reveal(distinct_boards);
            reveal(covers_deals);
        }
        let mut boards: Vec<(Board, u64)> = Vec::new();
        let mut j: usize = 0;
        while j < 5
            invariant
                reps@ == offsets(),
                perms@.len() == pc,
                pc == perm_count(deck()),
                lists_deck(perms@),
                j <= 5,
                boards@.len() == j * pc,
                weight_sum(boards@) == offset_weights(j as int) * pc,
                forall|i: int| 0 <= i < boards@.len() ==> is_deal(#[trigger] boards@[i], j as int),
                distinct_boards(boards@),
                covers_deals(boards@, j as int),
            decreases 5 - j,
        {
            let (pawn2, weight) = reps[j];
            let ghost b0 = boards@;
            push_deals(&mut boards, &perms, pawn2, weight);
            proof {
                lemma_block_members(boards@, b0, perms@, j as int);
                lemma_block_distinct(boards@, b0, perms@, j as int);
                lemma_block_covers(boards@, b0, perms@, j as int);
                assert(boards@.len() == (j + 1) * pc) by (nonlinear_arith)
                    requires
                        boards@.len() == j * pc + pc,
                ;
                assert(offset_weights(j + 1) * pc == offset_weights(j as int) * pc + weight * pc)
                    by (nonlinear_arith)
                    requires
                        offset_weights(j + 1) == offset_weights(j as int) + weight,
                ;
                assert(pc * weight == weight * pc) by (nonlinear_arith);
            }
            j += 1;
        }
        proof {
            reveal_with_fuel(offset_weights, 6);
            assert(offset_weights(5) == 15);
            lemma_deals_wf(boards@);
        }
        boards
    }
}

} // verus!
