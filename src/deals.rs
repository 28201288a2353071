//! Distinct arrangements of a multiset of card values.

use vstd::prelude::*;


verus! {

/// Number of cards still to place, over the values `1..=4` (entry 0 is not a card).
pub open spec fn total(rem: Seq<u8>) -> int {
    rem[1] as int + rem[2] as int + rem[3] as int + rem[4] as int
}

/// `rem` with one card of value `v` taken out.
pub open spec fn take_one(rem: Seq<u8>, v: int) -> Seq<u8> {
    rem.update(v, (rem[v] - 1) as u8)
}

/// How many times `w` occurs in `s`.
pub open spec fn count_of(s: Seq<u8>, w: u8) -> nat
    decreases s.len(),
{
    if s.len() == 0 {
        0
    } else {
        (if s[0] == w {
            1nat
        } else {
            0nat
        }) + count_of(s.skip(1), w)
    }
}

/// `t` is an arrangement of the multiset `rem`: values in `1..=4`, each occurring exactly
/// as often as `rem` says.
pub open spec fn arrangement(t: Seq<u8>, rem: Seq<u8>) -> bool {
    &&& t.len() == total(rem)
    &&& forall|i: int| 0 <= i < t.len() ==> 1 <= #[trigger] t[i] <= 4
    &&& forall|w: u8| 1 <= w <= 4 ==> #[trigger] count_of(t, w) == rem[w as int]
}

/// `s` is `start` followed by an arrangement of `rem`.
pub open spec fn extends_with_arrangement(s: Seq<u8>, start: Seq<u8>, rem: Seq<u8>) -> bool {
    &&& start.len() <= s.len()
    &&& s.take(start.len() as int) == start
    &&& arrangement(s.skip(start.len() as int), rem)
}

/// Number of distinct arrangements of the multiset `rem`: one for the empty multiset,
/// otherwise the sum over the first card's possible values.
pub open spec fn perm_count(rem: Seq<u8>) -> nat
    decreases total(rem), 6nat,
{
    if rem.len() != 5 {
        0
    } else if total(rem) <= 0 {
        1
    } else {
        first_card_branches(rem, 5)
    }
}

/// Arrangements of `rem` whose first card is below `upto`.
pub open spec fn first_card_branches(rem: Seq<u8>, upto: nat) -> nat
    decreases total(rem), upto,
{
    if upto <= 1 || upto > 5 || rem.len() != 5 || total(rem) <= 0 {
        0
    } else {
        first_card_branches(rem, (upto - 1) as nat) + if rem[upto - 1] > 0 {
            perm_count(take_one(rem, upto - 1))
        } else {
            0
        }
    }
}

proof fn lemma_perm_count_pos(rem: Seq<u8>)
    requires
        rem.len() == 5,
    ensures
        perm_count(rem) >= 1,
    decreases total(rem),
{
    if total(rem) > 0 {
        let v: int = if rem[1] > 0 {
            1
        } else if rem[2] > 0 {
            2
        } else if rem[3] > 0 {
            3
        } else {
            4
        };
        lemma_perm_count_pos(take_one(rem, v));
        lemma_branches_mono(rem, (v + 1) as nat, 5);
    }
}

proof fn lemma_branches_mono(rem: Seq<u8>, i: nat, j: nat)
    requires
        i <= j <= 5,
    ensures
        first_card_branches(rem, i) <= first_card_branches(rem, j),
    decreases j - i,
{
    if i < j {
        lemma_branches_mono(rem, i, (j - 1) as nat);
    }
}

proof fn lemma_count_of_cons(v: u8, t: Seq<u8>, w: u8)
    ensures
        count_of(seq![v] + t, w) == count_of(t, w) + if v == w {
            1nat
        } else {
            0nat
        },
{
    assert((seq![v] + t).skip(1) =~= t);
}

proof fn lemma_count_of_empty(w: u8)
    ensures
        count_of(Seq::<u8>::empty(), w) == 0,
{
}

proof fn lemma_count_of_first(t: Seq<u8>)
    requires
        t.len() > 0,
    ensures
        count_of(t, t[0]) >= 1,
{
}

proof fn lemma_extended_start(s: Seq<u8>, s0: Seq<u8>, v: u8, tp: Seq<u8>)
    requires
        s0.len() + 1 <= s.len(),
        s.take(s0.len() + 1 as int) == s0.push(v),
        tp == s.skip(s0.len() + 1 as int),
    ensures
        s[s0.len() as int] == v,
        s.take(s0.len() as int) == s0,
        s.skip(s0.len() as int) == seq![v] + tp,
{
    assert(s.take(s0.len() + 1 as int)[s0.len() as int] == s[s0.len() as int]);
    assert(s.take(s0.len() as int) =~= s0);
    assert(s.skip(s0.len() as int) =~= seq![v] + tp);
}

/// `n!`
pub open spec fn factorial(n: nat) -> nat
    decreases n,
{
    if n == 0 {
        1
    } else {
        n * factorial((n - 1) as nat)
    }
}

/// Product of the factorials of the multiplicities of the card values `1..=4`.
pub open spec fn multiplicity_factorials(rem: Seq<u8>) -> nat {
    factorial(rem[1] as nat) * factorial(rem[2] as nat) * factorial(rem[3] as nat) * factorial(
        rem[4] as nat,
    )
}

proof fn lemma_take_one_factorials(rem: Seq<u8>, v: int)
    requires
        rem.len() == 5,
        1 <= v <= 4,
        rem[v] > 0,
    ensures
        multiplicity_factorials(rem) == rem[v] * multiplicity_factorials(take_one(rem, v)),
{
    let t = take_one(rem, v);
    let a = factorial(t[1] as nat);
    let b = factorial(t[2] as nat);
    let c = factorial(t[3] as nat);
    let d = factorial(t[4] as nat);
    let r = rem[v] as int;
    if v == 1 {
        assert(factorial(rem[1] as nat) == r * a);
        assert((r * a) * b * c * d == r * (a * b * c * d)) by (nonlinear_arith);
    } else if v == 2 {
        assert(factorial(rem[2] as nat) == r * b);
        assert(a * (r * b) * c * d == r * (a * b * c * d)) by (nonlinear_arith);
    } else if v == 3 {
        assert(factorial(rem[3] as nat) == r * c);
        assert(a * b * (r * c) * d == r * (a * b * c * d)) by (nonlinear_arith);
    } else {
        assert(factorial(rem[4] as nat) == r * d);
        assert(a * b * c * (r * d) == r * (a * b * c * d)) by (nonlinear_arith);
    }
}

proof fn lemma_branch_term(rem: Seq<u8>, v: int)
    requires
        rem.len() == 5,
        1 <= v <= 4,
        total(rem) > 0,
    ensures
        (if rem[v] > 0 {
            perm_count(take_one(rem, v))
        } else {
            0
        }) * multiplicity_factorials(rem) == rem[v] * factorial((total(rem) - 1) as nat),
    decreases total(rem), 0nat,
{
    if rem[v] > 0 {
        let t = take_one(rem, v);
        lemma_multinomial(t);
        lemma_take_one_factorials(rem, v);
        let pc = perm_count(t);
        let pt = multiplicity_factorials(t);
        let r = rem[v] as int;
        assert(pc * (r * pt) == r * (pc * pt)) by (nonlinear_arith);
    }
}

/// The number of distinct arrangements of a multiset is the multinomial coefficient:
/// times the factorial of each multiplicity, it is the factorial of the total.
pub proof fn lemma_multinomial(rem: Seq<u8>)
    requires
        rem.len() == 5,
    ensures
        perm_count(rem) * multiplicity_factorials(rem) == factorial(total(rem) as nat),
    decreases total(rem), 1nat,
{
    if total(rem) > 0 {
        let f = factorial((total(rem) - 1) as nat);
        let m = multiplicity_factorials(rem);
        lemma_branch_term(rem, 1);
        lemma_branch_term(rem, 2);
        lemma_branch_term(rem, 3);
        lemma_branch_term(rem, 4);
        let t1 = if rem[1] > 0 { perm_count(take_one(rem, 1)) } else { 0 };
        let t2 = if rem[2] > 0 { perm_count(take_one(rem, 2)) } else { 0 };
        let t3 = if rem[3] > 0 { perm_count(take_one(rem, 3)) } else { 0 };
        let t4 = if rem[4] > 0 { perm_count(take_one(rem, 4)) } else { 0 };
        assert(first_card_branches(rem, 1) == 0);
        assert(first_card_branches(rem, 2) == t1);
        assert(first_card_branches(rem, 3) == t1 + t2);
        assert(first_card_branches(rem, 4) == t1 + t2 + t3);
        assert(first_card_branches(rem, 5) == t1 + t2 + t3 + t4);
        assert(perm_count(rem) == t1 + t2 + t3 + t4);
        assert((t1 + t2 + t3 + t4) * m == t1 * m + t2 * m + t3 * m + t4 * m) by (nonlinear_arith);
        let (r1, r2, r3, r4) = (rem[1] as int, rem[2] as int, rem[3] as int, rem[4] as int);
        assert(r1 * f + r2 * f + r3 * f + r4 * f == (r1 + r2 + r3 + r4) * f) by (nonlinear_arith);
        assert(factorial(total(rem) as nat) == total(rem) * f);
        assert(t1 * m == r1 * f);
        assert(t4 * m == r4 * f);
        assert(perm_count(rem) * m == (r1 + r2 + r3 + r4) * f);
    } else {
        assert(rem[1] == 0 && rem[2] == 0 && rem[3] == 0 && rem[4] == 0);
        assert(factorial(0) == 1);
        assert(multiplicity_factorials(rem) == 1);
    }
}

/// `a` comes before `b` in lexicographic order, for sequences of the same length: they
/// agree up to some position, where `a` holds the smaller value.
pub open spec fn lex_less(a: Seq<u8>, b: Seq<u8>) -> bool {
    exists|k: int| 0 <= k < a.len() && k < b.len() && a.take(k) == b.take(k) && a[k] < b[k]
}

/// Every distinct arrangement of the multiset `remaining` (entry `v` is the number of
/// cards of value `v`, for `v` in `1..=4`), each appended to `start`, each exactly once.
pub fn unique_permutations(start: Vec<u8>, remaining: &[u8; 5]) -> (r: Vec<Vec<u8>>)
    ensures
        r@.len() == perm_count(remaining@),
        forall|i: int|
            0 <= i < r@.len() ==> extends_with_arrangement(#[trigger] r@[i]@, start@, remaining@),
        forall|i: int, j: int| 0 <= i < j < r@.len() ==> r@[i]@ != r@[j]@,
        forall|i: int, j: int| 0 <= i < j < r@.len() ==> lex_less(r@[i]@, r@[j]@),
        forall|t: Seq<u8>|
            #[trigger] arrangement(t, remaining@) ==> exists|i: int|
                0 <= i < r@.len() && r@[i]@ == start@ + t,
    decreases total(remaining@),
{
    let ghost rem = remaining@;
    let ghost s0 = start@;
    let mut out: Vec<Vec<u8>> = Vec::new();
    let mut value: usize = 1;
    while value < 5
        invariant
            rem == remaining@,
            rem.len() == 5,
            s0 == start@,
            1 <= value <= 5,
            total(rem) > 0 ==> out@.len() == first_card_branches(rem, value as nat),
            total(rem) <= 0 ==> out@.len() == 0,
            out@.len() == 0 ==> forall|v: int| 1 <= v < value ==> rem[v] == 0,
            forall|i: int|
                0 <= i < out@.len() ==> extends_with_arrangement(#[trigger] out@[i]@, s0, rem)
                    && out@[i]@.len() > s0.len() && out@[i]@[s0.len() as int] < value,
            forall|i: int, j: int| 0 <= i < j < out@.len() ==> out@[i]@ != out@[j]@,
            forall|i: int, j: int| 0 <= i < j < out@.len() ==> lex_less(out@[i]@, out@[j]@),
            forall|t: Seq<u8>|
                #[trigger] arrangement(t, rem) && t.len() > 0 && t[0] < value ==> exists|i: int|
                    0 <= i < out@.len() && out@[i]@ == s0 + t,
        decreases 5 - value,
    {
        if remaining[value] > 0 {
            let mut rem_new: [u8; 5] = *remaining;
            rem_new[value] = remaining[value] - 1;
            let mut start_new = start.clone();
            start_new.push(value as u8);
            proof {
                assert(rem_new@ =~= take_one(rem, value as int));
                assert(start_new@ =~= s0.push(value as u8));
            }
            let ghost sn = start_new@;
            let mut perms = unique_permutations(start_new, &rem_new);
            let ghost before = out@;
            let ghost added = perms@;
            proof {
                lemma_perm_count_pos(rem_new@);
            }
            out.append(&mut perms);
            proof {
                assert forall|i: int| 0 <= i < out@.len() implies extends_with_arrangement(
                    #[trigger] out@[i]@,
                    s0,
                    rem,
                ) && out@[i]@.len() > s0.len() && out@[i]@[s0.len() as int] < value + 1 by {
                    if i >= before.len() {
                        let s = out@[i]@;
                        assert(s == added[i - before.len()]@);
                        let tp = s.skip(sn.len() as int);
                        lemma_extended_start(s, s0, value as u8, tp);
                        assert forall|w: u8| 1 <= w <= 4 implies #[trigger] count_of(
                            s.skip(s0.len() as int),
                            w,
                        ) == rem[w as int] by {
                            lemma_count_of_cons(value as u8, tp, w);
                        }
                        let sk = s.skip(s0.len() as int);
                        assert forall|k: int| 0 <= k < sk.len() implies 1 <= #[trigger] sk[k]
                            <= 4 by {
                            if k > 0 {
                                assert(sk[k] == tp[k - 1]);
                            }
                        }
                    }
                }
                assert forall|i: int, j: int| 0 <= i < j < out@.len() implies lex_less(
                    out@[i]@,
                    out@[j]@,
                ) by {
                    if i < before.len() && j >= before.len() {
                        let a = out@[i]@;
                        let s = out@[j]@;
                        assert(s == added[j - before.len()]@);
                        lemma_extended_start(s, s0, value as u8, s.skip(sn.len() as int));
                        let k = s0.len() as int;
                        assert(a.take(k) == s.take(k));
                        assert(a[k] < s[k]);
                    } else if i >= before.len() {
                        assert(out@[i]@ == added[i - before.len()]@);
                        assert(out@[j]@ == added[j - before.len()]@);
                    } else {
                        assert(out@[i] == before[i]);
                        assert(out@[j] == before[j]);
                    }
                }
                assert forall|i: int, j: int| 0 <= i < j < out@.len() implies out@[i]@
                    != out@[j]@ by {
                    if i < before.len() && j >= before.len() {
                        let s = out@[j]@;
                        assert(s == added[j - before.len()]@);
                        lemma_extended_start(s, s0, value as u8, s.skip(sn.len() as int));
                    }
                    if i >= before.len() {
                        assert(out@[i]@ == added[i - before.len()]@);
                        assert(out@[j]@ == added[j - before.len()]@);
                    }
                }
                assert forall|t: Seq<u8>|
                    #[trigger] arrangement(t, rem) && t.len() > 0 && t[0] < value + 1 implies exists|
                        i: int,
                    |
                        0 <= i < out@.len() && out@[i]@ == s0 + t by {
                    if t[0] < value {
                        let i0 = choose|i: int| 0 <= i < before.len() && before[i]@ == s0 + t;
                        assert(out@[i0]@ == s0 + t);
                    } else {
                        let tp = t.skip(1);
                        assert(t =~= seq![value as u8] + tp);
                        assert forall|w: u8| 1 <= w <= 4 implies #[trigger] count_of(tp, w)
                            == rem_new@[w as int] by {
                            lemma_count_of_cons(value as u8, tp, w);
                        }
                        assert(forall|k: int| 0 <= k < tp.len() ==> tp[k] == t[k + 1]);
                        assert(arrangement(tp, rem_new@));
                        let j0 = choose|j: int| 0 <= j < added.len() && added[j]@ == sn + tp;
                        assert(sn + tp =~= s0 + t);
                        assert(out@[before.len() + j0]@ == s0 + t);
                    }
                }
            }
        } else {
            proof {
                assert forall|t: Seq<u8>|
                    #[trigger] arrangement(t, rem) && t.len() > 0 && t[0] < value + 1 implies exists|
                        i: int,
                    |
                        0 <= i < out@.len() && out@[i]@ == s0 + t by {
                    if t[0] == value {
                        lemma_count_of_first(t);
                        assert(count_of(t, value as u8) == rem[value as int]);
                    }
                }
            }
        }
        value += 1;
    }
    if out.len() == 0 {
        proof {
            assert forall|w: u8| 1 <= w <= 4 implies #[trigger] count_of(
                s0.skip(s0.len() as int),
                w,
            ) == rem[w as int] by {
                assert(s0.skip(s0.len() as int) =~= Seq::<u8>::empty());
                lemma_count_of_empty(w);
            }
            assert(s0.take(s0.len() as int) =~= s0);
            assert forall|t: Seq<u8>| #[trigger] arrangement(t, rem) implies exists|i: int|
                0 <= i < 1 && seq![s0][i] == s0 + t by {
                assert(t =~= Seq::<u8>::empty());
                assert(s0 + t =~= s0);
                assert(seq![s0][0] == s0 + t);
            }
        }
        out.push(start);
        proof {
            assert(out@[0]@ == s0);
        }
    } else {
        proof {
            if total(rem) <= 0 {
                assert(rem[1] == 0 && rem[2] == 0 && rem[3] == 0 && rem[4] == 0);
            }
            assert forall|t: Seq<u8>| #[trigger] arrangement(t, rem) implies exists|i: int|
                0 <= i < out@.len() && out@[i]@ == s0 + t by {
                assert(t.len() > 0);
                assert(t[0] < 5);
            }
        }
    }
    out
}

} // verus!
