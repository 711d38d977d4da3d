//! The hand evaluator: a pure, totally ordered strength value for any 5-, 6-
//! or 7-card hand. The value packs (category, tiebreak kickers) into one
//! integer with the category in the most significant digits, so plain numeric
//! comparison of two strengths compares poker hand strength.

use vstd::prelude::*;

use crate::card::Card;
use crate::hand::Hand;

verus! {

/// The category and the five tiebreak kickers of a hand, most significant
/// first; unused kicker slots hold 0.
pub ghost struct RankParts {
    pub cat: int,
    pub k1: int,
    pub k2: int,
    pub k3: int,
    pub k4: int,
    pub k5: int,
}

/// How many cards of the sequence, from position `i` on, carry rank `r`.
pub open spec fn count_rank_from(s: Seq<Card>, r: int, i: int) -> int
    decreases s.len() - i,
{
    if i < 0 || i >= s.len() {
        0
    } else {
        (if s[i].rank as int == r {
            1int
        } else {
            0int
        }) + count_rank_from(s, r, i + 1)
    }
}

pub open spec fn count_rank(s: Seq<Card>, r: int) -> int {
    count_rank_from(s, r, 0)
}

/// How many cards of the sequence, from position `i` on, carry suit `su`.
pub open spec fn count_suit_from(s: Seq<Card>, su: int, i: int) -> int
    decreases s.len() - i,
{
    if i < 0 || i >= s.len() {
        0
    } else {
        (if s[i].suit as int == su {
            1int
        } else {
            0int
        }) + count_suit_from(s, su, i + 1)
    }
}

pub open spec fn count_suit(s: Seq<Card>, su: int) -> int {
    count_suit_from(s, su, 0)
}

/// Some card of the sequence carries rank `r`.
pub open spec fn has_rank(s: Seq<Card>, r: int) -> bool {
    count_rank(s, r) >= 1
}

/// The exact card (rank `r`, suit `su`) occurs in the sequence.
pub open spec fn has_card(s: Seq<Card>, r: int, su: int) -> bool {
    exists|k: int| 0 <= k < s.len() && s[k].rank as int == r && s[k].suit as int == su
}

/// The highest rank not above `from`, other than `e1` and `e2`, carried by at
/// least `n` cards; 0 when there is none.
pub open spec fn top_with(s: Seq<Card>, n: int, from: int, e1: int, e2: int) -> int
    decreases from,
{
    if from < 2 {
        0
    } else if from != e1 && from != e2 && count_rank(s, from) >= n {
        from
    } else {
        top_with(s, n, from - 1, e1, e2)
    }
}

/// The highest rank not above `from` carried by a card of suit `su`; 0 when
/// there is none.
pub open spec fn top_suited(s: Seq<Card>, su: int, from: int) -> int
    decreases from,
{
    if from < 2 {
        0
    } else if has_card(s, from, su) {
        from
    } else {
        top_suited(s, su, from - 1)
    }
}

/// Five consecutive ranks topped by `t` are all present.
pub open spec fn run5(s: Seq<Card>, t: int) -> bool {
    has_rank(s, t) && has_rank(s, t - 1) && has_rank(s, t - 2) && has_rank(s, t - 3) && has_rank(
        s,
        t - 4,
    )
}

/// The ace-low straight: A-2-3-4-5.
pub open spec fn wheel(s: Seq<Card>) -> bool {
    has_rank(s, 14) && has_rank(s, 5) && has_rank(s, 4) && has_rank(s, 3) && has_rank(s, 2)
}

/// The top rank of the highest straight whose top is not above `f`; the wheel
/// counts with top 5; 0 when no straight is present.
pub open spec fn straight_top_from(s: Seq<Card>, f: int) -> int
    decreases f,
{
    if f < 6 {
        if wheel(s) {
            5
        } else {
            0
        }
    } else if run5(s, f) {
        f
    } else {
        straight_top_from(s, f - 1)
    }
}

pub open spec fn straight_top(s: Seq<Card>) -> int {
    straight_top_from(s, 14)
}

/// `run5` restricted to the cards of one suit.
pub open spec fn srun5(s: Seq<Card>, su: int, t: int) -> bool {
    has_card(s, t, su) && has_card(s, t - 1, su) && has_card(s, t - 2, su) && has_card(
        s,
        t - 3,
        su,
    ) && has_card(s, t - 4, su)
}

pub open spec fn swheel(s: Seq<Card>, su: int) -> bool {
    has_card(s, 14, su) && has_card(s, 5, su) && has_card(s, 4, su) && has_card(s, 3, su)
        && has_card(s, 2, su)
}

/// The straight detection of `straight_top_from`, restricted to one suit.
pub open spec fn sstraight_top_from(s: Seq<Card>, su: int, f: int) -> int
    decreases f,
{
    if f < 6 {
        if swheel(s, su) {
            5
        } else {
            0
        }
    } else if srun5(s, su, f) {
        f
    } else {
        sstraight_top_from(s, su, f - 1)
    }
}

pub open spec fn sstraight_top(s: Seq<Card>, su: int) -> int {
    sstraight_top_from(s, su, 14)
}

/// The suit holding five or more cards, 4 when there is none. At most one
/// suit of a 7-card hand can hold five cards.
pub open spec fn flush_suit(s: Seq<Card>) -> int {
    if count_suit(s, 0) >= 5 {
        0
    } else if count_suit(s, 1) >= 5 {
        1
    } else if count_suit(s, 2) >= 5 {
        2
    } else if count_suit(s, 3) >= 5 {
        3
    } else {
        4
    }
}

/// The category and kickers of a hand, per the fixed category precedence:
/// straight flush (8), four of a kind (7), full house (6), flush (5),
/// straight (4), three of a kind (3), two pair (2), one pair (1), high
/// card (0). Within a category the kickers list the grouped ranks first,
/// then the free ranks, in descending significance.
pub open spec fn spec_parts(s: Seq<Card>) -> RankParts {
    let fs = flush_suit(s);
    let sft = if fs <= 3 {
        sstraight_top(s, fs)
    } else {
        0
    };
    let quad = top_with(s, 4, 14, 0, 0);
    let trip = top_with(s, 3, 14, 0, 0);
    let fh_pair = if trip > 0 {
        top_with(s, 2, 14, trip, 0)
    } else {
        0
    };
    let st = straight_top(s);
    if sft > 0 {
        RankParts { cat: 8, k1: sft, k2: 0, k3: 0, k4: 0, k5: 0 }
    } else if quad > 0 {
        RankParts { cat: 7, k1: quad, k2: top_with(s, 1, 14, quad, 0), k3: 0, k4: 0, k5: 0 }
    } else if trip > 0 && fh_pair > 0 {
        RankParts { cat: 6, k1: trip, k2: fh_pair, k3: 0, k4: 0, k5: 0 }
    } else if fs <= 3 {
        let f1 = top_suited(s, fs, 14);
        let f2 = top_suited(s, fs, f1 - 1);
        let f3 = top_suited(s, fs, f2 - 1);
        let f4 = top_suited(s, fs, f3 - 1);
        let f5 = top_suited(s, fs, f4 - 1);
        RankParts { cat: 5, k1: f1, k2: f2, k3: f3, k4: f4, k5: f5 }
    } else if st > 0 {
        RankParts { cat: 4, k1: st, k2: 0, k3: 0, k4: 0, k5: 0 }
    } else if trip > 0 {
        let t2 = top_with(s, 1, 14, trip, 0);
        let t3 = top_with(s, 1, t2 - 1, trip, 0);
        RankParts { cat: 3, k1: trip, k2: t2, k3: t3, k4: 0, k5: 0 }
    } else {
        let p1 = top_with(s, 2, 14, 0, 0);
        if p1 > 0 {
            let p2 = top_with(s, 2, p1 - 1, 0, 0);
            if p2 > 0 {
                RankParts { cat: 2, k1: p1, k2: p2, k3: top_with(s, 1, 14, p1, p2), k4: 0, k5: 0 }
            } else {
                let q2 = top_with(s, 1, 14, p1, 0);
                let q3 = top_with(s, 1, q2 - 1, p1, 0);
                let q4 = top_with(s, 1, q3 - 1, p1, 0);
                RankParts { cat: 1, k1: p1, k2: q2, k3: q3, k4: q4, k5: 0 }
            }
        } else {
            let h1 = top_with(s, 1, 14, 0, 0);
            let h2 = top_with(s, 1, h1 - 1, 0, 0);
            let h3 = top_with(s, 1, h2 - 1, 0, 0);
            let h4 = top_with(s, 1, h3 - 1, 0, 0);
            let h5 = top_with(s, 1, h4 - 1, 0, 0);
            RankParts { cat: 0, k1: h1, k2: h2, k3: h3, k4: h4, k5: h5 }
        }
    }
}

/// The packed encoding: base-16 digits, category most significant.
pub open spec fn enc6(cat: int, k1: int, k2: int, k3: int, k4: int, k5: int) -> int {
    cat * 1048576 + k1 * 65536 + k2 * 4096 + k3 * 256 + k4 * 16 + k5
}

pub open spec fn spec_encode(p: RankParts) -> int {
    enc6(p.cat, p.k1, p.k2, p.k3, p.k4, p.k5)
}

/// The strength value of a hand: a pure function of the card sequence.
pub open spec fn spec_rank(s: Seq<Card>) -> int {
    spec_encode(spec_parts(s))
}

/// Every part lies in its digit range.
pub open spec fn parts_ok(p: RankParts) -> bool {
    0 <= p.cat <= 8 && 0 <= p.k1 <= 14 && 0 <= p.k2 <= 14 && 0 <= p.k3 <= 14 && 0 <= p.k4 <= 14
        && 0 <= p.k5 <= 14
}

pub proof fn lemma_top_with_le(s: Seq<Card>, n: int, from: int, e1: int, e2: int)
    requires
        from <= 14,
    ensures
        0 <= top_with(s, n, from, e1, e2) <= 14,
    decreases from,
{
    if from < 2 {
    } else if from != e1 && from != e2 && count_rank(s, from) >= n {
    } else {
        lemma_top_with_le(s, n, from - 1, e1, e2);
    }
}

pub proof fn lemma_top_suited_le(s: Seq<Card>, su: int, from: int)
    requires
        from <= 14,
    ensures
        0 <= top_suited(s, su, from) <= 14,
    decreases from,
{
    if from < 2 {
    } else if has_card(s, from, su) {
    } else {
        lemma_top_suited_le(s, su, from - 1);
    }
}

pub proof fn lemma_straight_top_le(s: Seq<Card>, f: int)
    requires
        f <= 14,
    ensures
        0 <= straight_top_from(s, f) <= 14,
    decreases f,
{
    if f < 6 {
    } else if run5(s, f) {
    } else {
        lemma_straight_top_le(s, f - 1);
    }
}

pub proof fn lemma_sstraight_top_le(s: Seq<Card>, su: int, f: int)
    requires
        f <= 14,
    ensures
        0 <= sstraight_top_from(s, su, f) <= 14,
    decreases f,
{
    if f < 6 {
    } else if srun5(s, su, f) {
    } else {
        lemma_sstraight_top_le(s, su, f - 1);
    }
}

/// The parts of any card sequence lie in their digit ranges; a high-card
/// result carries the highest present rank as its first kicker.
pub proof fn lemma_parts_valid(s: Seq<Card>)
    ensures
        parts_ok(spec_parts(s)),
        spec_parts(s).cat == 0 ==> spec_parts(s).k1 == top_with(s, 1, 14, 0, 0),
{
    let fs = flush_suit(s);
    if fs <= 3 {
        lemma_sstraight_top_le(s, fs, 14);
        lemma_top_suited_le(s, fs, 14);
        let f1 = top_suited(s, fs, 14);
        lemma_top_suited_le(s, fs, f1 - 1);
        let f2 = top_suited(s, fs, f1 - 1);
        lemma_top_suited_le(s, fs, f2 - 1);
        let f3 = top_suited(s, fs, f2 - 1);
        lemma_top_suited_le(s, fs, f3 - 1);
        let f4 = top_suited(s, fs, f3 - 1);
        lemma_top_suited_le(s, fs, f4 - 1);
    }
    lemma_top_with_le(s, 4, 14, 0, 0);
    let quad = top_with(s, 4, 14, 0, 0);
    lemma_top_with_le(s, 1, 14, quad, 0);
    lemma_top_with_le(s, 3, 14, 0, 0);
    let trip = top_with(s, 3, 14, 0, 0);
    lemma_top_with_le(s, 2, 14, trip, 0);
    lemma_straight_top_le(s, 14);
    lemma_top_with_le(s, 1, 14, trip, 0);
    let t2 = top_with(s, 1, 14, trip, 0);
    lemma_top_with_le(s, 1, t2 - 1, trip, 0);
    lemma_top_with_le(s, 2, 14, 0, 0);
    let p1 = top_with(s, 2, 14, 0, 0);
    lemma_top_with_le(s, 2, p1 - 1, 0, 0);
    let p2 = top_with(s, 2, p1 - 1, 0, 0);
    lemma_top_with_le(s, 1, 14, p1, p2);
    lemma_top_with_le(s, 1, 14, p1, 0);
    let q2 = top_with(s, 1, 14, p1, 0);
    lemma_top_with_le(s, 1, q2 - 1, p1, 0);
    let q3 = top_with(s, 1, q2 - 1, p1, 0);
    lemma_top_with_le(s, 1, q3 - 1, p1, 0);
    lemma_top_with_le(s, 1, 14, 0, 0);
    let h1 = top_with(s, 1, 14, 0, 0);
    lemma_top_with_le(s, 1, h1 - 1, 0, 0);
    let h2 = top_with(s, 1, h1 - 1, 0, 0);
    lemma_top_with_le(s, 1, h2 - 1, 0, 0);
    let h3 = top_with(s, 1, h2 - 1, 0, 0);
    lemma_top_with_le(s, 1, h3 - 1, 0, 0);
    let h4 = top_with(s, 1, h3 - 1, 0, 0);
    lemma_top_with_le(s, 1, h4 - 1, 0, 0);
}

/// Strength is a function of the cards alone: equal card sequences always
/// give equal strength values.
pub proof fn lemma_rank_deterministic(s: Seq<Card>, r1: u32, r2: u32)
    requires
        r1 as int == spec_rank(s),
        r2 as int == spec_rank(s),
    ensures
        r1 == r2,
{
}

/// Category monotonicity: a hand of a strictly higher category outranks any
/// hand of a strictly lower category, whatever the kickers.
pub proof fn lemma_category_order(s1: Seq<Card>, s2: Seq<Card>)
    requires
        spec_parts(s1).cat > spec_parts(s2).cat,
    ensures
        spec_rank(s1) > spec_rank(s2),
{
    lemma_parts_valid(s1);
    lemma_parts_valid(s2);
    let p1 = spec_parts(s1);
    let p2 = spec_parts(s2);
    assert(spec_rank(s1) >= p1.cat * 1048576);
    assert(spec_rank(s2) <= p2.cat * 1048576 + 14 * 65536 + 14 * 4096 + 14 * 256 + 14 * 16 + 14);
    assert(p1.cat * 1048576 >= (p2.cat + 1) * 1048576) by (nonlinear_arith)
        requires
            p1.cat > p2.cat,
    ;
}

/// Lexicographic comparison of the kicker lists, most significant first.
pub open spec fn kickers_lex_gt(p1: RankParts, p2: RankParts) -> bool {
    p1.k1 > p2.k1 || (p1.k1 == p2.k1 && (p1.k2 > p2.k2 || (p1.k2 == p2.k2 && (p1.k3 > p2.k3 || (
    p1.k3 == p2.k3 && (p1.k4 > p2.k4 || (p1.k4 == p2.k4 && p1.k5 > p2.k5)))))))
}

/// Kicker ordering within a category: with equal categories, the hand whose
/// kicker list is lexicographically greater outranks the other.
pub proof fn lemma_kicker_order(s1: Seq<Card>, s2: Seq<Card>)
    requires
        spec_parts(s1).cat == spec_parts(s2).cat,
        kickers_lex_gt(spec_parts(s1), spec_parts(s2)),
    ensures
        spec_rank(s1) > spec_rank(s2),
{
    lemma_parts_valid(s1);
    lemma_parts_valid(s2);
    let p1 = spec_parts(s1);
    let p2 = spec_parts(s2);
    if p1.k1 > p2.k1 {
        assert(p1.k1 * 65536 >= p2.k1 * 65536 + 65536);
    } else if p1.k2 > p2.k2 {
        assert(p1.k2 * 4096 >= p2.k2 * 4096 + 4096);
    } else if p1.k3 > p2.k3 {
        assert(p1.k3 * 256 >= p2.k3 * 256 + 256);
    } else if p1.k4 > p2.k4 {
        assert(p1.k4 * 16 >= p2.k4 * 16 + 16);
    }
}


proof fn lemma_count_rank_nonneg(s: Seq<Card>, r: int, i: int)
    ensures
        count_rank_from(s, r, i) >= 0,
    decreases s.len() - i,
{
    if 0 <= i < s.len() {
        lemma_count_rank_nonneg(s, r, i + 1);
    }
}

/// A rank carried by some card is counted.
pub proof fn lemma_count_rank_pos(s: Seq<Card>, k0: int)
    requires
        0 <= k0 < s.len(),
    ensures
        count_rank(s, s[k0].rank as int) >= 1,
{
    lemma_count_rank_pos_from(s, s[k0].rank as int, 0, k0);
}

proof fn lemma_count_rank_pos_from(s: Seq<Card>, r: int, i: int, k0: int)
    requires
        i <= k0 < s.len(),
        0 <= i,
        s[k0].rank as int == r,
    ensures
        count_rank_from(s, r, i) >= 1,
    decreases k0 - i,
{
    lemma_count_rank_nonneg(s, r, i + 1);
    if i < k0 {
        lemma_count_rank_pos_from(s, r, i + 1, k0);
    }
}

/// The highest present rank is at least any present rank.
pub proof fn lemma_top1_ge(s: Seq<Card>, r: int, from: int)
    requires
        2 <= r <= from <= 14,
        count_rank(s, r) >= 1,
    ensures
        top_with(s, 1, from, 0, 0) >= r,
    decreases from,
{
    if from == r {
    } else if from != 0 && count_rank(s, from) >= 1 {
    } else {
        lemma_top1_ge(s, r, from - 1);
    }
}

/// Any sequence holding a well-formed card has positive strength.
pub proof fn lemma_rank_pos(s: Seq<Card>, k0: int)
    requires
        0 <= k0 < s.len(),
        2 <= s[k0].rank <= 14,
    ensures
        spec_rank(s) > 0,
{
    lemma_parts_valid(s);
    let p = spec_parts(s);
    if p.cat == 0 {
        lemma_count_rank_pos(s, k0);
        lemma_top1_ge(s, s[k0].rank as int, 14);
    }
}

fn count_rank_from_exec(cards: &Vec<Card>, r: u8, i: usize) -> (n: usize)
    ensures
        n == count_rank_from(cards@, r as int, i as int),
        n + i <= cards@.len() || n == 0,
    decreases cards@.len() - i,
{
    if i >= cards.len() {
        0
    } else {
        let rest = count_rank_from_exec(cards, r, i + 1);
        if cards[i].rank == r {
            rest + 1
        } else {
            rest
        }
    }
}

fn count_rank_exec(cards: &Vec<Card>, r: u8) -> (n: usize)
    ensures
        n == count_rank(cards@, r as int),
{
    count_rank_from_exec(cards, r, 0)
}

fn count_suit_from_exec(cards: &Vec<Card>, su: u8, i: usize) -> (n: usize)
    ensures
        n == count_suit_from(cards@, su as int, i as int),
        n + i <= cards@.len() || n == 0,
    decreases cards@.len() - i,
{
    if i >= cards.len() {
        0
    } else {
        let rest = count_suit_from_exec(cards, su, i + 1);
        if cards[i].suit == su {
            rest + 1
        } else {
            rest
        }
    }
}

fn count_suit_exec(cards: &Vec<Card>, su: u8) -> (n: usize)
    ensures
        n == count_suit(cards@, su as int),
{
    count_suit_from_exec(cards, su, 0)
}

fn has_rank_exec(cards: &Vec<Card>, r: u8) -> (b: bool)
    ensures
        b == has_rank(cards@, r as int),
{
    count_rank_exec(cards, r) >= 1
}

fn has_card_exec(cards: &Vec<Card>, r: u8, su: u8) -> (b: bool)
    ensures
        b == has_card(cards@, r as int, su as int),
{
    let mut k: usize = 0;
    while k < cards.len()
        invariant
            k <= cards@.len(),
            forall|j: int|
                0 <= j < k ==> !(cards@[j].rank as int == r as int && cards@[j].suit as int
                    == su as int),
        decreases cards@.len() - k,
    {
        if cards[k].rank == r && cards[k].suit == su {
            return true;
        }
        k += 1;
    }
    false
}

fn top_with_exec(cards: &Vec<Card>, n: usize, from: u8, e1: u8, e2: u8) -> (t: u8)
    requires
        from <= 14,
    ensures
        t as int == top_with(cards@, n as int, from as int, e1 as int, e2 as int),
        t <= 14,
    decreases from,
{
    if from < 2 {
        0
    } else if from != e1 && from != e2 && count_rank_exec(cards, from) >= n {
        from
    } else {
        top_with_exec(cards, n, from - 1, e1, e2)
    }
}

fn top_suited_exec(cards: &Vec<Card>, su: u8, from: u8) -> (t: u8)
    requires
        from <= 14,
    ensures
        t as int == top_suited(cards@, su as int, from as int),
        t <= 14,
    decreases from,
{
    if from < 2 {
        0
    } else if has_card_exec(cards, from, su) {
        from
    } else {
        top_suited_exec(cards, su, from - 1)
    }
}

fn run5_exec(cards: &Vec<Card>, t: u8) -> (b: bool)
    requires
        6 <= t <= 14,
    ensures
        b == run5(cards@, t as int),
{
    has_rank_exec(cards, t) && has_rank_exec(cards, t - 1) && has_rank_exec(cards, t - 2)
        && has_rank_exec(cards, t - 3) && has_rank_exec(cards, t - 4)
}

fn wheel_exec(cards: &Vec<Card>) -> (b: bool)
    ensures
        b == wheel(cards@),
{
    has_rank_exec(cards, 14) && has_rank_exec(cards, 5) && has_rank_exec(cards, 4) && has_rank_exec(
        cards,
        3,
    ) && has_rank_exec(cards, 2)
}

fn straight_top_from_exec(cards: &Vec<Card>, f: u8) -> (t: u8)
    requires
        f <= 14,
    ensures
        t as int == straight_top_from(cards@, f as int),
        t <= 14,
    decreases f,
{
    if f < 6 {
        if wheel_exec(cards) {
            5
        } else {
            0
        }
    } else if run5_exec(cards, f) {
        f
    } else {
        straight_top_from_exec(cards, f - 1)
    }
}

fn srun5_exec(cards: &Vec<Card>, su: u8, t: u8) -> (b: bool)
    requires
        6 <= t <= 14,
    ensures
        b == srun5(cards@, su as int, t as int),
{
    has_card_exec(cards, t, su) && has_card_exec(cards, t - 1, su) && has_card_exec(
        cards,
        t - 2,
        su,
    ) && has_card_exec(cards, t - 3, su) && has_card_exec(cards, t - 4, su)
}

fn swheel_exec(cards: &Vec<Card>, su: u8) -> (b: bool)
    ensures
        b == swheel(cards@, su as int),
{
    has_card_exec(cards, 14, su) && has_card_exec(cards, 5, su) && has_card_exec(cards, 4, su)
        && has_card_exec(cards, 3, su) && has_card_exec(cards, 2, su)
}

fn sstraight_top_from_exec(cards: &Vec<Card>, su: u8, f: u8) -> (t: u8)
    requires
        f <= 14,
    ensures
        t as int == sstraight_top_from(cards@, su as int, f as int),
        t <= 14,
    decreases f,
{
    if f < 6 {
        if swheel_exec(cards, su) {
            5
        } else {
            0
        }
    } else if srun5_exec(cards, su, f) {
        f
    } else {
        sstraight_top_from_exec(cards, su, f - 1)
    }
}

fn flush_suit_exec(cards: &Vec<Card>) -> (fs: u8)
    ensures
        fs as int == flush_suit(cards@),
        fs <= 4,
{
    if count_suit_exec(cards, 0) >= 5 {
        0
    } else if count_suit_exec(cards, 1) >= 5 {
        1
    } else if count_suit_exec(cards, 2) >= 5 {
        2
    } else if count_suit_exec(cards, 3) >= 5 {
        3
    } else {
        4
    }
}

/// One rank below `t`, clamped at 0; agrees with the unclamped spec value
/// wherever `top_with` or `top_suited` reads it.
fn dec_rank(t: u8) -> (d: u8)
    ensures
        d as int == (if t >= 1 {
            t - 1
        } else {
            0
        }),
        d <= t,
{
    if t >= 1 {
        t - 1
    } else {
        0
    }
}

fn encode_exec(cat: u8, k1: u8, k2: u8, k3: u8, k4: u8, k5: u8) -> (r: u32)
    requires
        cat <= 8,
        k1 <= 14,
        k2 <= 14,
        k3 <= 14,
        k4 <= 14,
        k5 <= 14,
    ensures
        r as int == enc6(cat as int, k1 as int, k2 as int, k3 as int, k4 as int, k5 as int),
{
    (cat as u32) * 1048576 + (k1 as u32) * 65536 + (k2 as u32) * 4096 + (k3 as u32) * 256 + (
    k4 as u32) * 16 + (k5 as u32)
}

/// A clamped `from` argument reads the same `top_with` value as the spec's
/// possibly negative one.
proof fn lemma_top_with_clamp(s: Seq<Card>, n: int, t: int, e1: int, e2: int)
    requires
        t <= 0,
    ensures
        top_with(s, n, t - 1, e1, e2) == top_with(s, n, 0, e1, e2),
{
}

proof fn lemma_top_suited_clamp(s: Seq<Card>, su: int, t: int)
    requires
        t <= 0,
    ensures
        top_suited(s, su, t - 1) == top_suited(s, su, 0),
{
}

/// Evaluate the strength of any collection of at most seven cards; the
/// simulator feeds it the completed sample hands.
pub fn rank_cards(cards: &Vec<Card>) -> (r: u32)
    ensures
        r as int == spec_rank(cards@),
{
    let ghost s = cards@;
    let fs = flush_suit_exec(cards);
    let sft: u8 = if fs <= 3 {
        sstraight_top_from_exec(cards, fs, 14)
    } else {
        0
    };
    let quad = top_with_exec(cards, 4, 14, 0, 0);
    let trip = top_with_exec(cards, 3, 14, 0, 0);
    let fh_pair: u8 = if trip > 0 {
        top_with_exec(cards, 2, 14, trip, 0)
    } else {
        0
    };
    let st = straight_top_from_exec(cards, 14);
    if sft > 0 {
        encode_exec(8, sft, 0, 0, 0, 0)
    } else if quad > 0 {
        let k2 = top_with_exec(cards, 1, 14, quad, 0);
        encode_exec(7, quad, k2, 0, 0, 0)
    } else if trip > 0 && fh_pair > 0 {
        encode_exec(6, trip, fh_pair, 0, 0, 0)
    } else if fs <= 3 {
        let f1 = top_suited_exec(cards, fs, 14);
        proof {
            if f1 == 0 {
                lemma_top_suited_clamp(s, fs as int, 0);
            }
        }
        let f2 = top_suited_exec(cards, fs, dec_rank(f1));
        proof {
            if f2 == 0 {
                lemma_top_suited_clamp(s, fs as int, 0);
            }
        }
        let f3 = top_suited_exec(cards, fs, dec_rank(f2));
        proof {
            if f3 == 0 {
                lemma_top_suited_clamp(s, fs as int, 0);
            }
        }
        let f4 = top_suited_exec(cards, fs, dec_rank(f3));
        proof {
            if f4 == 0 {
                lemma_top_suited_clamp(s, fs as int, 0);
            }
        }
        let f5 = top_suited_exec(cards, fs, dec_rank(f4));
        encode_exec(5, f1, f2, f3, f4, f5)
    } else if st > 0 {
        encode_exec(4, st, 0, 0, 0, 0)
    } else if trip > 0 {
        let t2 = top_with_exec(cards, 1, 14, trip, 0);
        proof {
            if t2 == 0 {
                lemma_top_with_clamp(s, 1, 0, trip as int, 0);
            }
        }
        let t3 = top_with_exec(cards, 1, dec_rank(t2), trip, 0);
        encode_exec(3, trip, t2, t3, 0, 0)
    } else {
        let p1 = top_with_exec(cards, 2, 14, 0, 0);
        if p1 > 0 {
            let p2 = top_with_exec(cards, 2, p1 - 1, 0, 0);
            if p2 > 0 {
                let k3 = top_with_exec(cards, 1, 14, p1, p2);
                encode_exec(2, p1, p2, k3, 0, 0)
            } else {
                let q2 = top_with_exec(cards, 1, 14, p1, 0);
                proof {
                    if q2 == 0 {
                        lemma_top_with_clamp(s, 1, 0, p1 as int, 0);
                    }
                }
                let q3 = top_with_exec(cards, 1, dec_rank(q2), p1, 0);
                proof {
                    if q3 == 0 {
                        lemma_top_with_clamp(s, 1, 0, p1 as int, 0);
                    }
                }
                let q4 = top_with_exec(cards, 1, dec_rank(q3), p1, 0);
                encode_exec(1, p1, q2, q3, q4, 0)
            }
        } else {
            let h1 = top_with_exec(cards, 1, 14, 0, 0);
            proof {
                if h1 == 0 {
                    lemma_top_with_clamp(s, 1, 0, 0, 0);
                }
            }
            let h2 = top_with_exec(cards, 1, dec_rank(h1), 0, 0);
            proof {
                if h2 == 0 {
                    lemma_top_with_clamp(s, 1, 0, 0, 0);
                }
            }
            let h3 = top_with_exec(cards, 1, dec_rank(h2), 0, 0);
            proof {
                if h3 == 0 {
                    lemma_top_with_clamp(s, 1, 0, 0, 0);
                }
            }
            let h4 = top_with_exec(cards, 1, dec_rank(h3), 0, 0);
            proof {
                if h4 == 0 {
                    lemma_top_with_clamp(s, 1, 0, 0, 0);
                }
            }
            let h5 = top_with_exec(cards, 1, dec_rank(h4), 0, 0);
            encode_exec(0, h1, h2, h3, h4, h5)
        }
    }
}

/// Evaluate a well-formed hand of five to seven cards.
pub fn rank(h: &Hand) -> (r: u32)
    requires
        h.wf(),
        5 <= h.cards@.len() <= 7,
    ensures
        r as int == spec_rank(h.cards@),
{
    rank_cards(&h.cards)
}

} // verus!
