//! The deck: the 52-card set minus the cards already dealt out, consumed
//! from a cursor. Dealing lazily shuffles: each dealt position is swapped
//! with a pseudo-randomly drawn later position, so `reset` rewinds the cursor
//! without undoing or repeating past draws, and successive run-outs draw
//! fresh cards while the whole stream stays a pure function of the seed.

use vstd::prelude::*;

use crate::card::{all_wf, card_at, card_index, card_wf, lemma_card_index_inverse, Card};
use crate::hand::contains_card;
use crate::rng::{mix, next_state, Prng};

verus! {

pub struct Deck {
    pub cards: Vec<Card>,
    pub idx: usize,
    pub rng: Prng,
}

/// The allowed cards among the first `n` positions of the fixed numbering,
/// in numbering order.
pub open spec fn spec_subset_upto(known: Seq<Card>, n: int) -> Seq<Card>
    decreases n,
{
    if n <= 0 {
        Seq::empty()
    } else {
        let prev = spec_subset_upto(known, n - 1);
        let c = card_at(n - 1);
        if known.contains(c) {
            prev
        } else {
            prev.push(c)
        }
    }
}

/// The 52-card set minus the known cards, in numbering order.
pub open spec fn spec_subset(known: Seq<Card>) -> Seq<Card> {
    spec_subset_upto(known, 52)
}

/// The deck state after `k` deal steps from position `idx`: each step draws
/// a position in the undealt tail and swaps it to the front of the tail.
pub open spec fn spec_deal(cards: Seq<Card>, s: u64, idx: int, k: int) -> (Seq<Card>, u64)
    decreases k,
{
    if k <= 0 {
        (cards, s)
    } else {
        let prev = spec_deal(cards, s, idx, k - 1);
        let i = idx + k - 1;
        let s1 = next_state(prev.1);
        if 0 <= i < prev.0.len() {
            let bound = (prev.0.len() - i) as u64;
            let j = i + (mix(s1) % bound) as int;
            (prev.0.update(i, prev.0[j]).update(j, prev.0[i]), s1)
        } else {
            (prev.0, s1)
        }
    }
}

/// How many cards of `ks` sit below position `n` of the numbering.
pub open spec fn cnt_below(ks: Seq<Card>, n: int) -> int
    decreases ks.len(),
{
    if ks.len() == 0 {
        0
    } else {
        cnt_below(ks.drop_last(), n) + (if card_index(ks.last()) < n {
            1int
        } else {
            0int
        })
    }
}

proof fn lemma_card_at_index(m: int)
    requires
        0 <= m < 52,
    ensures
        card_wf(card_at(m)),
        card_index(card_at(m)) == m,
{
    vstd::arithmetic::div_mod::lemma_fundamental_div_mod(m, 13);
    assert(m / 13 <= 3 && m / 13 >= 0) by (nonlinear_arith)
        requires
            0 <= m < 52,
    ;
}

proof fn lemma_cnt_zero(ks: Seq<Card>)
    requires
        all_wf(ks),
    ensures
        cnt_below(ks, 0) == 0,
    decreases ks.len(),
{
    if ks.len() > 0 {
        assert(all_wf(ks.drop_last()));
        lemma_cnt_zero(ks.drop_last());
        lemma_card_index_inverse(ks.last());
    }
}

proof fn lemma_cnt_all(ks: Seq<Card>)
    requires
        all_wf(ks),
    ensures
        cnt_below(ks, 52) == ks.len(),
    decreases ks.len(),
{
    if ks.len() > 0 {
        assert(all_wf(ks.drop_last()));
        lemma_cnt_all(ks.drop_last());
        lemma_card_index_inverse(ks.last());
    }
}

proof fn lemma_cnt_step(ks: Seq<Card>, n: int)
    requires
        ks.no_duplicates(),
        all_wf(ks),
        1 <= n <= 52,
    ensures
        cnt_below(ks, n) == cnt_below(ks, n - 1) + (if ks.contains(card_at(n - 1)) {
            1int
        } else {
            0int
        }),
    decreases ks.len(),
{
    let ca = card_at(n - 1);
    lemma_card_at_index(n - 1);
    if ks.len() == 0 {
        assert(!ks.contains(ca));
    } else {
        let d = ks.drop_last();
        let l = ks.last();
        assert(d.no_duplicates()) by {
            assert(forall|i: int| 0 <= i < d.len() ==> d[i] == ks[i]);
        }
        assert(all_wf(d));
        lemma_cnt_step(d, n);
        lemma_card_index_inverse(l);
        // the last card counts toward the difference exactly when it is the
        // card at position n - 1
        if card_index(l) == n - 1 {
            assert(l == card_at(card_index(l)));
        }
        if l == ca {
            assert(card_index(l) == n - 1);
        }
        // membership in ks splits into membership in d and equality with l
        if ks.contains(ca) {
            let ix = choose|ix: int| 0 <= ix < ks.len() && ks[ix] == ca;
            if ix < ks.len() - 1 {
                assert(d[ix] == ca);
                assert(d.contains(ca));
            } else {
                assert(l == ca);
            }
        }
        if d.contains(ca) {
            let ix = choose|ix: int| 0 <= ix < d.len() && d[ix] == ca;
            assert(ks[ix] == ca);
            assert(ks.contains(ca));
            if l == ca {
                assert(ks[ks.len() - 1] == ks[ix]);
                assert(false);
            }
        }
        if l == ca {
            assert(ks[ks.len() - 1] == ca);
            assert(ks.contains(ca));
        }
    }
}

proof fn lemma_subset_len_upto(ks: Seq<Card>, n: int)
    requires
        ks.no_duplicates(),
        all_wf(ks),
        0 <= n <= 52,
    ensures
        spec_subset_upto(ks, n).len() == n - cnt_below(ks, n),
    decreases n,
{
    if n == 0 {
        lemma_cnt_zero(ks);
    } else {
        lemma_subset_len_upto(ks, n - 1);
        lemma_cnt_step(ks, n);
    }
}

proof fn lemma_subset_upto_le(ks: Seq<Card>, n: int)
    requires
        0 <= n,
    ensures
        spec_subset_upto(ks, n).len() <= n,
    decreases n,
{
    if n > 0 {
        lemma_subset_upto_le(ks, n - 1);
    }
}

/// The deck never holds more than the 52 cards.
pub proof fn lemma_subset_le(ks: Seq<Card>)
    ensures
        spec_subset(ks).len() <= 52,
{
    lemma_subset_upto_le(ks, 52);
}

/// A deck built from distinct well-formed exclusions holds exactly the other
/// cards of the 52.
pub proof fn lemma_subset_len(ks: Seq<Card>)
    requires
        ks.no_duplicates(),
        all_wf(ks),
    ensures
        spec_subset(ks).len() == 52 - ks.len(),
{
    lemma_subset_len_upto(ks, 52);
    lemma_cnt_all(ks);
}

/// The deck depends only on which cards are excluded, not on their order.
pub proof fn lemma_subset_membership(k1: Seq<Card>, k2: Seq<Card>)
    requires
        forall|c: Card| k1.contains(c) <==> #[trigger] k2.contains(c),
    ensures
        spec_subset(k1) == spec_subset(k2),
{
    lemma_subset_membership_upto(k1, k2, 52);
}

proof fn lemma_subset_membership_upto(k1: Seq<Card>, k2: Seq<Card>, n: int)
    requires
        forall|c: Card| k1.contains(c) <==> #[trigger] k2.contains(c),
    ensures
        spec_subset_upto(k1, n) == spec_subset_upto(k2, n),
    decreases n,
{
    if n > 0 {
        lemma_subset_membership_upto(k1, k2, n - 1);
    }
}

/// Dealing never changes how many cards a deck of machine-bounded size
/// holds.
pub proof fn lemma_spec_deal_len(cards: Seq<Card>, s: u64, idx: int, k: int)
    requires
        cards.len() <= 0xffffffffffffffff,
    ensures
        spec_deal(cards, s, idx, k).0.len() == cards.len(),
    decreases k,
{
    if k > 0 {
        lemma_spec_deal_len(cards, s, idx, k - 1);
    }
}

/// One more deal step swaps the drawn position to the front of the tail.
pub proof fn lemma_deal_step(cards0: Seq<Card>, s0: u64, idx: int, k: int)
    requires
        0 <= k,
        0 <= idx,
        idx + k < spec_deal(cards0, s0, idx, k).0.len(),
    ensures
        ({
            let prev = spec_deal(cards0, s0, idx, k);
            let i = idx + k;
            let s1 = next_state(prev.1);
            let bound = (prev.0.len() - i) as u64;
            let j = i + (mix(s1) % bound) as int;
            spec_deal(cards0, s0, idx, k + 1) == (
                prev.0.update(i, prev.0[j]).update(j, prev.0[i]),
                s1,
            )
        }),
{
}

impl Deck {
    /// The deck invariant: the cursor stays inside the card list and every
    /// card is well formed.
    pub open spec fn wf(&self) -> bool {
        self.idx <= self.cards@.len() && all_wf(self.cards@)
    }

    /// Build the deck of the 52 cards minus `excluded`, in numbering order,
    /// with the generator seeded; the cursor starts at 0 and nothing is
    /// shuffled until dealing draws cards.
    pub fn new(excluded: &Vec<Card>, seed: u64) -> (d: Deck)
        ensures
            d.cards@ == spec_subset(excluded@),
            d.idx == 0,
            d.rng.state == seed,
            d.wf(),
            d.cards@.len() <= 52,
            excluded@.no_duplicates() && all_wf(excluded@) ==> d.cards@.len() == 52 - excluded@.len(),
    {
        let mut cards: Vec<Card> = Vec::new();
        let mut i: usize = 0;
        while i < 52
            invariant
                i <= 52,
                cards@ == spec_subset_upto(excluded@, i as int),
                cards@.len() <= i,
                all_wf(cards@),
            decreases 52 - i,
        {
            let rk: u8 = (2 + (i % 13)) as u8;
            let su: u8 = (i / 13) as u8;
            let c = Card { rank: rk, suit: su };
            assert(c == card_at(i as int));
            if !contains_card(excluded, c) {
                cards.push(c);
            }
            i += 1;
        }
        proof {
            if excluded@.no_duplicates() && all_wf(excluded@) {
                lemma_subset_len(excluded@);
            }
        }
        Deck { cards, idx: 0, rng: Prng::new(seed) }
    }

    /// Deal the next `n` cards: lazily shuffle the next `n` positions and
    /// hand their cards out, advancing the cursor past them. Positions
    /// before the old cursor stay untouched.
    #[verifier::rlimit(60)]
    pub fn deal(&mut self, n: usize) -> (dealt: Vec<Card>)
        requires
            old(self).wf(),
            old(self).idx + n <= old(self).cards@.len(),
        ensures
            final (self).wf(),
            final (self).idx == old(self).idx + n,
            final (self).cards@.len() == old(self).cards@.len(),
            (final (self).cards@, final (self).rng.state) == spec_deal(
                old(self).cards@,
                old(self).rng.state,
                old(self).idx as int,
                n as int,
            ),
            dealt@ == final (self).cards@.subrange(
                old(self).idx as int,
                old(self).idx + n as int,
            ),
            final (self).cards@.subrange(0, old(self).idx as int) == old(self).cards@.subrange(
                0,
                old(self).idx as int,
            ),
    {
        let mut k: usize = 0;
        while k < n
            invariant
                k <= n,
                self.idx == old(self).idx,
                old(self).wf(),
                self.idx + n <= self.cards@.len(),
                self.cards@.len() == old(self).cards@.len(),
                all_wf(self.cards@),
                (self.cards@, self.rng.state) == spec_deal(
                    old(self).cards@,
                    old(self).rng.state,
                    old(self).idx as int,
                    k as int,
                ),
                self.cards@.subrange(0, old(self).idx as int) == old(self).cards@.subrange(
                    0,
                    old(self).idx as int,
                ),
            decreases n - k,
        {
            let ghost pre_cards = self.cards@;
            let ghost pre_state = self.rng.state;
            let total = self.cards.len();
            assert(self.idx + n <= total);
            let i = self.idx + k;
            let bound = (total - i) as u64;
            let r = self.rng.next_below(bound);
            let j = i + (r as usize);
            let ci = self.cards[i];
            let cj = self.cards[j];
            self.cards.set(i, cj);
            self.cards.set(j, ci);
            proof {
                lemma_deal_step(
                    old(self).cards@,
                    old(self).rng.state,
                    old(self).idx as int,
                    k as int,
                );
                assert(self.cards@ == pre_cards.update(i as int, pre_cards[j as int]).update(
                    j as int,
                    pre_cards[i as int],
                ));
                assert((self.cards@, self.rng.state) == spec_deal(
                    old(self).cards@,
                    old(self).rng.state,
                    old(self).idx as int,
                    (k + 1) as int,
                ));
                assert(self.cards@.subrange(0, old(self).idx as int) =~= old(
                    self,
                ).cards@.subrange(0, old(self).idx as int));
            }
            k += 1;
        }
        let ghost done_cards = self.cards@;
        let ghost done_state = self.rng.state;
        let mut dealt: Vec<Card> = Vec::new();
        let mut t: usize = 0;
        while t < n
            invariant
                t <= n,
                self.idx == old(self).idx,
                self.idx + n <= self.cards@.len(),
                self.cards@ == done_cards,
                self.rng.state == done_state,
                dealt@ == self.cards@.subrange(self.idx as int, self.idx + t as int),
            decreases n - t,
        {
            let total = self.cards.len();
            assert(self.idx + t < total);
            dealt.push(self.cards[self.idx + t]);
            proof {
                assert(self.cards@.subrange(self.idx as int, self.idx + t + 1 as int)
                    =~= self.cards@.subrange(self.idx as int, self.idx + t as int).push(
                    self.cards@[self.idx + t as int],
                ));
            }
            t += 1;
        }
        let total = self.cards.len();
        assert(self.idx + n <= total);
        self.idx = self.idx + n;
        dealt
    }

    /// Rewind the cursor to the front; past draws are kept, nothing is
    /// re-shuffled, and the generator state is untouched.
    pub fn reset(&mut self)
        ensures
            final (self).idx == 0,
            final (self).cards@ == old(self).cards@,
            final (self).rng.state == old(self).rng.state,
    {
        self.idx = 0;
    }

    /// The number of undealt cards, from the cursor to the end.
    pub fn len(&self) -> (n: usize)
        requires
            self.wf(),
        ensures
            n == self.cards@.len() - self.idx,
    {
        self.cards.len() - self.idx
    }

    pub fn is_empty(&self) -> (b: bool)
        requires
            self.wf(),
        ensures
            b == (self.cards@.len() == self.idx),
    {
        self.len() == 0
    }
}

} // verus!
