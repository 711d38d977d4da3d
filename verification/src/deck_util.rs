//! The standalone deck utility: a shuffled 52-card deck dealt one card at a
//! time as notation strings, with rewinding and a remaining-card count.

use vstd::prelude::*;

use crate::card::{char_of_rank, char_of_suit, rank_char, suit_char, Card};
use crate::deck::{spec_deal, spec_subset, Deck};

verus! {

/// Relies on String::push: appends the given char to the end of the string.
pub assume_specification[ String::push ](s: &mut String, ch: char)
    ensures
        final (s)@ == old(s)@.push(ch),
;

/// The two-character notation of a card.
pub open spec fn spec_card_notation(c: Card) -> Seq<char> {
    Seq::empty().push(char_of_rank(c.rank)).push(char_of_suit(c.suit))
}

/// Render one card as its notation token.
pub fn card_notation(c: Card) -> (s: String)
    ensures
        s@ == spec_card_notation(c),
{
    let mut s = String::new();
    s.push(rank_char(c.rank));
    s.push(suit_char(c.suit));
    s
}

/// A full 52-card deck dealt card by card in notation form.
pub struct PhpDeck {
    pub deck: Deck,
}

impl PhpDeck {
    /// A deck shuffled under a fresh machine seed.
    pub fn new() -> (d: PhpDeck)
        ensures
            d.deck.cards@ == spec_subset(Seq::<Card>::empty()),
            d.deck.cards@.len() == 52,
            d.deck.idx == 0,
            d.deck.wf(),
    {
        PhpDeck::from_seed(crate::sim::entropy_seed())
    }

    /// A deck shuffled under the given seed.
    pub fn from_seed(seed: u64) -> (d: PhpDeck)
        ensures
            d.deck.cards@ == spec_subset(Seq::<Card>::empty()),
            d.deck.cards@.len() == 52,
            d.deck.idx == 0,
            d.deck.rng.state == seed,
            d.deck.wf(),
    {
        let none: Vec<Card> = Vec::new();
        let deck = Deck::new(&none, seed);
        proof {
            crate::deck::lemma_subset_len(none@);
        }
        PhpDeck { deck }
    }

    /// Deal the next card as its notation token; `None` once the deck is
    /// exhausted, which leaves the deck unchanged.
    pub fn deal(&mut self) -> (r: Option<String>)
        requires
            old(self).deck.wf(),
        ensures
            final (self).deck.wf(),
            final (self).deck.cards@.len() == old(self).deck.cards@.len(),
            old(self).deck.idx == old(self).deck.cards@.len() ==> r is None && final (self).deck.cards@
                == old(self).deck.cards@ && final (self).deck.idx == old(self).deck.idx
                && final (self).deck.rng.state == old(self).deck.rng.state,
            old(self).deck.idx < old(self).deck.cards@.len() ==> {
                let d = spec_deal(
                    old(self).deck.cards@,
                    old(self).deck.rng.state,
                    old(self).deck.idx as int,
                    1,
                );
                &&& final (self).deck.cards@ == d.0
                &&& final (self).deck.rng.state == d.1
                &&& final (self).deck.idx == old(self).deck.idx + 1
                &&& r is Some
                &&& (r->Some_0)@ == spec_card_notation(d.0[old(self).deck.idx as int])
            },
    {
        if self.deck.is_empty() {
            return None;
        }
        let cards = self.deck.deal(1);
        let c = cards[0];
        Some(card_notation(c))
    }

    /// Rewind to the front of the deck without re-shuffling.
    pub fn reset(&mut self)
        ensures
            final (self).deck.idx == 0,
            final (self).deck.cards@ == old(self).deck.cards@,
            final (self).deck.rng.state == old(self).deck.rng.state,
    {
        self.deck.reset();
    }

    /// The number of cards still to deal.
    pub fn count(&self) -> (n: usize)
        requires
            self.deck.wf(),
        ensures
            n == self.deck.cards@.len() - self.deck.idx,
    {
        self.deck.len()
    }
}

} // verus!
