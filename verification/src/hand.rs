//! The hand model: an unordered, duplicate-free collection of up to seven
//! cards, notation parsing, and the set-style insertion used when hole cards
//! and board are combined.

use vstd::prelude::*;

use crate::card::{all_wf, is_ws, rank_of_char, suit_of_char, Card};

verus! {

/// The errors of notation parsing and of the equity simulator.
#[derive(Clone, Copy, PartialEq, Eq, Structural, Debug)]
pub enum PokerError {
    /// A token does not name a rank and a suit, or a trailing character is
    /// left over.
    ParseError,
    /// A parsed hand exceeds the maximum card count of its role.
    TooManyCards,
    /// The same card appears twice within one hand or across the hands of a
    /// calculation.
    DuplicateCard,
    /// Fewer undealt cards remain than a run-out would draw.
    InsufficientDeck,
}

/// An unordered, duplicate-free collection of 0 to 7 cards.
pub struct Hand {
    pub cards: Vec<Card>,
}

impl Hand {
    /// The hand invariant: at most seven cards, no two alike, all well formed.
    pub open spec fn wf(&self) -> bool {
        self.cards@.len() <= 7 && self.cards@.no_duplicates() && all_wf(self.cards@)
    }

    pub fn empty() -> (h: Hand)
        ensures
            h.wf(),
            h.cards@ == Seq::<Card>::empty(),
    {
        Hand { cards: Vec::new() }
    }

    pub fn len(&self) -> (n: usize)
        ensures
            n == self.cards@.len(),
    {
        self.cards.len()
    }

    /// Whether a given card is already present in the hand.
    pub fn contains(&self, c: Card) -> (b: bool)
        ensures
            b == self.cards@.contains(c),
    {
        contains_card(&self.cards, c)
    }
}

/// Linear scan for a card in a vector.
pub fn contains_card(v: &Vec<Card>, c: Card) -> (b: bool)
    ensures
        b == v@.contains(c),
{
    let mut k: usize = 0;
    while k < v.len()
        invariant
            k <= v@.len(),
            forall|j: int| 0 <= j < k ==> v@[j] != c,
        decreases v@.len() - k,
    {
        if v[k] == c {
            assert(v@.contains(c));
            return true;
        }
        k += 1;
    }
    assert(!v@.contains(c));
    false
}

/// Copy a card vector.
pub fn clone_cards(v: &Vec<Card>) -> (r: Vec<Card>)
    ensures
        r@ == v@,
{
    let mut r: Vec<Card> = Vec::new();
    let mut k: usize = 0;
    while k < v.len()
        invariant
            k <= v@.len(),
            r@ == v@.take(k as int),
        decreases v@.len() - k,
    {
        r.push(v[k]);
        proof {
            assert(v@.take(k + 1 as int) =~= v@.take(k as int).push(v@[k as int]));
        }
        k += 1;
    }
    proof {
        assert(v@.take(v@.len() as int) =~= v@);
    }
    r
}

/// Set-style insertion: a card already present leaves the sequence unchanged.
pub open spec fn spec_insert(s: Seq<Card>, c: Card) -> Seq<Card> {
    if s.contains(c) {
        s
    } else {
        s.push(c)
    }
}

/// Set-style insertion of every card of `t`, in order.
pub open spec fn spec_insert_all(s: Seq<Card>, t: Seq<Card>) -> Seq<Card>
    decreases t.len(),
{
    if t.len() == 0 {
        s
    } else {
        spec_insert(spec_insert_all(s, t.drop_last()), t.last())
    }
}

pub fn set_insert(v: &mut Vec<Card>, c: Card)
    ensures
        final(v)@ == spec_insert(old(v)@, c),
{
    if !contains_card(v, c) {
        v.push(c);
    }
}

pub fn set_insert_all(v: &mut Vec<Card>, src: &Vec<Card>)
    ensures
        final(v)@ == spec_insert_all(old(v)@, src@),
{
    let mut k: usize = 0;
    while k < src.len()
        invariant
            k <= src@.len(),
            v@ == spec_insert_all(old(v)@, src@.take(k as int)),
        decreases src@.len() - k,
    {
        proof {
            assert(src@.take(k + 1 as int).drop_last() =~= src@.take(k as int));
            assert(src@.take(k + 1 as int).last() == src@[k as int]);
        }
        set_insert(v, src[k]);
        k += 1;
    }
    proof {
        assert(src@.take(src@.len() as int) =~= src@);
    }
}


/// Membership survives set-style insertion.
pub proof fn lemma_insert_all_keeps(s: Seq<Card>, t: Seq<Card>, c: Card)
    requires
        s.contains(c),
    ensures
        spec_insert_all(s, t).contains(c),
    decreases t.len(),
{
    if t.len() > 0 {
        lemma_insert_all_keeps(s, t.drop_last(), c);
        let prev = spec_insert_all(s, t.drop_last());
        let ix = choose|ix: int| 0 <= ix < prev.len() && prev[ix] == c;
        if !prev.contains(t.last()) {
            assert(prev.push(t.last())[ix] == c);
        }
    }
}

/// The parse of notation text from position `i` on, given the cards read so
/// far: two-character rank-suit tokens, whitespace between tokens skipped,
/// duplicates rejected, and at most `max` cards accepted in all.
pub open spec fn spec_parse_at(s: Seq<char>, i: int, acc: Seq<Card>, max: int) -> Result<
    Seq<Card>,
    PokerError,
>
    decreases s.len() - i,
{
    if i >= s.len() {
        if acc.len() > max {
            Err(PokerError::TooManyCards)
        } else {
            Ok(acc)
        }
    } else if is_ws(s[i]) {
        spec_parse_at(s, i + 1, acc, max)
    } else if i + 1 >= s.len() {
        Err(PokerError::ParseError)
    } else {
        let r = rank_of_char(s[i]);
        let su = suit_of_char(s[i + 1]);
        if r == 0 || su == 4 {
            Err(PokerError::ParseError)
        } else {
            let c = Card { rank: r, suit: su };
            if acc.contains(c) {
                Err(PokerError::DuplicateCard)
            } else {
                spec_parse_at(s, i + 2, acc.push(c), max)
            }
        }
    }
}

/// The parse of a whole notation string.
pub open spec fn spec_parse_hand(s: Seq<char>, max: int) -> Result<Seq<Card>, PokerError> {
    spec_parse_at(s, 0, Seq::empty(), max)
}

/// Parse poker notation into a hand of at most `max` cards.
///
/// Succeeds exactly when the text is a whitespace-separated or concatenated
/// run of valid two-character card tokens, no card repeats, and at most
/// `max` cards are written; the error otherwise is the one `spec_parse_hand`
/// names.
pub fn parse_hand(text: &str, max: usize) -> (res: Result<Hand, PokerError>)
    requires
        max <= 7,
    ensures
        match res {
            Ok(h) => spec_parse_hand(text@, max as int) == Ok::<Seq<Card>, PokerError>(h.cards@)
                && h.wf() && h.cards@.len() <= max,
            Err(e) => spec_parse_hand(text@, max as int) == Err::<Seq<Card>, PokerError>(e),
        },
{
    let n = text.unicode_len();
    let mut i: usize = 0;
    let mut acc: Vec<Card> = Vec::new();
    while i < n
        invariant
            n == text@.len(),
            i <= n,
            max <= 7,
            spec_parse_hand(text@, max as int) == spec_parse_at(
                text@,
                i as int,
                acc@,
                max as int,
            ),
            acc@.no_duplicates(),
            all_wf(acc@),
        decreases n - i,
    {
        let c0 = text.get_char(i);
        if ws_step(c0) {
            i += 1;
        } else if i + 1 >= n {
            return Err(PokerError::ParseError);
        } else {
            let c1 = text.get_char(i + 1);
            let r = crate::card::rank_char_value(c0);
            let su = crate::card::suit_char_value(c1);
            if r == 0 || su == 4 {
                return Err(PokerError::ParseError);
            }
            let card = Card { rank: r, suit: su };
            if contains_card(&acc, card) {
                return Err(PokerError::DuplicateCard);
            }
            proof {
                lemma_push_no_duplicates(acc@, card);
            }
            acc.push(card);
            i += 2;
        }
    }
    if acc.len() > max {
        return Err(PokerError::TooManyCards);
    }
    Ok(Hand { cards: acc })
}

fn ws_step(c: char) -> (b: bool)
    ensures
        b == is_ws(c),
{
    crate::card::ws_char(c)
}

/// Pushing a fresh element keeps a sequence duplicate-free.
pub proof fn lemma_push_no_duplicates(s: Seq<Card>, c: Card)
    requires
        s.no_duplicates(),
        !s.contains(c),
    ensures
        s.push(c).no_duplicates(),
{
    let t = s.push(c);
    assert forall|p: int, q: int|
        0 <= p < t.len() && 0 <= q < t.len() && p != q implies t[p] != t[q] by {
        if q == s.len() {
            assert(t[p] == s[p]);
            if t[p] == c {
                assert(s.contains(s[p]));
            }
        } else if p == s.len() {
            assert(t[q] == s[q]);
            if t[q] == c {
                assert(s.contains(s[q]));
            }
        }
    }
}

} // verus!
