//! The card model: a rank-and-suit value type, its notation characters,
//! and the numbering of the 52-card deck.

use vstd::prelude::*;

verus! {

/// A playing card: a rank (2..=14, ace high as 14) and a suit
/// (0 = clubs, 1 = diamonds, 2 = hearts, 3 = spades).
#[derive(Clone, Copy, PartialEq, Eq, Structural, Debug)]
pub struct Card {
    pub rank: u8,
    pub suit: u8,
}

/// A well-formed card stays inside the 52-card universe.
pub open spec fn card_wf(c: Card) -> bool {
    2 <= c.rank <= 14 && c.suit <= 3
}

/// Every card of the sequence is well formed.
pub open spec fn all_wf(s: Seq<Card>) -> bool {
    forall|i: int| 0 <= i < s.len() ==> card_wf(#[trigger] s[i])
}

/// The rank written by a notation character; 0 marks an invalid character.
pub open spec fn rank_of_char(c: char) -> u8 {
    if c == '2' {
        2
    } else if c == '3' {
        3
    } else if c == '4' {
        4
    } else if c == '5' {
        5
    } else if c == '6' {
        6
    } else if c == '7' {
        7
    } else if c == '8' {
        8
    } else if c == '9' {
        9
    } else if c == 'T' {
        10
    } else if c == 'J' {
        11
    } else if c == 'Q' {
        12
    } else if c == 'K' {
        13
    } else if c == 'A' {
        14
    } else {
        0
    }
}

/// The suit written by a notation character; 4 marks an invalid character.
pub open spec fn suit_of_char(c: char) -> u8 {
    if c == 'c' {
        0
    } else if c == 'd' {
        1
    } else if c == 'h' {
        2
    } else if c == 's' {
        3
    } else {
        4
    }
}

/// The notation character of a rank; '?' for a value outside 2..=14.
pub open spec fn char_of_rank(r: u8) -> char {
    if r == 2 {
        '2'
    } else if r == 3 {
        '3'
    } else if r == 4 {
        '4'
    } else if r == 5 {
        '5'
    } else if r == 6 {
        '6'
    } else if r == 7 {
        '7'
    } else if r == 8 {
        '8'
    } else if r == 9 {
        '9'
    } else if r == 10 {
        'T'
    } else if r == 11 {
        'J'
    } else if r == 12 {
        'Q'
    } else if r == 13 {
        'K'
    } else if r == 14 {
        'A'
    } else {
        '?'
    }
}

/// The notation character of a suit; '?' for a value outside 0..=3.
pub open spec fn char_of_suit(su: u8) -> char {
    if su == 0 {
        'c'
    } else if su == 1 {
        'd'
    } else if su == 2 {
        'h'
    } else if su == 3 {
        's'
    } else {
        '?'
    }
}

/// Whitespace accepted between notation tokens.
pub open spec fn is_ws(c: char) -> bool {
    c == ' ' || c == '\t' || c == '\n' || c == '\r'
}

/// The position of a well-formed card in the fixed deck numbering.
pub open spec fn card_index(c: Card) -> int {
    c.suit * 13 + c.rank - 2
}

/// The card at a position of the fixed deck numbering.
pub open spec fn card_at(i: int) -> Card {
    Card { rank: (2 + i % 13) as u8, suit: (i / 13) as u8 }
}

pub fn rank_char_value(c: char) -> (r: u8)
    ensures
        r == rank_of_char(c),
{
    if c == '2' {
        2
    } else if c == '3' {
        3
    } else if c == '4' {
        4
    } else if c == '5' {
        5
    } else if c == '6' {
        6
    } else if c == '7' {
        7
    } else if c == '8' {
        8
    } else if c == '9' {
        9
    } else if c == 'T' {
        10
    } else if c == 'J' {
        11
    } else if c == 'Q' {
        12
    } else if c == 'K' {
        13
    } else if c == 'A' {
        14
    } else {
        0
    }
}

pub fn suit_char_value(c: char) -> (r: u8)
    ensures
        r == suit_of_char(c),
{
    if c == 'c' {
        0
    } else if c == 'd' {
        1
    } else if c == 'h' {
        2
    } else if c == 's' {
        3
    } else {
        4
    }
}

pub fn rank_char(r: u8) -> (c: char)
    ensures
        c == char_of_rank(r),
{
    if r == 2 {
        '2'
    } else if r == 3 {
        '3'
    } else if r == 4 {
        '4'
    } else if r == 5 {
        '5'
    } else if r == 6 {
        '6'
    } else if r == 7 {
        '7'
    } else if r == 8 {
        '8'
    } else if r == 9 {
        '9'
    } else if r == 10 {
        'T'
    } else if r == 11 {
        'J'
    } else if r == 12 {
        'Q'
    } else if r == 13 {
        'K'
    } else if r == 14 {
        'A'
    } else {
        '?'
    }
}

pub fn suit_char(su: u8) -> (c: char)
    ensures
        c == char_of_suit(su),
{
    if su == 0 {
        'c'
    } else if su == 1 {
        'd'
    } else if su == 2 {
        'h'
    } else if su == 3 {
        's'
    } else {
        '?'
    }
}

pub fn ws_char(c: char) -> (b: bool)
    ensures
        b == is_ws(c),
{
    c == ' ' || c == '\t' || c == '\n' || c == '\r'
}

/// A well-formed card sits at the position that numbers it.
pub proof fn lemma_card_index_inverse(c: Card)
    requires
        card_wf(c),
    ensures
        0 <= card_index(c) < 52,
        card_at(card_index(c)) == c,
{
    let i = card_index(c);
    assert((c.suit * 13 + (c.rank - 2)) % 13 == c.rank - 2) by (nonlinear_arith)
        requires
            2 <= c.rank <= 14,
            c.suit <= 3,
    ;
    assert((c.suit * 13 + (c.rank - 2)) / 13 == c.suit as int) by (nonlinear_arith)
        requires
            2 <= c.rank <= 14,
            c.suit <= 3,
    ;
}

} // verus!
