//! The Monte Carlo equity simulator: parse the player, opponents and board,
//! build one deck excluding every known card, and repeatedly run the board
//! and hole cards out, scoring the player's pot share against the best
//! opponent hand. The whole run is an exact function of the parsed inputs
//! and the seed.

use vstd::prelude::*;

use crate::card::Card;
use crate::deck::{spec_deal, spec_subset, Deck};
use crate::eval::{rank, rank_cards, spec_rank};
use crate::hand::{
    clone_cards, contains_card, parse_hand, set_insert_all, spec_insert_all, spec_parse_hand, Hand,
    PokerError,
};

verus! {

/// The outcome of one equity calculation: the player's accumulated pot share
/// in half-pot units (a win scores 2, a chop 1, a loss 0), and the number of
/// samples run. The equity is `half_pots / (2 * samples)`.
#[derive(Clone, Copy, PartialEq, Eq, Structural, Debug)]
pub struct EquityResult {
    pub half_pots: u64,
    pub samples: usize,
}

/// The equity calculator configuration: sample count and seed; seed 0 asks
/// for a fresh machine seed at each call.
#[derive(Clone, Copy, PartialEq, Eq, Structural, Debug)]
pub struct EquityCalculator {
    pub samples: usize,
    pub seed: u64,
}

/// The parses of the opponent notations, each bounded by two cards, from
/// position `i` on.
pub open spec fn spec_parse_opps_at(os: Seq<Seq<char>>, i: int, acc: Seq<Seq<Card>>) -> Result<
    Seq<Seq<Card>>,
    PokerError,
>
    decreases os.len() - i,
{
    if i < 0 || i >= os.len() {
        Ok(acc)
    } else {
        match spec_parse_hand(os[i], 2) {
            Err(e) => Err(e),
            Ok(h) => spec_parse_opps_at(os, i + 1, acc.push(h)),
        }
    }
}

pub open spec fn spec_parse_opps(os: Seq<Seq<char>>) -> Result<Seq<Seq<Card>>, PokerError> {
    spec_parse_opps_at(os, 0, Seq::empty())
}

/// Add the cards of one hand to the collection of known cards, rejecting a
/// card seen before.
pub open spec fn spec_add_cards_at(h: Seq<Card>, j: int, acc: Seq<Card>) -> Result<
    Seq<Card>,
    PokerError,
>
    decreases h.len() - j,
{
    if j < 0 || j >= h.len() {
        Ok(acc)
    } else if acc.contains(h[j]) {
        Err(PokerError::DuplicateCard)
    } else {
        spec_add_cards_at(h, j + 1, acc.push(h[j]))
    }
}

pub open spec fn spec_add_opps_at(opps: Seq<Seq<Card>>, i: int, acc: Seq<Card>) -> Result<
    Seq<Card>,
    PokerError,
>
    decreases opps.len() - i,
{
    if i < 0 || i >= opps.len() {
        Ok(acc)
    } else {
        match spec_add_cards_at(opps[i], 0, acc) {
            Err(e) => Err(e),
            Ok(a) => spec_add_opps_at(opps, i + 1, a),
        }
    }
}

/// All known cards of a calculation, player first, then the opponents in
/// order, then the board; a card occurring twice anywhere is rejected.
pub open spec fn spec_known(p: Seq<Card>, opps: Seq<Seq<Card>>, b: Seq<Card>) -> Result<
    Seq<Card>,
    PokerError,
> {
    match spec_add_cards_at(p, 0, Seq::empty()) {
        Err(e) => Err(e),
        Ok(a1) => match spec_add_opps_at(opps, 0, a1) {
            Err(e) => Err(e),
            Ok(a2) => spec_add_cards_at(b, 0, a2),
        },
    }
}

/// How many hole cards the opponents from position `i` on still miss.
pub open spec fn missing_from(opps: Seq<Seq<Card>>, i: int) -> int
    decreases opps.len() - i,
{
    if i < 0 || i >= opps.len() {
        0
    } else {
        (2 - opps[i].len()) + missing_from(opps, i + 1)
    }
}

pub proof fn lemma_missing_nonneg(opps: Seq<Seq<Card>>, i: int)
    requires
        forall|j: int| 0 <= j < opps.len() ==> (#[trigger] opps[j]).len() <= 2,
    ensures
        missing_from(opps, i) >= 0,
    decreases opps.len() - i,
{
    if 0 <= i < opps.len() {
        lemma_missing_nonneg(opps, i + 1);
    }
}

/// The deck and score state while the opponents of one sample draw and are
/// evaluated in turn.
pub ghost struct OppsOut {
    pub cards: Seq<Card>,
    pub state: u64,
    pub idx: int,
    pub best: int,
}

/// Deal each remaining opponent's missing hole cards, complete the hand with
/// the board, and keep the best opponent strength seen.
pub open spec fn spec_opps_at(
    opps: Seq<Seq<Card>>,
    board5: Seq<Card>,
    i: int,
    cards: Seq<Card>,
    st: u64,
    idx: int,
    best: int,
) -> OppsOut
    decreases opps.len() - i,
{
    if i < 0 || i >= opps.len() {
        OppsOut { cards, state: st, idx, best }
    } else {
        let m = 2 - opps[i].len();
        let d = spec_deal(cards, st, idx, m);
        let full = spec_insert_all(spec_insert_all(opps[i], d.0.subrange(idx, idx + m)), board5);
        let rk = spec_rank(full);
        let nb = if rk > best {
            rk
        } else {
            best
        };
        spec_opps_at(opps, board5, i + 1, d.0, d.1, idx + m, nb)
    }
}

/// One run-out: complete the board to five cards, complete the player's hole
/// cards to two, evaluate everyone against the completed board, and score
/// the player's half-pots: 2 for a strictly best hand, 1 for a tie with the
/// best opponent, 0 otherwise.
pub open spec fn spec_sample(
    cards: Seq<Card>,
    st: u64,
    player: Seq<Card>,
    opps: Seq<Seq<Card>>,
    board: Seq<Card>,
) -> (Seq<Card>, u64, int) {
    let mb = 5 - board.len();
    let d1 = spec_deal(cards, st, 0, mb);
    let b5 = spec_insert_all(board, d1.0.subrange(0, mb));
    let mp = 2 - player.len();
    let d2 = spec_deal(d1.0, d1.1, mb, mp);
    let pfull = spec_insert_all(spec_insert_all(player, d2.0.subrange(mb, mb + mp)), b5);
    let prk = spec_rank(pfull);
    let oo = spec_opps_at(opps, b5, 0, d2.0, d2.1, mb + mp, 0);
    let delta: int = if prk > oo.best {
        2
    } else if prk == oo.best {
        1
    } else {
        0
    };
    (oo.cards, oo.state, delta)
}

/// The deck state and accumulated half-pots after `k` samples, each sample
/// rewinding the cursor and drawing fresh pseudo-random run-outs.
pub ghost struct RunOut {
    pub cards: Seq<Card>,
    pub state: u64,
    pub half: int,
}

pub open spec fn spec_run(
    cards0: Seq<Card>,
    st0: u64,
    player: Seq<Card>,
    opps: Seq<Seq<Card>>,
    board: Seq<Card>,
    k: int,
) -> RunOut
    decreases k,
{
    if k <= 0 {
        RunOut { cards: cards0, state: st0, half: 0 }
    } else {
        let prev = spec_run(cards0, st0, player, opps, board, k - 1);
        let s = spec_sample(prev.cards, prev.state, player, opps, board);
        RunOut { cards: s.0, state: s.1, half: prev.half + s.2 }
    }
}

/// Equity stays a pot share: every sample scores 0, 1 or 2 half-pots, so `k`
/// samples accumulate between 0 and `2 k` of them.
pub proof fn lemma_run_bound(
    cards0: Seq<Card>,
    st0: u64,
    player: Seq<Card>,
    opps: Seq<Seq<Card>>,
    board: Seq<Card>,
    k: int,
)
    ensures
        0 <= spec_run(cards0, st0, player, opps, board, k).half <= 2 * (if k >= 0 {
            k
        } else {
            0
        }),
    decreases k,
{
    if k > 0 {
        lemma_run_bound(cards0, st0, player, opps, board, k - 1);
    }
}

/// The parsed inputs of one calculation.
pub ghost struct SimSetup {
    pub player: Seq<Card>,
    pub opps: Seq<Seq<Card>>,
    pub board: Seq<Card>,
    pub known: Seq<Card>,
}

/// How many cards one sample draws from the deck.
pub open spec fn spec_needed(st: SimSetup) -> int {
    (5 - st.board.len()) + (2 - st.player.len()) + missing_from(st.opps, 0)
}

/// The validation phase of a calculation: parse the player (two cards at
/// most), each opponent (two at most), and the board (five at most); reject
/// a card known twice; reject a deck too small for one run-out. Each error
/// is reported exactly when its condition holds, in this order.
pub open spec fn spec_setup(p: Seq<char>, os: Seq<Seq<char>>, b: Seq<char>) -> Result<
    SimSetup,
    PokerError,
> {
    match spec_parse_hand(p, 2) {
        Err(e) => Err(e),
        Ok(ph) => match spec_parse_opps(os) {
            Err(e) => Err(e),
            Ok(ohs) => match spec_parse_hand(b, 5) {
                Err(e) => Err(e),
                Ok(bh) => match spec_known(ph, ohs, bh) {
                    Err(e) => Err(e),
                    Ok(kn) => {
                        let st = SimSetup { player: ph, opps: ohs, board: bh, known: kn };
                        if spec_needed(st) > spec_subset(kn).len() {
                            Err(PokerError::InsufficientDeck)
                        } else {
                            Ok(st)
                        }
                    },
                },
            },
        },
    }
}

/// The half-pot total of a whole calculation under a resolved seed.
pub open spec fn spec_half_pots(st: SimSetup, seed: u64, samples: int) -> int {
    spec_run(spec_subset(st.known), seed, st.player, st.opps, st.board, samples).half
}

/// Some seed explains the half-pot total of a calculation.
pub open spec fn seeded_outcome(st: SimSetup, sd: u64, samples: int, half: int) -> bool {
    half == spec_half_pots(st, sd, samples)
}

/// The card sequences of a list of hands.
pub open spec fn hands_views(hs: Seq<Hand>) -> Seq<Seq<Card>> {
    hs.map_values(|h: Hand| h.cards@)
}

/// Relies on rand::rng (the thread-local generator) and rand_core's
/// Rng::next_u64 for one machine-entropy seed; nothing is assumed of the
/// value drawn.
#[verifier::external_body]
pub(crate) fn entropy_seed() -> u64 {
    rand::Rng::next_u64(&mut rand::rng())
}

/// Add the cards of one hand to the known cards, failing on one seen before.
fn add_known(known: &mut Vec<Card>, cards: &Vec<Card>) -> (ok: bool)
    ensures
        ok ==> spec_add_cards_at(cards@, 0, old(known)@) == Ok::<Seq<Card>, PokerError>(
            final (known)@,
        ),
        !ok ==> spec_add_cards_at(cards@, 0, old(known)@) == Err::<Seq<Card>, PokerError>(
            PokerError::DuplicateCard,
        ),
{
    let mut j: usize = 0;
    while j < cards.len()
        invariant
            j <= cards@.len(),
            spec_add_cards_at(cards@, 0, old(known)@) == spec_add_cards_at(
                cards@,
                j as int,
                known@,
            ),
        decreases cards@.len() - j,
    {
        let c = cards[j];
        if contains_card(known, c) {
            return false;
        }
        known.push(c);
        j += 1;
    }
    true
}

/// One Monte Carlo run-out on the deck: rewind the cursor, complete the
/// board and every hand, and score the player's half-pots against the best
/// opponent. The deck state advances exactly as `spec_sample` says.
#[verifier::loop_isolation(false)]
#[verifier::rlimit(100)]
fn run_sample(deck: &mut Deck, player_h: &Hand, opp_hs: &Vec<Hand>, board_h: &Hand) -> (delta:
    u64)
    requires
        old(deck).wf(),
        board_h.cards@.len() <= 5,
        player_h.cards@.len() <= 2,
        forall|j: int| 0 <= j < opp_hs@.len() ==> (#[trigger] opp_hs@[j].cards@).len() <= 2,
        (5 - board_h.cards@.len()) + (2 - player_h.cards@.len()) + missing_from(
            hands_views(opp_hs@),
            0,
        ) <= old(deck).cards@.len(),
    ensures
        final (deck).wf(),
        final (deck).cards@.len() == old(deck).cards@.len(),
        ({
            let s = spec_sample(
                old(deck).cards@,
                old(deck).rng.state,
                player_h.cards@,
                hands_views(opp_hs@),
                board_h.cards@,
            );
            &&& final (deck).cards@ == s.0
            &&& final (deck).rng.state == s.1
            &&& delta as int == s.2
            &&& delta <= 2
        }),
{
    let ghost pv = player_h.cards@;
    let ghost bv = board_h.cards@;
    let ghost ovs = hands_views(opp_hs@);
    let ghost c0 = deck.cards@;
    let ghost st0 = deck.rng.state;
    let ghost el = c0.len();
    assert forall|j: int| 0 <= j < ovs.len() implies (#[trigger] ovs[j]).len() <= 2 by {
        assert(ovs[j] == opp_hs@[j].cards@);
    }
    proof {
        lemma_missing_nonneg(ovs, 0);
    }
    let mb: usize = 5 - board_h.cards.len();
    let mp: usize = 2 - player_h.cards.len();
    deck.reset();
    let dealt_b = deck.deal(mb);
    let ghost d1 = spec_deal(c0, st0, 0, mb as int);
    proof {
        assert((deck.cards@, deck.rng.state) == d1);
        assert(dealt_b@ == d1.0.subrange(0, mb as int));
    }
    let mut b5 = clone_cards(&board_h.cards);
    set_insert_all(&mut b5, &dealt_b);
    let ghost b5v = b5@;
    proof {
        assert(b5v == spec_insert_all(bv, d1.0.subrange(0, mb as int)));
    }
    let dealt_p = deck.deal(mp);
    let ghost d2 = spec_deal(d1.0, d1.1, mb as int, mp as int);
    proof {
        assert((deck.cards@, deck.rng.state) == d2);
        assert(dealt_p@ == d2.0.subrange(mb as int, mb + mp as int));
    }
    let mut pfull = clone_cards(&player_h.cards);
    set_insert_all(&mut pfull, &dealt_p);
    set_insert_all(&mut pfull, &b5);
    let prk = rank_cards(&pfull);
    proof {
        assert(pfull@ == spec_insert_all(
            spec_insert_all(pv, d2.0.subrange(mb as int, mb + mp as int)),
            b5v,
        ));
    }
    let ghost c2 = deck.cards@;
    let ghost st2 = deck.rng.state;
    let mut best: u32 = 0;
    let mut oj: usize = 0;
    while oj < opp_hs.len()
        invariant
            oj <= opp_hs@.len(),
            deck.wf(),
            deck.cards@.len() == el,
            deck.idx as int == mb + mp + missing_from(ovs, 0) - missing_from(ovs, oj as int),
            spec_opps_at(ovs, b5v, 0, c2, st2, (mb + mp) as int, 0) == spec_opps_at(
                ovs,
                b5v,
                oj as int,
                deck.cards@,
                deck.rng.state,
                deck.idx as int,
                best as int,
            ),
        decreases opp_hs@.len() - oj,
    {
        assert(ovs[oj as int] == opp_hs@[oj as int].cards@);
        proof {
            lemma_missing_nonneg(ovs, oj + 1);
            assert(missing_from(ovs, oj as int) == (2 - ovs[oj as int].len()) + missing_from(
                ovs,
                (oj + 1) as int,
            ));
        }
        let ghost pc = deck.cards@;
        let ghost pst = deck.rng.state;
        let ghost pidx = deck.idx as int;
        let ghost pbest = best as int;
        let oc_len = opp_hs[oj].cards.len();
        let mo = 2 - oc_len;
        let dealt_o = deck.deal(mo);
        let ghost dg = spec_deal(pc, pst, pidx, mo as int);
        proof {
            assert((deck.cards@, deck.rng.state) == dg);
            assert(dealt_o@ == dg.0.subrange(pidx, pidx + mo as int));
        }
        let mut ofull = clone_cards(&opp_hs[oj].cards);
        set_insert_all(&mut ofull, &dealt_o);
        set_insert_all(&mut ofull, &b5);
        let ork = rank_cards(&ofull);
        if ork > best {
            best = ork;
        }
        proof {
            assert(ofull@ == spec_insert_all(
                spec_insert_all(ovs[oj as int], dg.0.subrange(pidx, pidx + mo as int)),
                b5v,
            ));
            assert(spec_opps_at(ovs, b5v, oj as int, pc, pst, pidx, pbest) == spec_opps_at(
                ovs,
                b5v,
                (oj + 1) as int,
                deck.cards@,
                deck.rng.state,
                deck.idx as int,
                best as int,
            ));
        }
        oj += 1;
    }
    let delta: u64 = if prk > best {
        2
    } else if prk == best {
        1
    } else {
        0
    };
    proof {
        let oo = spec_opps_at(ovs, b5v, 0, c2, st2, (mb + mp) as int, 0);
        assert(oo == spec_opps_at(
            ovs,
            b5v,
            opp_hs@.len() as int,
            deck.cards@,
            deck.rng.state,
            deck.idx as int,
            best as int,
        ));
        assert(oo.cards == deck.cards@ && oo.state == deck.rng.state && oo.best == best as int);
        assert(spec_sample(c0, st0, pv, ovs, bv) == (deck.cards@, deck.rng.state, delta as int));
    }
    delta
}

/// Complementary equity, one run-out: with both hole hands fully known, the
/// deck draws only the board completion, identically in either role order,
/// and the two pot shares of the run-out add to one whole pot.
pub proof fn lemma_sample_complementary(
    cards: Seq<Card>,
    st: u64,
    a: Seq<Card>,
    b: Seq<Card>,
    board: Seq<Card>,
)
    requires
        a.len() == 2,
        b.len() == 2,
        crate::card::all_wf(a),
        crate::card::all_wf(b),
        board.len() <= 5,
        5 - board.len() <= cards.len(),
        cards.len() <= 0xffffffffffffffff,
    ensures
        ({
            let sa = spec_sample(cards, st, a, seq![b], board);
            let sb = spec_sample(cards, st, b, seq![a], board);
            &&& sa.0 == sb.0
            &&& sa.1 == sb.1
            &&& sa.2 + sb.2 == 2
            &&& sa.0.len() == cards.len()
        }),
{
    let mb = 5 - board.len();
    let d1 = spec_deal(cards, st, 0, mb);
    crate::deck::lemma_spec_deal_len(cards, st, 0, mb);
    let b5 = spec_insert_all(board, d1.0.subrange(0, mb));
    // neither side misses hole cards, so the later deals draw nothing
    assert(spec_deal(d1.0, d1.1, mb, 0) == (d1.0, d1.1));
    assert(d1.0.subrange(mb, mb) =~= Seq::<Card>::empty());
    let fa = spec_insert_all(spec_insert_all(a, d1.0.subrange(mb, mb)), b5);
    let fb = spec_insert_all(spec_insert_all(b, d1.0.subrange(mb, mb)), b5);
    assert(spec_insert_all(a, Seq::<Card>::empty()) == a);
    assert(spec_insert_all(b, Seq::<Card>::empty()) == b);
    let ra = spec_rank(fa);
    let rb = spec_rank(fb);
    // a fully known hand is never empty, so both strengths are positive
    assert(a.contains(a[0]));
    assert(b.contains(b[0]));
    crate::hand::lemma_insert_all_keeps(a, b5, a[0]);
    crate::hand::lemma_insert_all_keeps(b, b5, b[0]);
    let ka = choose|k: int| 0 <= k < fa.len() && fa[k] == a[0];
    let kb = choose|k: int| 0 <= k < fb.len() && fb[k] == b[0];
    crate::eval::lemma_rank_pos(fa, ka);
    crate::eval::lemma_rank_pos(fb, kb);
    // each run sees the other hand as its single opponent
    let oa = spec_opps_at(seq![b], b5, 0, d1.0, d1.1, mb, 0);
    let ob = spec_opps_at(seq![a], b5, 0, d1.0, d1.1, mb, 0);
    assert(seq![b][0] == b);
    assert(seq![a][0] == a);
    assert(seq![b].len() == 1);
    assert(seq![a].len() == 1);
    let nba = if rb > 0 {
        rb
    } else {
        0int
    };
    let nbb = if ra > 0 {
        ra
    } else {
        0int
    };
    assert(oa == spec_opps_at(seq![b], b5, 1, d1.0, d1.1, mb, nba));
    assert(ob == spec_opps_at(seq![a], b5, 1, d1.0, d1.1, mb, nbb));
    assert(spec_opps_at(seq![b], b5, 1, d1.0, d1.1, mb, nba) == OppsOut {
        cards: d1.0,
        state: d1.1,
        idx: mb,
        best: nba,
    });
    assert(spec_opps_at(seq![a], b5, 1, d1.0, d1.1, mb, nbb) == OppsOut {
        cards: d1.0,
        state: d1.1,
        idx: mb,
        best: nbb,
    });
}

/// Complementary equity over a whole run: with both hole hands fully known,
/// the half-pot totals of the two role orders add to one whole pot per
/// sample, under the same deck and seed.
pub proof fn lemma_complementary_equity(
    cards0: Seq<Card>,
    st0: u64,
    a: Seq<Card>,
    b: Seq<Card>,
    board: Seq<Card>,
    k: int,
)
    requires
        a.len() == 2,
        b.len() == 2,
        crate::card::all_wf(a),
        crate::card::all_wf(b),
        board.len() <= 5,
        5 - board.len() <= cards0.len(),
        cards0.len() <= 0xffffffffffffffff,
        k >= 0,
    ensures
        ({
            let ra = spec_run(cards0, st0, a, seq![b], board, k);
            let rb = spec_run(cards0, st0, b, seq![a], board, k);
            &&& ra.half + rb.half == 2 * k
            &&& ra.cards == rb.cards
            &&& ra.state == rb.state
            &&& ra.cards.len() == cards0.len()
        }),
    decreases k,
{
    if k > 0 {
        lemma_complementary_equity(cards0, st0, a, b, board, k - 1);
        let prev = spec_run(cards0, st0, a, seq![b], board, k - 1);
        lemma_sample_complementary(prev.cards, prev.state, a, b, board);
    }
}

/// Complementary equity at the calculation level: under one seed, with both
/// hole hands fully known and the roles swapped, the two half-pot totals add
/// to one whole pot per sample, whatever order the known cards were
/// collected in.
pub proof fn lemma_complementary_half_pots(sa: SimSetup, sb: SimSetup, seed: u64, samples: int)
    requires
        sa.player.len() == 2,
        sb.player.len() == 2,
        crate::card::all_wf(sa.player),
        crate::card::all_wf(sb.player),
        sa.opps == seq![sb.player],
        sb.opps == seq![sa.player],
        sa.board == sb.board,
        sa.board.len() <= 5,
        5 - sa.board.len() <= spec_subset(sa.known).len(),
        forall|c: Card| sa.known.contains(c) <==> #[trigger] sb.known.contains(c),
        samples >= 0,
    ensures
        spec_half_pots(sa, seed, samples) + spec_half_pots(sb, seed, samples) == 2 * samples,
{
    crate::deck::lemma_subset_membership(sa.known, sb.known);
    crate::deck::lemma_subset_le(sa.known);
    lemma_complementary_equity(
        spec_subset(sa.known),
        seed,
        sa.player,
        sb.player,
        sa.board,
        samples,
    );
}

/// The validated inputs of one calculation.
pub struct Prepared {
    pub player_h: Hand,
    pub opp_hs: Vec<Hand>,
    pub board_h: Hand,
    pub known: Vec<Card>,
    pub needed: usize,
}

/// Parse and validate the notations and collect the known cards; the error
/// cases are those of `spec_setup`, except that a deck check against fewer
/// than the 52 cards is left to the caller.
#[verifier::loop_isolation(false)]
#[verifier::rlimit(100)]
fn prepare(player: &str, opponents: &Vec<&str>, board: &str) -> (r: Result<Prepared, PokerError>)
    ensures
        match r {
            Ok(p) => {
                &&& spec_parse_hand(player@, 2) == Ok::<Seq<Card>, PokerError>(p.player_h.cards@)
                &&& spec_parse_opps(opponents.deep_view()) == Ok::<Seq<Seq<Card>>, PokerError>(
                    hands_views(p.opp_hs@),
                )
                &&& spec_parse_hand(board@, 5) == Ok::<Seq<Card>, PokerError>(p.board_h.cards@)
                &&& spec_known(p.player_h.cards@, hands_views(p.opp_hs@), p.board_h.cards@)
                    == Ok::<Seq<Card>, PokerError>(p.known@)
                &&& p.player_h.cards@.len() <= 2
                &&& p.board_h.cards@.len() <= 5
                &&& forall|j: int|
                    0 <= j < p.opp_hs@.len() ==> (#[trigger] p.opp_hs@[j].cards@).len() <= 2
                &&& p.needed as int == (5 - p.board_h.cards@.len()) + (2
                    - p.player_h.cards@.len()) + missing_from(hands_views(p.opp_hs@), 0)
                &&& p.needed <= 52
            },
            Err(e) => spec_setup(player@, opponents.deep_view(), board@) == Err::<
                SimSetup,
                PokerError,
            >(e),
        },
{
    let ghost os = opponents.deep_view();
    let player_h = match parse_hand(player, 2) {
        Ok(h) => h,
        Err(e) => {
            return Err(e);
        },
    };
    let ghost pv = player_h.cards@;
    let mut opp_hs: Vec<Hand> = Vec::new();
    proof {
        assert(hands_views(opp_hs@) =~= Seq::<Seq<Card>>::empty());
    }
    let mut oi: usize = 0;
    while oi < opponents.len()
        invariant
            oi <= opponents@.len(),
            opp_hs@.len() == oi,
            spec_parse_opps(os) == spec_parse_opps_at(os, oi as int, hands_views(opp_hs@)),
            forall|j: int| 0 <= j < oi ==> (#[trigger] opp_hs@[j].cards@).len() <= 2,
        decreases opponents@.len() - oi,
    {
        assert(os[oi as int] == opponents@[oi as int]@);
        let h = match parse_hand(opponents[oi], 2) {
            Ok(h) => h,
            Err(e) => {
                return Err(e);
            },
        };
        let ghost before = opp_hs@;
        opp_hs.push(h);
        proof {
            assert(hands_views(opp_hs@) =~= hands_views(before).push(h.cards@));
        }
        oi += 1;
    }
    let ghost ovs = hands_views(opp_hs@);
    assert(spec_parse_opps(os) == Ok::<Seq<Seq<Card>>, PokerError>(ovs));
    assert forall|j: int| 0 <= j < ovs.len() implies (#[trigger] ovs[j]).len() <= 2 by {
        assert(ovs[j] == opp_hs@[j].cards@);
    }
    let board_h = match parse_hand(board, 5) {
        Ok(h) => h,
        Err(e) => {
            return Err(e);
        },
    };
    let ghost bv = board_h.cards@;

    // collect the known cards, rejecting one seen twice anywhere
    let mut known: Vec<Card> = Vec::new();
    if !add_known(&mut known, &player_h.cards) {
        return Err(PokerError::DuplicateCard);
    }
    let ghost known_after_p = known@;
    let mut ki: usize = 0;
    while ki < opp_hs.len()
        invariant
            ki <= opp_hs@.len(),
            spec_add_opps_at(ovs, 0, known_after_p) == spec_add_opps_at(ovs, ki as int, known@),
        decreases opp_hs@.len() - ki,
    {
        assert(ovs[ki as int] == opp_hs@[ki as int].cards@);
        if !add_known(&mut known, &opp_hs[ki].cards) {
            return Err(PokerError::DuplicateCard);
        }
        ki += 1;
    }
    if !add_known(&mut known, &board_h.cards) {
        return Err(PokerError::DuplicateCard);
    }
    assert(spec_known(pv, ovs, bv) == Ok::<Seq<Card>, PokerError>(known@));
    let ghost kv = known@;

    // how many cards one run-out draws
    let mb: usize = 5 - board_h.cards.len();
    let mp: usize = 2 - player_h.cards.len();
    let mut needed: usize = mb + mp;
    let mut mi: usize = 0;
    while mi < opp_hs.len()
        invariant
            mi <= opp_hs@.len(),
            needed as int == mb + mp + missing_from(ovs, 0) - missing_from(ovs, mi as int),
            needed <= 52,
        decreases opp_hs@.len() - mi,
    {
        assert(ovs[mi as int] == opp_hs@[mi as int].cards@);
        let ol = opp_hs[mi].cards.len();
        needed = needed + (2 - ol);
        if needed > 52 {
            proof {
                lemma_missing_nonneg(ovs, mi + 1);
                crate::deck::lemma_subset_le(kv);
            }
            return Err(PokerError::InsufficientDeck);
        }
        mi += 1;
    }
    proof {
        assert(missing_from(ovs, opp_hs@.len() as int) == 0);
    }
    Ok(Prepared { player_h, opp_hs, board_h, known, needed })
}

/// The whole sampling loop: the half-pot total of `samples` run-outs,
/// exactly `spec_run` over the deck's starting state.
#[verifier::loop_isolation(false)]
#[verifier::rlimit(100)]
fn run_loop(deck: &mut Deck, prep: &Prepared, samples: usize) -> (half: u64)
    requires
        samples <= 0x7fffffffffffffff,
        old(deck).wf(),
        prep.player_h.cards@.len() <= 2,
        prep.board_h.cards@.len() <= 5,
        forall|j: int|
            0 <= j < prep.opp_hs@.len() ==> (#[trigger] prep.opp_hs@[j].cards@).len() <= 2,
        (5 - prep.board_h.cards@.len()) + (2 - prep.player_h.cards@.len()) + missing_from(
            hands_views(prep.opp_hs@),
            0,
        ) <= old(deck).cards@.len(),
    ensures
        half as int == spec_run(
            old(deck).cards@,
            old(deck).rng.state,
            prep.player_h.cards@,
            hands_views(prep.opp_hs@),
            prep.board_h.cards@,
            samples as int,
        ).half,
        half <= 2 * samples,
{
    let ghost pv = prep.player_h.cards@;
    let ghost ovs = hands_views(prep.opp_hs@);
    let ghost bv = prep.board_h.cards@;
    let ghost init_cards = deck.cards@;
    let ghost init_state = deck.rng.state;
    let ghost el = init_cards.len();
    let mut half: u64 = 0;
    let mut it: usize = 0;
    while it < samples
        invariant
            it <= samples,
            deck.wf(),
            deck.cards@.len() == el,
            deck.cards@ == spec_run(init_cards, init_state, pv, ovs, bv, it as int).cards,
            deck.rng.state == spec_run(init_cards, init_state, pv, ovs, bv, it as int).state,
            half as int == spec_run(init_cards, init_state, pv, ovs, bv, it as int).half,
            half <= 2 * it,
        decreases samples - it,
    {
        let delta = run_sample(deck, &prep.player_h, &prep.opp_hs, &prep.board_h);
        half = half + delta;
        it += 1;
    }
    half
}

/// The validation outcome assembled from its pieces.
proof fn lemma_setup_ok(
    p: Seq<char>,
    os: Seq<Seq<char>>,
    b: Seq<char>,
    pv: Seq<Card>,
    ovs: Seq<Seq<Card>>,
    bv: Seq<Card>,
    kv: Seq<Card>,
    el: int,
)
    requires
        spec_parse_hand(p, 2) == Ok::<Seq<Card>, PokerError>(pv),
        spec_parse_opps(os) == Ok::<Seq<Seq<Card>>, PokerError>(ovs),
        spec_parse_hand(b, 5) == Ok::<Seq<Card>, PokerError>(bv),
        spec_known(pv, ovs, bv) == Ok::<Seq<Card>, PokerError>(kv),
        spec_subset(kv).len() == el,
        (5 - bv.len()) + (2 - pv.len()) + missing_from(ovs, 0) <= el,
    ensures
        spec_setup(p, os, b) == Ok::<SimSetup, PokerError>(
            SimSetup { player: pv, opps: ovs, board: bv, known: kv },
        ),
{
}

/// The validation failure when the deck cannot cover one run-out.
proof fn lemma_setup_insufficient(
    p: Seq<char>,
    os: Seq<Seq<char>>,
    b: Seq<char>,
    pv: Seq<Card>,
    ovs: Seq<Seq<Card>>,
    bv: Seq<Card>,
    kv: Seq<Card>,
    el: int,
)
    requires
        spec_parse_hand(p, 2) == Ok::<Seq<Card>, PokerError>(pv),
        spec_parse_opps(os) == Ok::<Seq<Seq<Card>>, PokerError>(ovs),
        spec_parse_hand(b, 5) == Ok::<Seq<Card>, PokerError>(bv),
        spec_known(pv, ovs, bv) == Ok::<Seq<Card>, PokerError>(kv),
        spec_subset(kv).len() == el,
        (5 - bv.len()) + (2 - pv.len()) + missing_from(ovs, 0) > el,
    ensures
        spec_setup(p, os, b) == Err::<SimSetup, PokerError>(PokerError::InsufficientDeck),
{
}

impl EquityCalculator {
    /// A calculator with the default settings: 100000 samples, seed 0 (a
    /// fresh machine seed per call).
    pub fn new() -> (c: EquityCalculator)
        ensures
            c.samples == 100000,
            c.seed == 0,
    {
        EquityCalculator { samples: 100000, seed: 0 }
    }

    /// Set the number of Monte Carlo samples.
    pub fn samples(&mut self, samples: usize)
        ensures
            final (self).samples == samples,
            final (self).seed == old(self).seed,
    {
        self.samples = samples;
    }

    /// Set the generator seed; 0 asks for a fresh machine seed per call.
    pub fn seed(&mut self, seed: u64)
        ensures
            final (self).seed == seed,
            final (self).samples == old(self).samples,
    {
        self.seed = seed;
    }

    /// Evaluate the strength of a notation hand of five to seven cards; the
    /// strength value of `spec_rank`, comparable across hands by plain
    /// numeric order.
    pub fn rank_hand(hand: &str) -> (r: u32)
        requires
            spec_parse_hand(hand@, 7) is Ok,
            5 <= (spec_parse_hand(hand@, 7)->Ok_0).len() <= 7,
        ensures
            r as int == spec_rank(spec_parse_hand(hand@, 7)->Ok_0),
    {
        match parse_hand(hand, 7) {
            Ok(h) => rank(&h),
            Err(_) => {
                proof {
                    assert(false);
                }
                0
            },
        }
    }

    /// Calculate the player's equity against the opponents over the given
    /// board, by `self.samples` seeded Monte Carlo run-outs.
    ///
    /// Fails fast, before any simulation, exactly as `spec_setup` says. On
    /// success the half-pot total is the exact `spec_run` value under the
    /// seed used: the configured one when it is not 0, a machine-drawn one
    /// otherwise.
    #[verifier::loop_isolation(false)]
    #[verifier::rlimit(100)]
    pub fn calculate(&self, player: &str, opponents: &Vec<&str>, board: &str) -> (res: Result<
        EquityResult,
        PokerError,
    >)
        requires
            self.samples <= 0x7fffffffffffffff,
        ensures
            match res {
                Ok(out) => {
                    &&& spec_setup(player@, opponents.deep_view(), board@) is Ok
                    &&& out.samples == self.samples
                    &&& 0 <= out.half_pots <= 2 * self.samples
                    &&& (self.seed != 0 ==> out.half_pots as int == spec_half_pots(
                        spec_setup(player@, opponents.deep_view(), board@)->Ok_0,
                        self.seed,
                        self.samples as int,
                    ))
                    &&& exists|sd: u64|
                        seeded_outcome(
                            spec_setup(player@, opponents.deep_view(), board@)->Ok_0,
                            sd,
                            self.samples as int,
                            out.half_pots as int,
                        )
                },
                Err(e) => spec_setup(player@, opponents.deep_view(), board@) == Err::<
                    SimSetup,
                    PokerError,
                >(e),
            },
    {
        let ghost os = opponents.deep_view();
        let prep = match prepare(player, opponents, board) {
            Ok(p) => p,
            Err(e) => {
                return Err(e);
            },
        };
        let ghost pv = prep.player_h.cards@;
        let ghost ovs = hands_views(prep.opp_hs@);
        let ghost bv = prep.board_h.cards@;
        let ghost kv = prep.known@;

        // resolve the seed and build the deck of the unknown cards
        let seed_used: u64 = if self.seed == 0 {
            entropy_seed()
        } else {
            self.seed
        };
        let mut deck = Deck::new(&prep.known, seed_used);
        let deck_len = deck.len();
        if prep.needed > deck_len {
            proof {
                lemma_setup_insufficient(
                    player@,
                    os,
                    board@,
                    pv,
                    ovs,
                    bv,
                    kv,
                    deck.cards@.len() as int,
                );
            }
            return Err(PokerError::InsufficientDeck);
        }
        let ghost setup = SimSetup { player: pv, opps: ovs, board: bv, known: kv };
        proof {
            lemma_setup_ok(player@, os, board@, pv, ovs, bv, kv, deck.cards@.len() as int);
        }

        let half = run_loop(&mut deck, &prep, self.samples);
        proof {
            assert(half as int == spec_half_pots(setup, seed_used, self.samples as int));
            assert(seeded_outcome(setup, seed_used, self.samples as int, half as int));
            assert(spec_setup(player@, os, board@)->Ok_0 == setup);
            assert(exists|sd: u64|
                seeded_outcome(
                    spec_setup(player@, os, board@)->Ok_0,
                    sd,
                    self.samples as int,
                    half as int,
                ));
        }
        Ok(EquityResult { half_pots: half, samples: self.samples })
    }
}

} // verus!