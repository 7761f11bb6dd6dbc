use vstd::prelude::*;

use crate::text::join2;
use rand::seq::SliceRandom;

verus! {

/// The four suits of a standard deck.
#[derive(Clone, Copy, Debug, PartialEq, Eq, Hash, Structural)]
pub enum Suit {
    Clubs,
    Diamonds,
    Hearts,
    Spades,
}

/// A playing card; ranks run from 2 to 14 (the ace).
#[derive(Clone, Copy, Debug, PartialEq, Eq, Hash, Structural)]
pub struct Card {
    pub rank: u8,
    pub suit: Suit,
}

/// The short name of a rank; anything that is not 3..=14 reads as "2".
pub open spec fn rank_name(rank: int) -> Seq<char> {
    if rank == 14 { "A"@ }
    else if rank == 13 { "K"@ }
    else if rank == 12 { "Q"@ }
    else if rank == 11 { "J"@ }
    else if rank == 10 { "10"@ }
    else if rank == 9 { "9"@ }
    else if rank == 8 { "8"@ }
    else if rank == 7 { "7"@ }
    else if rank == 6 { "6"@ }
    else if rank == 5 { "5"@ }
    else if rank == 4 { "4"@ }
    else if rank == 3 { "3"@ }
    else { "2"@ }
}

pub open spec fn suit_symbol(suit: Suit) -> Seq<char> {
    match suit {
        Suit::Clubs => "♣"@,
        Suit::Diamonds => "♦"@,
        Suit::Hearts => "♥"@,
        Suit::Spades => "♠"@,
    }
}

impl Card {
    pub fn rank_text(self) -> (text: &'static str)
        ensures
            text@ == rank_name(self.rank as int),
    {
        rank_label(self.rank)
    }

    pub fn suit_text(self) -> (text: &'static str)
        ensures
            text@ == suit_symbol(self.suit),
    {
        match self.suit {
            Suit::Clubs => "♣",
            Suit::Diamonds => "♦",
            Suit::Hearts => "♥",
            Suit::Spades => "♠",
        }
    }

    pub fn is_red(self) -> (red: bool)
        ensures
            red == (self.suit == Suit::Diamonds || self.suit == Suit::Hearts),
    {
        match self.suit {
            Suit::Diamonds | Suit::Hearts => true,
            _ => false,
        }
    }
}

fn rank_label(rank: u8) -> (text: &'static str)
    ensures
        text@ == rank_name(rank as int),
{
    match rank {
        14 => "A",
        13 => "K",
        12 => "Q",
        11 => "J",
        10 => "10",
        9 => "9",
        8 => "8",
        7 => "7",
        6 => "6",
        5 => "5",
        4 => "4",
        3 => "3",
        _ => "2",
    }
}


/// A card of a standard deck: rank from 2 (deuce) to 14 (ace).
pub open spec fn valid_card(c: Card) -> bool {
    2 <= c.rank <= 14
}

pub open spec fn all_valid(cs: Seq<Card>) -> bool {
    forall|i: int| 0 <= i < cs.len() ==> valid_card(#[trigger] cs[i])
}

/// Every card's rank is at most an ace (14).
pub open spec fn ranks_fit(cs: Seq<Card>) -> bool {
    forall|i: int| 0 <= i < cs.len() ==> (#[trigger] cs[i]).rank <= 14
}

/// How many of the cards have rank `r`.
pub open spec fn rank_count(cs: Seq<Card>, r: int) -> nat
    decreases cs.len(),
{
    if cs.len() == 0 {
        0
    } else {
        rank_count(cs.drop_last(), r) + (if cs.last().rank == r { 1nat } else { 0nat })
    }
}

/// All cards share the suit of the first.
pub open spec fn is_flush(cs: Seq<Card>) -> bool {
    forall|i: int| 0 <= i < cs.len() ==> #[trigger] cs[i].suit == cs[0].suit
}

/// Rank `r` occurs among the cards; rank 1 stands for the ace played low.
pub open spec fn rank_present(cs: Seq<Card>, r: int) -> bool {
    rank_count(cs, if r == 1 { 14 } else { r }) > 0
}

/// Five consecutive ranks ending at `high` all occur.
pub open spec fn run_ends_at(cs: Seq<Card>, high: int) -> bool {
    &&& rank_present(cs, high)
    &&& rank_present(cs, high - 1)
    &&& rank_present(cs, high - 2)
    &&& rank_present(cs, high - 3)
    &&& rank_present(cs, high - 4)
}

/// The highest card of the best straight whose top is at most `high`.
pub open spec fn straight_high_from(cs: Seq<Card>, high: int) -> Option<u8>
    decreases high,
{
    if high < 5 {
        None
    } else if run_ends_at(cs, high) {
        Some(high as u8)
    } else {
        straight_high_from(cs, high - 1)
    }
}

pub open spec fn straight_high(cs: Seq<Card>) -> Option<u8> {
    straight_high_from(cs, 14)
}

/// The ranks from `top` down to 2 that occur exactly `k` times, highest first.
pub open spec fn ranks_with_count(cs: Seq<Card>, k: nat, top: int) -> Seq<u8>
    decreases top,
{
    if top < 2 {
        seq![]
    } else if rank_count(cs, top) == k {
        seq![top as u8] + ranks_with_count(cs, k, top - 1)
    } else {
        ranks_with_count(cs, k, top - 1)
    }
}

/// The distinct ranks from `top` down to 2 that occur at all, highest first.
pub open spec fn ranks_present(cs: Seq<Card>, top: int) -> Seq<u8>
    decreases top,
{
    if top < 2 {
        seq![]
    } else if rank_count(cs, top) > 0 {
        seq![top as u8] + ranks_present(cs, top - 1)
    } else {
        ranks_present(cs, top - 1)
    }
}

pub open spec fn rank_at(rs: Seq<u8>, i: int) -> int {
    if 0 <= i < rs.len() { rs[i] as int } else { 0 }
}

/// A comparable score: the category in the byte above bit 24, then up to
/// five ranks, one per four bits from bit 20 down to bit 4.
pub open spec fn pack_score(category: int, rs: Seq<u8>) -> int {
    category * 0x1000000 + rank_at(rs, 0) * 0x100000 + rank_at(rs, 1) * 0x10000 + rank_at(rs, 2)
        * 0x1000 + rank_at(rs, 3) * 0x100 + rank_at(rs, 4) * 0x10
}

/// The poker category of five cards: 8 straight flush, 7 four of a kind,
/// 6 full house, 5 flush, 4 straight, 3 three of a kind, 2 two pair,
/// 1 pair, 0 high card.
pub open spec fn hand_category(cs: Seq<Card>) -> int {
    let quads = ranks_with_count(cs, 4, 14);
    let trips = ranks_with_count(cs, 3, 14);
    let pairs = ranks_with_count(cs, 2, 14);
    if is_flush(cs) && straight_high(cs) is Some {
        8
    } else if quads.len() > 0 {
        7
    } else if trips.len() > 0 && pairs.len() > 0 {
        6
    } else if is_flush(cs) {
        5
    } else if straight_high(cs) is Some {
        4
    } else if trips.len() > 0 {
        3
    } else if pairs.len() >= 2 {
        2
    } else if pairs.len() == 1 {
        1
    } else {
        0
    }
}

/// The ranks that break ties inside the category, most significant first.
pub open spec fn hand_ranks(cs: Seq<Card>) -> Seq<u8> {
    let quads = ranks_with_count(cs, 4, 14);
    let trips = ranks_with_count(cs, 3, 14);
    let pairs = ranks_with_count(cs, 2, 14);
    let singles = ranks_with_count(cs, 1, 14);
    let category = hand_category(cs);
    if category == 8 || category == 4 {
        seq![straight_high(cs)->0]
    } else if category == 7 {
        quads + singles
    } else if category == 6 {
        trips + pairs
    } else if category == 5 || category == 0 {
        ranks_present(cs, 14)
    } else if category == 3 {
        trips + singles
    } else {
        pairs + singles
    }
}

/// The score of a five-card hand.
pub open spec fn five_score(cs: Seq<Card>) -> int {
    pack_score(hand_category(cs), hand_ranks(cs))
}

pub proof fn lemma_rank_count_bound(cs: Seq<Card>, r: int)
    ensures
        rank_count(cs, r) <= cs.len(),
    decreases cs.len(),
{
    if cs.len() > 0 {
        lemma_rank_count_bound(cs.drop_last(), r);
    }
}

proof fn lemma_ranks_with_count_bound(cs: Seq<Card>, k: nat, top: int)
    requires
        top <= 14,
    ensures
        forall|i: int|
            0 <= i < ranks_with_count(cs, k, top).len() ==> 2 <= #[trigger] ranks_with_count(
                cs,
                k,
                top,
            )[i] <= top,
    decreases top,
{
    if top >= 2 {
        lemma_ranks_with_count_bound(cs, k, top - 1);
        let rest = ranks_with_count(cs, k, top - 1);
        if rank_count(cs, top) == k {
            assert forall|i: int| 0 <= i < ranks_with_count(cs, k, top).len() implies 2
                <= #[trigger] ranks_with_count(cs, k, top)[i] <= top by {
                if i > 0 {
                    assert(ranks_with_count(cs, k, top)[i] == rest[i - 1]);
                }
            }
        }
    }
}

proof fn lemma_ranks_present_bound(cs: Seq<Card>, top: int)
    requires
        top <= 14,
    ensures
        forall|i: int|
            0 <= i < ranks_present(cs, top).len() ==> 2 <= #[trigger] ranks_present(cs, top)[i]
                <= top,
    decreases top,
{
    if top >= 2 {
        lemma_ranks_present_bound(cs, top - 1);
        let rest = ranks_present(cs, top - 1);
        if rank_count(cs, top) > 0 {
            assert forall|i: int| 0 <= i < ranks_present(cs, top).len() implies 2
                <= #[trigger] ranks_present(cs, top)[i] <= top by {
                if i > 0 {
                    assert(ranks_present(cs, top)[i] == rest[i - 1]);
                }
            }
        }
    }
}

/// Counts of each rank (index = rank) among the five cards.
fn count_ranks(cards: &[Card; 5]) -> (counts: Vec<u8>)
    requires
        all_valid(cards@),
    ensures
        counts.len() == 15,
        forall|r: int| 0 <= r < 15 ==> counts@[r] as nat == #[trigger] rank_count(cards@, r),
{
    let mut counts: Vec<u8> = Vec::new();
    let mut r: usize = 0;
    while r < 15
        invariant
            r <= 15,
            counts.len() == r,
            forall|q: int| 0 <= q < r ==> counts@[q] == 0,
        decreases 15 - r,
    {
        counts.push(0);
        r = r + 1;
    }
    let mut i: usize = 0;
    while i < 5
        invariant
            i <= 5,
            all_valid(cards@),
            cards@.len() == 5,
            counts.len() == 15,
            forall|q: int| 0 <= q < 15 ==> counts@[q] as nat == #[trigger] rank_count(cards@.take(i as int), q),
        decreases 5 - i,
    {
        let c = cards[i];
        assert(cards@.take(i + 1).drop_last() =~= cards@.take(i as int));
        assert(valid_card(cards@[i as int]));
        proof {
            lemma_rank_count_bound(cards@.take(i as int), c.rank as int);
        }
        let idx = c.rank as usize;
        let old_count = counts[idx];
        counts.set(idx, old_count + 1);
        assert forall|q: int| 0 <= q < 15 implies counts@[q] as nat == #[trigger] rank_count(
            cards@.take(i + 1),
            q,
        ) by {
            let prefix = cards@.take(i + 1);
            assert(prefix.last() == c);
            assert(prefix.drop_last() == cards@.take(i as int));
            assert(rank_count(prefix, q) == rank_count(cards@.take(i as int), q) + (if c.rank
                == q { 1nat } else { 0nat }));
        }
        i = i + 1;
    }
    assert(cards@.take(5) =~= cards@);
    counts
}


pub open spec fn counts_match(counts: Seq<u8>, cs: Seq<Card>) -> bool {
    &&& counts.len() == 15
    &&& forall|r: int| 0 <= r < 15 ==> counts[r] as nat == #[trigger] rank_count(cs, r)
}

/// The ranks that occur exactly `k` times, highest first.
fn ranks_of_count(counts: &Vec<u8>, k: u8, Ghost(cs): Ghost<Seq<Card>>) -> (ranks: Vec<u8>)
    requires
        counts_match(counts@, cs),
    ensures
        ranks@ == ranks_with_count(cs, k as nat, 14),
{
    let mut ranks: Vec<u8> = Vec::new();
    let mut r: u8 = 2;
    while r <= 14
        invariant
            2 <= r <= 15,
            counts_match(counts@, cs),
            ranks@ == ranks_with_count(cs, k as nat, r - 1),
        decreases 15 - r,
    {
        if counts[r as usize] == k {
            ranks.insert(0, r);
            assert(ranks@ =~= seq![r] + ranks_with_count(cs, k as nat, r - 1));
        }
        r = r + 1;
    }
    ranks
}

/// The distinct ranks that occur, highest first.
fn present_ranks(counts: &Vec<u8>, Ghost(cs): Ghost<Seq<Card>>) -> (ranks: Vec<u8>)
    requires
        counts_match(counts@, cs),
    ensures
        ranks@ == ranks_present(cs, 14),
{
    let mut ranks: Vec<u8> = Vec::new();
    let mut r: u8 = 2;
    while r <= 14
        invariant
            2 <= r <= 15,
            counts_match(counts@, cs),
            ranks@ == ranks_present(cs, r - 1),
        decreases 15 - r,
    {
        if counts[r as usize] > 0 {
            ranks.insert(0, r);
            assert(ranks@ =~= seq![r] + ranks_present(cs, r - 1));
        }
        r = r + 1;
    }
    ranks
}

spec fn present_below(cs: Seq<Card>, high: int, j: int) -> bool {
    rank_present(cs, high - j)
}

/// The top card of the highest straight, if the ranks hold one.
fn find_straight(counts: &Vec<u8>, Ghost(cs): Ghost<Seq<Card>>) -> (high: Option<u8>)
    requires
        counts_match(counts@, cs),
    ensures
        high == straight_high(cs),
{
    let mut h: u8 = 14;
    while h >= 5
        invariant
            4 <= h <= 14,
            counts_match(counts@, cs),
            straight_high(cs) == straight_high_from(cs, h as int),
        decreases h,
    {
        let mut run = true;
        let mut step: u8 = 0;
        while step < 5
            invariant
                5 <= h <= 14,
                step <= 5,
                counts_match(counts@, cs),
                run == (forall|j: int| 0 <= j < step ==> #[trigger] present_below(cs, h as int, j)),
            decreases 5 - step,
        {
            let r = h - step;
            let idx: usize = if r == 1 { 14 } else { r as usize };
            assert(present_below(cs, h as int, step as int) == (counts@[idx as int] > 0));
            if counts[idx] == 0 {
                run = false;
            }
            assert(run == (forall|j: int| 0 <= j < step + 1 ==> #[trigger] present_below(cs, h as int, j))) by {
                if run {
                    assert forall|j: int| 0 <= j < step + 1 implies #[trigger] present_below(cs, h as int, j) by {
                        if j < step {
                        }
                    }
                }
            }
            step = step + 1;
        }
        if run {
            assert(present_below(cs, h as int, 0));
            assert(present_below(cs, h as int, 1));
            assert(present_below(cs, h as int, 2));
            assert(present_below(cs, h as int, 3));
            assert(present_below(cs, h as int, 4));
            return Some(h);
        }
        assert(!run_ends_at(cs, h as int)) by {
            let j = choose|j: int| 0 <= j < 5 && !present_below(cs, h as int, j);
            assert(!present_below(cs, h as int, j));
        }
        h = h - 1;
    }
    None
}

/// Whether all five cards share one suit.
fn all_one_suit(cards: &[Card; 5]) -> (flush: bool)
    ensures
        flush == is_flush(cards@),
{
    let mut flush = true;
    let mut i: usize = 0;
    while i < 5
        invariant
            i <= 5,
            cards@.len() == 5,
            flush == (forall|j: int| 0 <= j < i ==> #[trigger] cards@[j].suit == cards@[0].suit),
        decreases 5 - i,
    {
        if cards[i].suit != cards[0].suit {
            flush = false;
        }
        i = i + 1;
    }
    flush
}

/// Packs a category and up to five ranks (each below 16) into one score.
fn packed(category: u8, ranks: &Vec<u8>) -> (score: u64)
    requires
        forall|i: int| 0 <= i < ranks.len() ==> #[trigger] ranks@[i] < 16,
    ensures
        score as int == pack_score(category as int, ranks@),
        category_of(score) == category,
        ranks@.len() <= 5 && (forall|i: int| 0 <= i < ranks.len() ==> 1 <= #[trigger] ranks@[i])
            ==> score_rank_list(score) == ranks@,
{
    proof {
        lemma_pack_bits(
            pack_score(category as int, ranks@) as u64,
            category as u64,
            rank_at(ranks@, 0) as u64,
            rank_at(ranks@, 1) as u64,
            rank_at(ranks@, 2) as u64,
            rank_at(ranks@, 3) as u64,
            rank_at(ranks@, 4) as u64,
        );
        if ranks@.len() <= 5 && (forall|i: int| 0 <= i < ranks.len() ==> 1 <= #[trigger] ranks@[i]) {
            lemma_pack_decoded(category, ranks@);
        }
    }
    let len = ranks.len();
    let r0: u64 = if len > 0 { ranks[0] as u64 } else { 0 };
    let r1: u64 = if len > 1 { ranks[1] as u64 } else { 0 };
    let r2: u64 = if len > 2 { ranks[2] as u64 } else { 0 };
    let r3: u64 = if len > 3 { ranks[3] as u64 } else { 0 };
    let r4: u64 = if len > 4 { ranks[4] as u64 } else { 0 };
    (category as u64) * 0x1000000 + r0 * 0x100000 + r1 * 0x10000 + r2 * 0x1000 + r3 * 0x100 + r4
        * 0x10
}


proof fn lemma_hand_ranks_small(cs: Seq<Card>)
    ensures
        forall|i: int| 0 <= i < hand_ranks(cs).len() ==> 2 <= #[trigger] hand_ranks(cs)[i] <= 14,
{
    lemma_ranks_with_count_bound(cs, 4, 14);
    lemma_ranks_with_count_bound(cs, 3, 14);
    lemma_ranks_with_count_bound(cs, 2, 14);
    lemma_ranks_with_count_bound(cs, 1, 14);
    lemma_ranks_present_bound(cs, 14);
    lemma_straight_high_bound(cs, 14);
    let quads = ranks_with_count(cs, 4, 14);
    let trips = ranks_with_count(cs, 3, 14);
    let pairs = ranks_with_count(cs, 2, 14);
    let singles = ranks_with_count(cs, 1, 14);
    assert forall|i: int| 0 <= i < hand_ranks(cs).len() implies 2 <= #[trigger] hand_ranks(cs)[i]
        <= 14 by {
        let c = hand_category(cs);
        if c == 7 {
            if i >= quads.len() {
                assert(hand_ranks(cs)[i] == singles[i - quads.len()]);
            }
        } else if c == 6 {
            if i >= trips.len() {
                assert(hand_ranks(cs)[i] == pairs[i - trips.len()]);
            }
        } else if c == 3 {
            if i >= trips.len() {
                assert(hand_ranks(cs)[i] == singles[i - trips.len()]);
            }
        } else if c == 2 || c == 1 {
            if i >= pairs.len() {
                assert(hand_ranks(cs)[i] == singles[i - pairs.len()]);
            }
        }
    }
}

proof fn lemma_straight_high_bound(cs: Seq<Card>, high: int)
    requires
        high <= 14,
    ensures
        straight_high_from(cs, high) matches Some(h) ==> 5 <= h <= 14,
    decreases high,
{
    if high >= 5 && !run_ends_at(cs, high) {
        lemma_straight_high_bound(cs, high - 1);
    }
}

fn concat_ranks(first: Vec<u8>, second: Vec<u8>) -> (joined: Vec<u8>)
    ensures
        joined@ == first@ + second@,
{
    let mut joined = first;
    let mut rest = second;
    joined.append(&mut rest);
    joined
}

/// The score of exactly five cards.
fn evaluate_five(cards: [Card; 5]) -> (score: u64)
    requires
        all_valid(cards@),
    ensures
        score as int == five_score(cards@),
{
    let ghost cs = cards@;
    let counts = count_ranks(&cards);
    let flush = all_one_suit(&cards);
    let straight = find_straight(&counts, Ghost(cs));
    let quads = ranks_of_count(&counts, 4, Ghost(cs));
    let trips = ranks_of_count(&counts, 3, Ghost(cs));
    let pairs = ranks_of_count(&counts, 2, Ghost(cs));
    let singles = ranks_of_count(&counts, 1, Ghost(cs));
    let present = present_ranks(&counts, Ghost(cs));
    proof {
        lemma_hand_ranks_small(cs);
    }
    let category: u8;
    let ranks: Vec<u8>;
    if flush && straight.is_some() {
        category = 8;
        ranks = vec![straight.unwrap()];
    } else if quads.len() > 0 {
        category = 7;
        ranks = concat_ranks(quads, singles);
    } else if trips.len() > 0 && pairs.len() > 0 {
        category = 6;
        ranks = concat_ranks(trips, pairs);
    } else if flush {
        category = 5;
        ranks = present;
    } else if straight.is_some() {
        category = 4;
        ranks = vec![straight.unwrap()];
    } else if trips.len() > 0 {
        category = 3;
        ranks = concat_ranks(trips, singles);
    } else if pairs.len() >= 2 {
        category = 2;
        ranks = concat_ranks(pairs, singles);
    } else if pairs.len() == 1 {
        category = 1;
        ranks = concat_ranks(pairs, singles);
    } else {
        category = 0;
        ranks = present;
    }
    assert(category as int == hand_category(cs));
    assert(ranks@ =~= hand_ranks(cs));
    packed(category, &ranks)
}


/// Index positions of five cards chosen from `n`, in increasing order.
pub open spec fn is_combo(n: int, t: (int, int, int, int, int)) -> bool {
    0 <= t.0 < t.1 < t.2 < t.3 < t.4 < n
}

/// The five cards at the positions of `t`.
pub open spec fn combo(cs: Seq<Card>, t: (int, int, int, int, int)) -> Seq<Card> {
    seq![cs[t.0], cs[t.1], cs[t.2], cs[t.3], cs[t.4]]
}

pub open spec fn combo_score(cs: Seq<Card>, t: (int, int, int, int, int)) -> int {
    five_score(combo(cs, t))
}

/// Lexicographic order of index tuples: the order in which they are tried.
pub open spec fn lex_lt(x: (int, int, int, int, int), y: (int, int, int, int, int)) -> bool {
    ||| x.0 < y.0
    ||| x.0 == y.0 && x.1 < y.1
    ||| x.0 == y.0 && x.1 == y.1 && x.2 < y.2
    ||| x.0 == y.0 && x.1 == y.1 && x.2 == y.2 && x.3 < y.3
    ||| x.0 == y.0 && x.1 == y.1 && x.2 == y.2 && x.3 == y.3 && x.4 < y.4
}

/// The best five-card score among all choices of five of the cards.
pub open spec fn is_best_score(cs: Seq<Card>, score: int) -> bool {
    &&& exists|t: (int, int, int, int, int)| is_combo(cs.len() as int, t) && combo_score(cs, t) == score
    &&& forall|t: (int, int, int, int, int)|
        is_combo(cs.len() as int, t) ==> #[trigger] combo_score(cs, t) <= score
}

/// Two scores that are both the best of the same cards are equal.
pub proof fn lemma_best_score_unique(cs: Seq<Card>, a: int, b: int)
    requires
        is_best_score(cs, a),
        is_best_score(cs, b),
    ensures
        a == b,
{
    let ta = choose|t: (int, int, int, int, int)| is_combo(cs.len() as int, t) && combo_score(cs, t) == a;
    let tb = choose|t: (int, int, int, int, int)| is_combo(cs.len() as int, t) && combo_score(cs, t) == b;
    assert(combo_score(cs, ta) <= b);
    assert(combo_score(cs, tb) <= a);
}

/// `t` picks a strongest five of the cards, and every choice tried before
/// it is weaker.
pub open spec fn is_winning_combo(cs: Seq<Card>, t: (int, int, int, int, int)) -> bool {
    &&& is_combo(cs.len() as int, t)
    &&& is_best_score(cs, combo_score(cs, t))
    &&& forall|u: (int, int, int, int, int)|
        is_combo(cs.len() as int, u) && lex_lt(u, t) ==> #[trigger] combo_score(cs, u)
            < combo_score(cs, t)
}

/// The strongest five of the cards: of equally strong choices, the first
/// in the order they are tried.
pub open spec fn winning_five(cs: Seq<Card>) -> Seq<Card> {
    combo(cs, choose|t: (int, int, int, int, int)| is_winning_combo(cs, t))
}

/// Only one choice of five cards is the first strongest one.
pub proof fn lemma_winning_combo_unique(
    cs: Seq<Card>,
    t: (int, int, int, int, int),
    u: (int, int, int, int, int),
)
    requires
        is_winning_combo(cs, t),
        is_winning_combo(cs, u),
    ensures
        t == u,
{
    lemma_best_score_unique(cs, combo_score(cs, t), combo_score(cs, u));
    if lex_lt(t, u) {
        assert(combo_score(cs, t) < combo_score(cs, u));
    } else if lex_lt(u, t) {
        assert(combo_score(cs, u) < combo_score(cs, t));
    }
}

/// The search over all five-card choices has looked at every choice before `lim`.
spec fn searched(
    cs: Seq<Card>,
    best: u64,
    winning: Seq<Card>,
    chosen: (int, int, int, int, int),
    lim: (int, int, int, int, int),
) -> bool {
    &&& forall|t: (int, int, int, int, int)|
        is_combo(cs.len() as int, t) && lex_lt(t, lim) ==> #[trigger] combo_score(cs, t) <= best
    &&& best > 0 ==> {
        &&& is_combo(cs.len() as int, chosen)
        &&& lex_lt(chosen, lim)
        &&& winning == combo(cs, chosen)
        &&& best == combo_score(cs, chosen)
        &&& forall|t: (int, int, int, int, int)|
            is_combo(cs.len() as int, t) && lex_lt(t, chosen) ==> #[trigger] combo_score(cs, t)
                < best
    }
}

proof fn lemma_rank_count_positive(cs: Seq<Card>, i: int)
    requires
        0 <= i < cs.len(),
    ensures
        rank_count(cs, cs[i].rank as int) > 0,
    decreases cs.len(),
{
    if i < cs.len() - 1 {
        lemma_rank_count_positive(cs.drop_last(), i);
    }
}

proof fn lemma_present_nonempty(cs: Seq<Card>, top: int, r: int)
    requires
        2 <= r <= top,
        rank_count(cs, r) > 0,
    ensures
        ranks_present(cs, top).len() > 0,
    decreases top,
{
    if rank_count(cs, top) == 0 {
        lemma_present_nonempty(cs, top - 1, r);
    }
}

proof fn lemma_count_nonempty(cs: Seq<Card>, k: nat, top: int, r: int)
    requires
        2 <= r <= top,
        rank_count(cs, r) == k,
    ensures
        ranks_with_count(cs, k, top).len() > 0,
    decreases top,
{
    if rank_count(cs, top) != k {
        lemma_count_nonempty(cs, k, top - 1, r);
    }
}

/// A hand of valid cards always scores above zero.
proof fn lemma_five_score_positive(cs: Seq<Card>)
    requires
        cs.len() == 5,
        all_valid(cs),
    ensures
        five_score(cs) > 0,
        hand_ranks(cs).len() > 0,
{
    lemma_hand_ranks_small(cs);
    assert(valid_card(cs[0]));
    lemma_rank_count_positive(cs, 0);
    lemma_present_nonempty(cs, 14, cs[0].rank as int);
    let c = hand_category(cs);
    assert(hand_ranks(cs).len() > 0);
    assert(rank_at(hand_ranks(cs), 0) >= 2);
}

/// Returns the score and the exact five cards that form the strongest hand.
pub fn best_five(cards: &[Card]) -> (result: (u64, Vec<Card>))
    requires
        cards@.len() >= 5,
        all_valid(cards@),
    ensures
        is_best_score(cards@, result.0 as int),
        exists|t: (int, int, int, int, int)|
            {
                &&& is_combo(cards@.len() as int, t)
                &&& #[trigger] combo(cards@, t) == result.1@
                &&& combo_score(cards@, t) == result.0
                &&& forall|u: (int, int, int, int, int)|
                    is_combo(cards@.len() as int, u) && lex_lt(u, t) ==> #[trigger] combo_score(
                        cards@,
                        u,
                    ) < result.0
            },
        result.1@ == winning_five(cards@),
{
    let ghost cs = cards@;
    let n = cards.len();
    let mut best: u64 = 0;
    let mut winning: Vec<Card> = Vec::new();
    let ghost mut chosen: (int, int, int, int, int) = (0, 0, 0, 0, 0);
    let mut a: usize = 0;
    while a < n - 4
        invariant
            cs == cards@,
            n == cs.len(),
            n >= 5,
            all_valid(cs),
            a <= n - 4,
            searched(cs, best, winning@, chosen, (a as int, 0, 0, 0, 0)),
            a > 0 ==> best > 0,
        decreases n - a,
    {
        let mut b: usize = a + 1;
        while b < n - 3
            invariant
                cs == cards@,
                n == cs.len(),
                n >= 5,
                all_valid(cs),
                a < n - 4,
                a + 1 <= b <= n - 3,
                searched(cs, best, winning@, chosen, (a as int, b as int, 0, 0, 0)),
                a > 0 || b > a + 1 ==> best > 0,
            decreases n - b,
        {
            let mut c: usize = b + 1;
            while c < n - 2
                invariant
                    cs == cards@,
                    n == cs.len(),
                    n >= 5,
                    all_valid(cs),
                    a < b < n - 3,
                    b + 1 <= c <= n - 2,
                    searched(cs, best, winning@, chosen, (a as int, b as int, c as int, 0, 0)),
                    a > 0 || b > a + 1 || c > b + 1 ==> best > 0,
                decreases n - c,
            {
                let mut d: usize = c + 1;
                while d < n - 1
                    invariant
                        cs == cards@,
                        n == cs.len(),
                        n >= 5,
                        all_valid(cs),
                        a < b < c < n - 2,
                        c + 1 <= d <= n - 1,
                        searched(
                            cs,
                            best,
                            winning@,
                            chosen,
                            (a as int, b as int, c as int, d as int, 0),
                        ),
                        a > 0 || b > a + 1 || c > b + 1 || d > c + 1 ==> best > 0,
                    decreases n - d,
                {
                    let mut e: usize = d + 1;
                    while e < n
                        invariant
                            cs == cards@,
                            n == cs.len(),
                            n >= 5,
                            all_valid(cs),
                            a < b < c < d < n - 1,
                            d + 1 <= e <= n,
                            searched(
                                cs,
                                best,
                                winning@,
                                chosen,
                                (a as int, b as int, c as int, d as int, e as int),
                            ),
                            a > 0 || b > a + 1 || c > b + 1 || d > c + 1 || e > d + 1 ==> best
                                > 0,
                        decreases n - e,
                    {
                        let five = [cards[a], cards[b], cards[c], cards[d], cards[e]];
                        let ghost t = (a as int, b as int, c as int, d as int, e as int);
                        assert(five@ =~= combo(cs, t));
                        assert(all_valid(five@)) by {
                            assert(valid_card(cs[t.0]));
                            assert(valid_card(cs[t.1]));
                            assert(valid_card(cs[t.2]));
                            assert(valid_card(cs[t.3]));
                            assert(valid_card(cs[t.4]));
                        }
                        let score = evaluate_five(five);
                        proof {
                            lemma_five_score_positive(five@);
                        }
                        if score > best {
                            best = score;
                            winning = Vec::new();
                            winning.push(five[0]);
                            winning.push(five[1]);
                            winning.push(five[2]);
                            winning.push(five[3]);
                            winning.push(five[4]);
                            proof {
                                chosen = t;
                            }
                            assert(winning@ =~= combo(cs, t));
                        }
                        e = e + 1;
                    }
                    d = d + 1;
                }
                c = c + 1;
            }
            b = b + 1;
        }
        a = a + 1;
    }
    assert(best > 0);
    assert(is_combo(n as int, chosen));
    proof {
        assert(is_winning_combo(cs, chosen));
        let first = choose|t: (int, int, int, int, int)| is_winning_combo(cs, t);
        lemma_winning_combo_unique(cs, chosen, first);
    }
    (best, winning)
}


/// Comparable score: category in the high byte, then five rank kickers.
pub fn evaluate(cards: &[Card]) -> (score: u64)
    requires
        cards@.len() >= 5,
        all_valid(cards@),
    ensures
        is_best_score(cards@, score as int),
{
    best_five(cards).0
}

/// The category stored in a score (the byte above bit 24).
pub open spec fn category_of(score: u64) -> u8 {
    (score >> 24u64) as u8
}

/// The rank stored in the `i`-th four-bit slot of a score (slot 0 at bit 20).
pub open spec fn nibble(score: u64, i: int) -> u8 {
    ((score >> ((20 - 4 * i) as u64)) & 0xfu64) as u8
}

/// The non-zero ranks among the first `k` slots of a score, in slot order.
pub open spec fn ranks_in_slots(score: u64, k: int) -> Seq<u8>
    decreases k,
{
    if k <= 0 {
        seq![]
    } else if nibble(score, k - 1) > 0 {
        ranks_in_slots(score, k - 1).push(nibble(score, k - 1))
    } else {
        ranks_in_slots(score, k - 1)
    }
}

/// The ranks recorded in a score, most significant first.
pub open spec fn score_rank_list(score: u64) -> Seq<u8> {
    ranks_in_slots(score, 5)
}

pub open spec fn category_title(category: u8) -> Seq<char> {
    if category == 8 { "стрит-флеш"@ }
    else if category == 7 { "каре"@ }
    else if category == 6 { "фулл-хаус"@ }
    else if category == 5 { "флеш"@ }
    else if category == 4 { "стрит"@ }
    else if category == 3 { "сет"@ }
    else if category == 2 { "две пары"@ }
    else if category == 1 { "пара"@ }
    else { "старшая карта"@ }
}

/// The name of the category of a score.
pub fn hand_name(score: u64) -> (name: &'static str)
    ensures
        name@ == category_title(category_of(score)),
{
    match (score >> 24) as u8 {
        8 => "стрит-флеш",
        7 => "каре",
        6 => "фулл-хаус",
        5 => "флеш",
        4 => "стрит",
        3 => "сет",
        2 => "две пары",
        1 => "пара",
        _ => "старшая карта",
    }
}

/// The highest rank among the cards, 0 for no cards.
pub open spec fn max_rank(cs: Seq<Card>) -> u8
    decreases cs.len(),
{
    if cs.len() == 0 {
        0
    } else {
        let rest = max_rank(cs.drop_last());
        if cs.last().rank > rest { cs.last().rank } else { rest }
    }
}

/// The cards that only break ties inside the category of `score`.
pub open spec fn kickers_of(five: Seq<Card>, score: u64) -> Seq<Card> {
    let category = category_of(score);
    if category == 0 {
        five.filter(|c: Card| c.rank != max_rank(five))
    } else if category == 1 || category == 3 || category == 2 || category == 7 {
        five.filter(|c: Card| rank_count(five, c.rank as int) == 1)
    } else {
        seq![]
    }
}

fn highest_rank(cards: &[Card]) -> (high: u8)
    ensures
        high == max_rank(cards@),
{
    let mut high: u8 = 0;
    let mut i: usize = 0;
    while i < cards.len()
        invariant
            i <= cards@.len(),
            high == max_rank(cards@.take(i as int)),
        decreases cards@.len() - i,
    {
        assert(cards@.take(i + 1).drop_last() =~= cards@.take(i as int));
        if cards[i].rank > high {
            high = cards[i].rank;
        }
        i = i + 1;
    }
    assert(cards@.take(cards@.len() as int) =~= cards@);
    high
}

/// Counts of each rank (index = rank) among any number of cards.
fn count_all_ranks(cards: &[Card]) -> (counts: Vec<u8>)
    requires
        ranks_fit(cards@),
        forall|r: int| #[trigger] rank_count(cards@, r) < 256,
    ensures
        counts_match(counts@, cards@),
{
    let mut counts: Vec<u8> = Vec::new();
    let mut r: usize = 0;
    while r < 15
        invariant
            r <= 15,
            counts.len() == r,
            forall|q: int| 0 <= q < r ==> counts@[q] == 0,
        decreases 15 - r,
    {
        counts.push(0);
        r = r + 1;
    }
    let mut i: usize = 0;
    while i < cards.len()
        invariant
            i <= cards@.len(),
            ranks_fit(cards@),
            forall|r: int| #[trigger] rank_count(cards@, r) < 256,
            counts.len() == 15,
            forall|q: int|
                0 <= q < 15 ==> counts@[q] as nat == #[trigger] rank_count(cards@.take(i as int), q),
        decreases cards@.len() - i,
    {
        let c = cards[i];
        assert(cards@[i as int].rank <= 14);
        proof {
            lemma_rank_count_prefix(cards@, i as int + 1, c.rank as int);
        }
        let idx = c.rank as usize;
        let old_count = counts[idx];
        let ghost prefix = cards@.take(i + 1);
        assert(prefix.last() == c);
        assert(prefix.drop_last() =~= cards@.take(i as int));
        assert(old_count as nat == rank_count(cards@.take(i as int), idx as int));
        assert(rank_count(prefix, c.rank as int) == old_count + 1);
        assert(rank_count(cards@, c.rank as int) < 256);
        counts.set(idx, old_count + 1);
        assert forall|q: int| 0 <= q < 15 implies counts@[q] as nat == #[trigger] rank_count(
            cards@.take(i + 1),
            q,
        ) by {
            assert(rank_count(prefix, q) == rank_count(cards@.take(i as int), q) + (if c.rank
                == q { 1nat } else { 0nat }));
        }
        i = i + 1;
    }
    assert(cards@.take(cards@.len() as int) =~= cards@);
    counts
}

proof fn lemma_rank_count_prefix(cs: Seq<Card>, k: int, r: int)
    requires
        0 <= k <= cs.len(),
    ensures
        rank_count(cs.take(k), r) <= rank_count(cs, r),
    decreases cs.len(),
{
    if k < cs.len() {
        assert(cs.drop_last().take(k) =~= cs.take(k));
        lemma_rank_count_prefix(cs.drop_last(), k, r);
    } else {
        assert(cs.take(k) =~= cs);
    }
}

/// Returns cards that only break ties inside the same made-hand category.
pub fn kicker_cards(five: &[Card], score: u64) -> (kickers: Vec<Card>)
    requires
        ranks_fit(five@),
        forall|r: int| #[trigger] rank_count(five@, r) < 256,
    ensures
        kickers@ == kickers_of(five@, score),
{
    let category = (score >> 24) as u8;
    let counts = count_all_ranks(five);
    let mut kickers: Vec<Card> = Vec::new();
    if category == 0 {
        let highest = highest_rank(five);
        let ghost pred = |c: Card| c.rank != max_rank(five@);
        let mut i: usize = 0;
        while i < five.len()
            invariant
                i <= five@.len(),
                highest == max_rank(five@),
                pred == (|c: Card| c.rank != max_rank(five@)),
                kickers@ == five@.take(i as int).filter(pred),
            decreases five@.len() - i,
        {
            proof {
                reveal_with_fuel(Seq::<_>::filter, 1);
            }
            assert(five@.take(i + 1).drop_last() =~= five@.take(i as int));
            if five[i].rank != highest {
                kickers.push(five[i]);
            }
            i = i + 1;
        }
        assert(five@.take(five@.len() as int) =~= five@);
    } else if category == 1 || category == 3 || category == 2 || category == 7 {
        let ghost pred = |c: Card| rank_count(five@, c.rank as int) == 1;
        let mut i: usize = 0;
        while i < five.len()
            invariant
                i <= five@.len(),
                ranks_fit(five@),
                counts_match(counts@, five@),
                pred == (|c: Card| rank_count(five@, c.rank as int) == 1),
                kickers@ == five@.take(i as int).filter(pred),
            decreases five@.len() - i,
        {
            proof {
                reveal_with_fuel(Seq::<_>::filter, 1);
            }
            assert(five@.take(i + 1).drop_last() =~= five@.take(i as int));
            assert(five@[i as int].rank <= 14);
            if counts[five[i].rank as usize] == 1 {
                kickers.push(five[i]);
            }
            i = i + 1;
        }
        assert(five@.take(five@.len() as int) =~= five@);
    }
    kickers
}

proof fn lemma_slot_shift(score: u64)
    ensures
        nibble(score, 0) == (score >> 20u64) & 0xfu64,
        nibble(score, 1) == (score >> 16u64) & 0xfu64,
        nibble(score, 2) == (score >> 12u64) & 0xfu64,
        nibble(score, 3) == (score >> 8u64) & 0xfu64,
        nibble(score, 4) == (score >> 4u64) & 0xfu64,
{
    assert(((score >> 20u64) & 0xfu64) < 16) by (bit_vector);
    assert(((score >> 16u64) & 0xfu64) < 16) by (bit_vector);
    assert(((score >> 12u64) & 0xfu64) < 16) by (bit_vector);
    assert(((score >> 8u64) & 0xfu64) < 16) by (bit_vector);
    assert(((score >> 4u64) & 0xfu64) < 16) by (bit_vector);
}

fn score_ranks(score: u64) -> (ranks: Vec<u8>)
    ensures
        ranks@ == score_rank_list(score),
        forall|i: int| 0 <= i < ranks@.len() ==> 0 < #[trigger] ranks@[i] < 16,
{
    let mut ranks: Vec<u8> = Vec::new();
    let mut index: u64 = 0;
    while index < 5
        invariant
            index <= 5,
            ranks@ == ranks_in_slots(score, index as int),
            forall|i: int| 0 <= i < ranks@.len() ==> 0 < #[trigger] ranks@[i] < 16,
        decreases 5 - index,
    {
        let shift: u64 = 20 - index * 4;
        let rank = ((score >> shift) & 0xF) as u8;
        assert(((score >> shift) & 0xfu64) < 16) by (bit_vector);
        assert(rank == nibble(score, index as int));
        if rank > 0 {
            ranks.push(rank);
        }
        index = index + 1;
    }
    ranks
}

/// Rank names joined by dashes.
pub open spec fn joined_names(rs: Seq<u8>) -> Seq<char>
    decreases rs.len(),
{
    if rs.len() == 0 {
        seq![]
    } else if rs.len() == 1 {
        rank_name(rs[0] as int)
    } else {
        joined_names(rs.drop_last()) + "–"@ + rank_name(rs.last() as int)
    }
}

fn joined_ranks(ranks: &[u8]) -> (text: String)
    ensures
        text@ == joined_names(ranks@),
{
    let mut text = String::new();
    let mut i: usize = 0;
    while i < ranks.len()
        invariant
            i <= ranks@.len(),
            text@ == joined_names(ranks@.take(i as int)),
        decreases ranks@.len() - i,
    {
        let ghost prefix = ranks@.take(i + 1);
        assert(prefix.drop_last() =~= ranks@.take(i as int));
        if i > 0 {
            text.append("–");
        }
        text.append(rank_label(ranks[i]));
        i = i + 1;
    }
    assert(ranks@.take(ranks@.len() as int) =~= ranks@);
    text
}

/// Enough ranks are recorded in the score for its description.
pub open spec fn describable(score: u64) -> bool {
    let n = score_rank_list(score).len();
    let category = category_of(score);
    if category == 5 {
        true
    } else if category == 7 || category == 6 {
        n >= 2
    } else if category == 2 {
        n >= 3
    } else {
        n >= 1
    }
}

/// The words that describe a score.
pub open spec fn description(score: u64) -> Seq<char> {
    let rs = score_rank_list(score);
    let category = category_of(score);
    if category == 8 {
        "стрит-флеш до "@ + rank_name(rs[0] as int)
    } else if category == 7 {
        "каре "@ + rank_name(rs[0] as int) + ", кикер "@ + rank_name(rs[1] as int)
    } else if category == 6 {
        "фулл-хаус: "@ + rank_name(rs[0] as int) + " поверх "@ + rank_name(rs[1] as int)
    } else if category == 5 {
        "флеш "@ + joined_names(rs)
    } else if category == 4 {
        "стрит до "@ + rank_name(rs[0] as int)
    } else if category == 3 {
        "сет "@ + rank_name(rs[0] as int) + ", кикеры "@ + joined_names(rs.skip(1))
    } else if category == 2 {
        "две пары "@ + rank_name(rs[0] as int) + " и "@ + rank_name(rs[1] as int) + ", кикер "@
            + rank_name(rs[2] as int)
    } else if category == 1 {
        "пара "@ + rank_name(rs[0] as int) + ", кикеры "@ + joined_names(rs.skip(1))
    } else {
        "старшая "@ + rank_name(rs[0] as int) + ", далее "@ + joined_names(rs.skip(1))
    }
}

fn tail_ranks(ranks: &Vec<u8>) -> (tail: Vec<u8>)
    requires
        ranks@.len() >= 1,
    ensures
        tail@ == ranks@.skip(1),
{
    let mut tail: Vec<u8> = Vec::new();
    let mut i: usize = 1;
    while i < ranks.len()
        invariant
            1 <= i <= ranks@.len(),
            tail@ == ranks@.subrange(1, i as int),
        decreases ranks@.len() - i,
    {
        tail.push(ranks[i]);
        assert(tail@ =~= ranks@.subrange(1, i + 1));
        i = i + 1;
    }
    assert(ranks@.subrange(1, ranks@.len() as int) =~= ranks@.skip(1));
    tail
}

/// Describes a score in words: its category and the ranks that make it.
pub fn describe_hand(score: u64) -> (text: String)
    requires
        describable(score),
    ensures
        text@ == description(score),
{
    let ranks = score_ranks(score);
    let category = (score >> 24) as u8;
    if category == 8 {
        join2("стрит-флеш до ", rank_label(ranks[0]))
    } else if category == 7 {
        join2("каре ", rank_label(ranks[0])).concat(", кикер ").concat(rank_label(ranks[1]))
    } else if category == 6 {
        join2("фулл-хаус: ", rank_label(ranks[0])).concat(" поверх ").concat(
            rank_label(ranks[1]),
        )
    } else if category == 5 {
        let joined = joined_ranks(ranks.as_slice());
        join2("флеш ", joined.as_str())
    } else if category == 4 {
        join2("стрит до ", rank_label(ranks[0]))
    } else if category == 3 {
        let joined = joined_ranks(tail_ranks(&ranks).as_slice());
        join2("сет ", rank_label(ranks[0])).concat(", кикеры ").concat(joined.as_str())
    } else if category == 2 {
        join2("две пары ", rank_label(ranks[0])).concat(" и ").concat(
            rank_label(ranks[1]),
        ).concat(", кикер ").concat(rank_label(ranks[2]))
    } else if category == 1 {
        let joined = joined_ranks(tail_ranks(&ranks).as_slice());
        join2("пара ", rank_label(ranks[0])).concat(", кикеры ").concat(joined.as_str())
    } else {
        let joined = joined_ranks(tail_ranks(&ranks).as_slice());
        join2("старшая ", rank_label(ranks[0])).concat(", далее ").concat(joined.as_str())
    }
}


/// The first position at or after `i` where the two rank lists differ.
pub open spec fn first_difference(a: Seq<u8>, b: Seq<u8>, i: int) -> Option<int>
    decreases a.len() - i,
{
    if i < 0 || i >= a.len() || i >= b.len() {
        None
    } else if a[i] != b[i] {
        Some(i)
    } else {
        first_difference(a, b, i + 1)
    }
}

/// What decided between two hands of one category, by the first differing rank.
pub open spec fn deciding_criterion(category: u8, index: int) -> Seq<char> {
    if category == 8 || category == 4 {
        "старшая карта стрита"@
    } else if category == 7 {
        if index == 0 { "ранг каре"@ } else { "кикер"@ }
    } else if category == 6 {
        if index == 0 { "ранг тройки"@ } else { "ранг пары"@ }
    } else if category == 5 || category == 0 {
        if index == 0 { "старшая карта"@ } else { "следующая карта"@ }
    } else if category == 3 {
        if index == 0 { "ранг сета"@ } else { "кикер"@ }
    } else if category == 2 {
        if index == 0 { "старшая пара"@ } else if index == 1 { "младшая пара"@ } else { "кикер"@ }
    } else if category == 1 {
        if index == 0 { "ранг пары"@ } else { "кикер"@ }
    } else {
        "решающая карта"@
    }
}

/// Why the `loser` score lost to the `winner` score.
pub open spec fn loss_explanation(winner: u64, loser: u64) -> Seq<char> {
    let wc = category_of(winner);
    let lc = category_of(loser);
    let wr = score_rank_list(winner);
    let lr = score_rank_list(loser);
    if wc != lc {
        category_title(wc) + " сильнее, чем "@ + category_title(lc) + "."@
    } else {
        match first_difference(wr, lr, 0) {
            None => "Пять лучших карт равны — банк должен быть разделён."@,
            Some(index) => "Решил "@ + deciding_criterion(wc, index) + ": "@ + rank_name(
                wr[index] as int,
            ) + " против "@ + rank_name(lr[index] as int) + "."@,
        }
    }
}

proof fn lemma_first_difference_at(a: Seq<u8>, b: Seq<u8>, j: int, i: int)
    requires
        0 <= j <= i < a.len(),
        i < b.len(),
        a[i] != b[i],
        forall|k: int| j <= k < i ==> a[k] == b[k],
    ensures
        first_difference(a, b, j) == Some(i),
    decreases i - j,
{
    if j < i {
        lemma_first_difference_at(a, b, j + 1, i);
    }
}

proof fn lemma_no_difference(a: Seq<u8>, b: Seq<u8>, j: int)
    requires
        0 <= j,
        a.len() == b.len(),
        forall|k: int| j <= k < a.len() ==> a[k] == b[k],
    ensures
        first_difference(a, b, j) is None,
    decreases a.len() - j,
{
    if j < a.len() {
        lemma_no_difference(a, b, j + 1);
    }
}

/// Between two hands of one category, the explanation names the first rank,
/// in order of importance, at which the two hands differ (every rank before
/// it being equal), with what that rank decided; when all the ranks agree
/// it says the pot is split.
pub proof fn lemma_loss_named_at_first_difference(winner: u64, loser: u64, i: int)
    requires
        category_of(winner) == category_of(loser),
        0 <= i < score_rank_list(winner).len(),
        i < score_rank_list(loser).len(),
        score_rank_list(winner)[i] != score_rank_list(loser)[i],
        forall|k: int| 0 <= k < i ==> score_rank_list(winner)[k] == score_rank_list(loser)[k],
    ensures
        loss_explanation(winner, loser) == "Решил "@ + deciding_criterion(category_of(winner), i)
            + ": "@ + rank_name(score_rank_list(winner)[i] as int) + " против "@ + rank_name(
            score_rank_list(loser)[i] as int,
        ) + "."@,
{
    lemma_first_difference_at(score_rank_list(winner), score_rank_list(loser), 0, i);
}

/// Two hands of one category with the same ranks are a split pot.
pub proof fn lemma_equal_ranks_split(winner: u64, loser: u64)
    requires
        category_of(winner) == category_of(loser),
        score_rank_list(winner) == score_rank_list(loser),
    ensures
        loss_explanation(winner, loser) == "Пять лучших карт равны — банк должен быть разделён."@,
{
    lemma_no_difference(score_rank_list(winner), score_rank_list(loser), 0);
}

fn criterion_text(category: u8, index: usize) -> (text: &'static str)
    ensures
        text@ == deciding_criterion(category, index as int),
{
    match category {
        8 | 4 => "старшая карта стрита",
        7 => if index == 0 { "ранг каре" } else { "кикер" },
        6 => if index == 0 { "ранг тройки" } else { "ранг пары" },
        5 | 0 => if index == 0 { "старшая карта" } else { "следующая карта" },
        3 => if index == 0 { "ранг сета" } else { "кикер" },
        2 => if index == 0 { "старшая пара" } else if index == 1 { "младшая пара" } else { "кикер" },
        1 => if index == 0 { "ранг пары" } else { "кикер" },
        _ => "решающая карта",
    }
}

/// Explains, in words, what made `winner` beat `loser`.
pub fn explain_loss(winner: u64, loser: u64) -> (text: String)
    ensures
        text@ == loss_explanation(winner, loser),
{
    let winner_category = (winner >> 24) as u8;
    let loser_category = (loser >> 24) as u8;
    if winner_category != loser_category {
        return join2(hand_name(winner), " сильнее, чем ").concat(hand_name(loser)).concat(".");
    }
    let winner_ranks = score_ranks(winner);
    let loser_ranks = score_ranks(loser);
    let ghost wr = winner_ranks@;
    let ghost lr = loser_ranks@;
    let mut index: usize = 0;
    while index < winner_ranks.len() && index < loser_ranks.len() && winner_ranks[index]
        == loser_ranks[index]
        invariant
            wr == winner_ranks@,
            lr == loser_ranks@,
            index <= wr.len(),
            index <= lr.len(),
            first_difference(wr, lr, 0) == first_difference(wr, lr, index as int),
        decreases wr.len() - index,
    {
        index = index + 1;
    }
    if index >= winner_ranks.len() || index >= loser_ranks.len() {
        return String::from_str("Пять лучших карт равны — банк должен быть разделён.");
    }
    join2("Решил ", criterion_text(winner_category, index)).concat(": ").concat(
        rank_label(winner_ranks[index]),
    ).concat(" против ").concat(rank_label(loser_ranks[index])).concat(".")
}


proof fn lemma_pack_bits(x: u64, c: u64, a: u64, b: u64, d: u64, e: u64, f: u64)
    by (bit_vector)
    requires
        c < 256,
        a < 16,
        b < 16,
        d < 16,
        e < 16,
        f < 16,
        x == c * 0x1000000 + a * 0x100000 + b * 0x10000 + d * 0x1000 + e * 0x100 + f * 0x10,
    ensures
        x & 0xfu64 == 0,
        (x >> 24u64) as u8 == c,
        (x >> 20u64) & 0xfu64 == a,
        (x >> 16u64) & 0xfu64 == b,
        (x >> 12u64) & 0xfu64 == d,
        (x >> 8u64) & 0xfu64 == e,
        (x >> 4u64) & 0xfu64 == f,
{
}

proof fn lemma_slots(score: u64, rs: Seq<u8>, k: int)
    requires
        0 <= k <= 5,
        forall|i: int| 0 <= i < 5 ==> #[trigger] nibble(score, i) == rank_at(rs, i),
        forall|i: int| 0 <= i < rs.len() ==> #[trigger] rs[i] >= 1,
    ensures
        ranks_in_slots(score, k) == rs.take(if k < rs.len() { k } else { rs.len() as int }),
    decreases k,
{
    if k > 0 {
        lemma_slots(score, rs, k - 1);
        assert(nibble(score, k - 1) == rank_at(rs, k - 1));
        if k - 1 < rs.len() {
            assert(rs.take(k) =~= rs.take(k - 1).push(rs[k - 1]));
        }
    }
}

/// The first five of a list of ranks (all of them when there are fewer).
pub open spec fn first_five(rs: Seq<u8>) -> Seq<u8> {
    rs.take(if 5 < rs.len() { 5 } else { rs.len() as int })
}

/// Reading a packed score back gives the category byte and the ranks again,
/// for any category and up to five ranks from 1 to 15.
pub proof fn lemma_pack_decoded(category: u8, rs: Seq<u8>)
    requires
        rs.len() <= 5,
        forall|i: int| 0 <= i < rs.len() ==> 1 <= #[trigger] rs[i] <= 15,
    ensures
        0 <= pack_score(category as int, rs) < 0x100000000,
        category_of(pack_score(category as int, rs) as u64) == category,
        score_rank_list(pack_score(category as int, rs) as u64) == rs,
{
    assert forall|i: int| 0 <= i < 5 implies 0 <= #[trigger] rank_at(rs, i) < 16 by {
        if i < rs.len() {
            assert(1 <= rs[i] <= 15);
        }
    }
    let x = pack_score(category as int, rs) as u64;
    assert(x == pack_score(category as int, rs));
    lemma_pack_bits(
        x,
        category as u64,
        rank_at(rs, 0) as u64,
        rank_at(rs, 1) as u64,
        rank_at(rs, 2) as u64,
        rank_at(rs, 3) as u64,
        rank_at(rs, 4) as u64,
    );
    lemma_slot_shift(x);
    assert forall|i: int| 0 <= i < 5 implies #[trigger] nibble(x, i) == rank_at(rs, i) by {
        if i == 0 {
        } else if i == 1 {
        } else if i == 2 {
        } else if i == 3 {
        } else {
        }
    }
    lemma_slots(x, rs, 5);
    assert(rs.take(rs.len() as int) =~= rs);
}

/// The layout of the best score of valid cards: above zero, the category
/// (at most 8) in the byte above bit 24, then five four-bit slots from bit
/// 20 down to bit 4, each holding a rank from 2 to 14 or 0, the ranks
/// before the empty slots; the lowest four bits are 0.
pub proof fn lemma_score_layout(cs: Seq<Card>, score: u64)
    requires
        all_valid(cs),
        is_best_score(cs, score as int),
    ensures
        0 < score,
        category_of(score) <= 8,
        score & 0xfu64 == 0,
        forall|i: int|
            0 <= i < 5 ==> #[trigger] nibble(score, i) == 0 || 2 <= nibble(score, i) <= 14,
        forall|i: int, j: int|
            0 <= i < j < 5 && #[trigger] nibble(score, i) == 0 ==> #[trigger] nibble(score, j)
                == 0,
{
    lemma_best_score_of_five(cs, score as int);
    let t = choose|t: (int, int, int, int, int)|
        is_combo(cs.len() as int, t) && #[trigger] combo_score(cs, t) == score && all_valid(
            combo(cs, t),
        ) && combo(cs, t).len() == 5;
    let five = combo(cs, t);
    lemma_five_score_decoded(five);
    lemma_hand_ranks_small(five);
    lemma_score_in_category(five);
    let rs = hand_ranks(five);
    assert(five_score(five) as u64 == score);
    assert forall|i: int| 0 <= i < 5 implies #[trigger] nibble(score, i) == 0 || 2 <= nibble(
        score,
        i,
    ) <= 14 by {
        assert(nibble(score, i) == rank_at(rs, i));
    }
    assert forall|i: int, j: int|
        0 <= i < j < 5 && #[trigger] nibble(score, i) == 0 implies #[trigger] nibble(score, j)
        == 0 by {
        assert(nibble(score, i) == rank_at(rs, i));
        assert(nibble(score, j) == rank_at(rs, j));
        if i < rs.len() {
            assert(2 <= rs[i]);
        }
    }
}

/// What a five-card score records: its category and its ranks.
pub proof fn lemma_five_score_decoded(cs: Seq<Card>)
    requires
        cs.len() == 5,
        all_valid(cs),
    ensures
        0 < five_score(cs) < 0x1000000000,
        category_of(five_score(cs) as u64) == hand_category(cs),
        score_rank_list(five_score(cs) as u64) == first_five(hand_ranks(cs)),
        (five_score(cs) as u64) & 0xfu64 == 0,
        forall|i: int|
            0 <= i < 5 ==> #[trigger] nibble(five_score(cs) as u64, i) == rank_at(hand_ranks(cs), i),
{
    let rs = hand_ranks(cs);
    lemma_hand_ranks_small(cs);
    lemma_five_score_positive(cs);
    let x = five_score(cs) as u64;
    assert(x == five_score(cs));
    lemma_pack_bits(
        x,
        hand_category(cs) as u64,
        rank_at(rs, 0) as u64,
        rank_at(rs, 1) as u64,
        rank_at(rs, 2) as u64,
        rank_at(rs, 3) as u64,
        rank_at(rs, 4) as u64,
    );
    lemma_slot_shift(x);
    assert forall|i: int| 0 <= i < 5 implies #[trigger] nibble(x, i) == rank_at(rs, i) by {
        if i == 0 {
        } else if i == 1 {
        } else if i == 2 {
        } else if i == 3 {
        } else {
        }
    }
    lemma_slots(x, rs, 5);
}

proof fn lemma_ranks_with_count_props(cs: Seq<Card>, k: nat, top: int)
    requires
        top <= 14,
    ensures
        forall|i: int|
            0 <= i < ranks_with_count(cs, k, top).len() ==> rank_count(
                cs,
                #[trigger] ranks_with_count(cs, k, top)[i] as int,
            ) == k,
        forall|i: int, j: int|
            0 <= i < j < ranks_with_count(cs, k, top).len() ==> #[trigger] ranks_with_count(
                cs,
                k,
                top,
            )[i] > #[trigger] ranks_with_count(cs, k, top)[j],
    decreases top,
{
    if top >= 2 {
        lemma_ranks_with_count_props(cs, k, top - 1);
        lemma_ranks_with_count_bound(cs, k, top - 1);
        let rest = ranks_with_count(cs, k, top - 1);
        let all = ranks_with_count(cs, k, top);
        if rank_count(cs, top) == k {
            assert forall|i: int| 0 <= i < all.len() implies rank_count(
                cs,
                #[trigger] all[i] as int,
            ) == k by {
                if i > 0 {
                    assert(all[i] == rest[i - 1]);
                }
            }
            assert forall|i: int, j: int| 0 <= i < j < all.len() implies #[trigger] all[i]
                > #[trigger] all[j] by {
                assert(all[j] == rest[j - 1]);
                if i > 0 {
                    assert(all[i] == rest[i - 1]);
                }
            }
        }
    }
}

proof fn lemma_counts_disjoint(cs: Seq<Card>, q: int, r: int, t: int)
    requires
        q != r,
        q != t,
        r != t,
    ensures
        rank_count(cs, q) + rank_count(cs, r) + rank_count(cs, t) <= cs.len(),
    decreases cs.len(),
{
    if cs.len() > 0 {
        lemma_counts_disjoint(cs.drop_last(), q, r, t);
    }
}

/// Some card has a rank other than `q` and `r` when those two ranks do not
/// account for every card.
proof fn lemma_other_rank(cs: Seq<Card>, q: int, r: int) -> (i: int)
    requires
        rank_count(cs, q) + rank_count(cs, r) < cs.len(),
    ensures
        0 <= i < cs.len(),
        cs[i].rank != q,
        cs[i].rank != r,
    decreases cs.len(),
{
    if cs.last().rank != q && cs.last().rank != r {
        (cs.len() - 1) as int
    } else {
        lemma_other_rank(cs.drop_last(), q, r)
    }
}

/// With two groups accounting for four of five cards, the fifth is a single.
proof fn lemma_single_left(cs: Seq<Card>, q: int, r: int)
    requires
        cs.len() == 5,
        all_valid(cs),
        q != r,
        rank_count(cs, q) + rank_count(cs, r) == 4,
    ensures
        ranks_with_count(cs, 1, 14).len() > 0,
{
    let i = lemma_other_rank(cs, q, r);
    assert(valid_card(cs[i]));
    let t = cs[i].rank as int;
    lemma_rank_count_positive(cs, i);
    lemma_counts_disjoint(cs, q, r, t);
    lemma_count_nonempty(cs, 1, 14, t);
}

/// Every five-card score records enough ranks to be described in words.
pub proof fn lemma_five_score_describable(cs: Seq<Card>)
    requires
        cs.len() == 5,
        all_valid(cs),
    ensures
        describable(five_score(cs) as u64),
{
    lemma_five_score_decoded(cs);
    lemma_five_score_positive(cs);
    let quads = ranks_with_count(cs, 4, 14);
    let trips = ranks_with_count(cs, 3, 14);
    let pairs = ranks_with_count(cs, 2, 14);
    let singles = ranks_with_count(cs, 1, 14);
    let c = hand_category(cs);
    if c == 7 {
        lemma_ranks_with_count_props(cs, 4, 14);
        lemma_ranks_with_count_bound(cs, 4, 14);
        assert(rank_count(cs, quads[0] as int) == 4);
        assert(rank_count(cs, 0) == 0) by {
            lemma_zero_rank_absent(cs);
        }
        lemma_single_left(cs, quads[0] as int, 0);
    } else if c == 2 {
        lemma_ranks_with_count_props(cs, 2, 14);
        assert(pairs[0] > pairs[1]);
        lemma_single_left(cs, pairs[0] as int, pairs[1] as int);
    }
}

proof fn lemma_zero_rank_absent(cs: Seq<Card>)
    requires
        all_valid(cs),
    ensures
        rank_count(cs, 0) == 0,
    decreases cs.len(),
{
    if cs.len() > 0 {
        assert(valid_card(cs[cs.len() - 1]));
        assert(all_valid(cs.drop_last())) by {
            assert forall|i: int| 0 <= i < cs.drop_last().len() implies valid_card(#[trigger] cs.drop_last()[i]) by {
                assert(valid_card(cs[i]));
            }
        }
        lemma_zero_rank_absent(cs.drop_last());
    }
}


/// A stack of cards; cards are drawn from the end.
pub struct Deck {
    cards: Vec<Card>,
}

impl View for Deck {
    type V = Seq<Card>;

    closed spec fn view(&self) -> Seq<Card> {
        self.cards@
    }
}

pub open spec fn suit_at(i: int) -> Suit {
    if i == 0 {
        Suit::Clubs
    } else if i == 1 {
        Suit::Diamonds
    } else if i == 2 {
        Suit::Hearts
    } else {
        Suit::Spades
    }
}

/// The 52 cards of a standard deck, suit by suit, each from 2 up to the ace.
pub open spec fn standard_deck() -> Seq<Card> {
    Seq::new(52, |i: int| Card { rank: (2 + i % 13) as u8, suit: suit_at(i / 13) })
}

/// `SliceRandom::shuffle` of `rand`, driven by the thread-local generator
/// `rand::rng()`. Which order comes out is chance; the contract claims only
/// that the items are rearranged: the same items, each as often as before.
#[verifier::external_body]
pub(crate) fn shuffle_in_place<T>(items: &mut Vec<T>)
    ensures
        final(items)@.len() == old(items)@.len(),
        final(items)@.to_multiset() == old(items)@.to_multiset(),
{
    items.shuffle(&mut rand::rng());
}

/// Cards of a sequence rearranged from valid cards are valid.
pub proof fn lemma_valid_rearranged(s: Seq<Card>, t: Seq<Card>)
    requires
        s.to_multiset() == t.to_multiset(),
        all_valid(t),
    ensures
        all_valid(s),
{
    broadcast use vstd::seq_lib::group_to_multiset_ensures;

    assert forall|i: int| 0 <= i < s.len() implies valid_card(#[trigger] s[i]) by {
        assert(s.contains(s[i]));
        assert(s.to_multiset().count(s[i]) > 0);
        assert(t.contains(s[i]));
        let j = choose|j: int| 0 <= j < t.len() && t[j] == s[i];
        assert(valid_card(t[j]));
    }
}

/// A standard deck holds every card once.
pub proof fn lemma_standard_deck_distinct()
    ensures
        standard_deck().no_duplicates(),
        forall|c: Card| #[trigger] standard_deck().to_multiset().count(c) <= 1,
{
    let d = standard_deck();
    assert forall|i: int, j: int| 0 <= i < d.len() && 0 <= j < d.len() && i != j implies d[i]
        != d[j] by {
        if d[i] == d[j] {
            assert(i % 13 == j % 13);
            assert(0 <= i / 13 < 4 && 0 <= j / 13 < 4) by (nonlinear_arith)
                requires
                    0 <= i < 52,
                    0 <= j < 52,
            ;
            assert(suit_at(i / 13) == suit_at(j / 13));
            assert(i / 13 == j / 13);
            assert(i == 13 * (i / 13) + i % 13) by (nonlinear_arith);
            assert(j == 13 * (j / 13) + j % 13) by (nonlinear_arith);
        }
    }
    d.lemma_multiset_has_no_duplicates();
    assert forall|c: Card| #[trigger] d.to_multiset().count(c) <= 1 by {
        if d.to_multiset().count(c) > 1 {
            assert(d.to_multiset().contains(c));
        }
    }
}

impl Deck {
    /// A freshly shuffled standard deck.
    pub fn shuffled() -> (deck: Self)
        ensures
            deck@.len() == 52,
            deck@.to_multiset() == standard_deck().to_multiset(),
            all_valid(deck@),
    {
        let mut cards: Vec<Card> = Vec::with_capacity(52);
        let suits = [Suit::Clubs, Suit::Diamonds, Suit::Hearts, Suit::Spades];
        let mut s: usize = 0;
        while s < 4
            invariant
                s <= 4,
                suits@ == seq![Suit::Clubs, Suit::Diamonds, Suit::Hearts, Suit::Spades],
                cards@ == standard_deck().take(13 * s as int),
            decreases 4 - s,
        {
            let suit = suits[s];
            let mut rank: u8 = 2;
            while rank <= 14
                invariant
                    s < 4,
                    2 <= rank <= 15,
                    suit == suit_at(s as int),
                    cards@ == standard_deck().take(13 * s + rank - 2),
                decreases 15 - rank,
            {
                let ghost k = 13 * s + rank - 2;
                assert(k / 13 == s as int && k % 13 == rank - 2) by (nonlinear_arith)
                    requires
                        k == 13 * s + rank - 2,
                        2 <= rank <= 14,
                ;
                cards.push(Card { rank, suit });
                assert(cards@ =~= standard_deck().take(k + 1));
                rank = rank + 1;
            }
            s = s + 1;
        }
        assert(cards@ =~= standard_deck());
        let ghost before = cards@;
        shuffle_in_place(&mut cards);
        proof {
            lemma_valid_rearranged(cards@, before);
        }
        Deck { cards }
    }

    /// The number of cards left.
    pub fn len(&self) -> (n: usize)
        ensures
            n == self@.len(),
    {
        self.cards.len()
    }

    /// Takes the top card.
    pub fn draw(&mut self) -> (card: Card)
        requires
            old(self)@.len() > 0,
        ensures
            card == old(self)@.last(),
            final(self)@ == old(self)@.drop_last(),
    {
        self.cards.pop().unwrap()
    }
}

/// What a score of a set of cards holds: a score of five of them.
pub proof fn lemma_best_score_of_five(cs: Seq<Card>, score: int)
    requires
        all_valid(cs),
        is_best_score(cs, score),
    ensures
        exists|t: (int, int, int, int, int)|
            is_combo(cs.len() as int, t) && #[trigger] combo_score(cs, t) == score && all_valid(
                combo(cs, t),
            ) && combo(cs, t).len() == 5,
{
    let t = choose|t: (int, int, int, int, int)|
        is_combo(cs.len() as int, t) && combo_score(cs, t) == score;
    assert(all_valid(combo(cs, t))) by {
        assert(valid_card(cs[t.0]));
        assert(valid_card(cs[t.1]));
        assert(valid_card(cs[t.2]));
        assert(valid_card(cs[t.3]));
        assert(valid_card(cs[t.4]));
    }
}

/// The best score of valid cards can always be put into words.
pub proof fn lemma_best_score_describable(cs: Seq<Card>, score: int)
    requires
        all_valid(cs),
        is_best_score(cs, score),
    ensures
        0 < score < 0x1000000000,
        describable(score as u64),
{
    lemma_best_score_of_five(cs, score);
    let t = choose|t: (int, int, int, int, int)|
        is_combo(cs.len() as int, t) && #[trigger] combo_score(cs, t) == score && all_valid(
            combo(cs, t),
        ) && combo(cs, t).len() == 5;
    lemma_five_score_describable(combo(cs, t));
    lemma_five_score_decoded(combo(cs, t));
}


proof fn lemma_score_in_category(cs: Seq<Card>)
    requires
        cs.len() == 5,
        all_valid(cs),
    ensures
        hand_category(cs) * 0x1000000 <= five_score(cs) < (hand_category(cs) + 1) * 0x1000000,
{
    lemma_hand_ranks_small(cs);
    let rs = hand_ranks(cs);
    assert(0 <= rank_at(rs, 0) <= 14);
    assert(0 <= rank_at(rs, 1) <= 14);
    assert(0 <= rank_at(rs, 2) <= 14);
    assert(0 <= rank_at(rs, 3) <= 14);
    assert(0 <= rank_at(rs, 4) <= 14);
}

/// A hand of a higher category always outscores a hand of a lower one,
/// whatever the ranks inside either.
pub proof fn lemma_higher_category_wins(x: Seq<Card>, y: Seq<Card>)
    requires
        x.len() == 5,
        y.len() == 5,
        all_valid(x),
        all_valid(y),
        hand_category(x) > hand_category(y),
    ensures
        five_score(x) > five_score(y),
{
    lemma_score_in_category(x);
    lemma_score_in_category(y);
}

/// The score of exactly five cards is the score of that hand.
pub proof fn lemma_best_of_five(cs: Seq<Card>, score: int)
    requires
        cs.len() == 5,
        is_best_score(cs, score),
    ensures
        score == five_score(cs),
{
    let t = choose|t: (int, int, int, int, int)| is_combo(5, t) && combo_score(cs, t) == score;
    assert(combo(cs, t) =~= cs);
}

/// The cards of `t` whose rank passes `mask`, counted rank by rank from
/// `top` down to 2.
pub open spec fn masked_sum(t: Seq<Card>, mask: spec_fn(int) -> bool, top: int) -> int
    decreases top,
{
    if top < 2 {
        0
    } else {
        masked_sum(t, mask, top - 1) + (if mask(top) { rank_count(t, top) as int } else { 0 })
    }
}

proof fn lemma_masked_sum_last(t: Seq<Card>, mask: spec_fn(int) -> bool, top: int)
    requires
        t.len() > 0,
    ensures
        masked_sum(t, mask, top) == masked_sum(t.drop_last(), mask, top) + (if 2 <= t.last().rank
            <= top && mask(t.last().rank as int) {
            1int
        } else {
            0int
        }),
    decreases top,
{
    if top >= 2 {
        lemma_masked_sum_last(t, mask, top - 1);
    }
}

proof fn lemma_masked_empty(t: Seq<Card>, mask: spec_fn(int) -> bool, top: int)
    requires
        t.len() == 0,
    ensures
        masked_sum(t, mask, top) == 0,
    decreases top,
{
    if top >= 2 {
        lemma_masked_empty(t, mask, top - 1);
    }
}

proof fn lemma_masked_filter(t: Seq<Card>, mask: spec_fn(int) -> bool)
    requires
        all_valid(t),
    ensures
        t.filter(|c: Card| mask(c.rank as int)).len() == masked_sum(t, mask, 14),
    decreases t.len(),
{
    reveal_with_fuel(Seq::<_>::filter, 1);
    if t.len() > 0 {
        assert(all_valid(t.drop_last())) by {
            assert forall|i: int| 0 <= i < t.drop_last().len() implies valid_card(
                #[trigger] t.drop_last()[i],
            ) by {
                assert(valid_card(t[i]));
            }
        }
        assert(valid_card(t[t.len() - 1]));
        lemma_masked_filter(t.drop_last(), mask);
        lemma_masked_sum_last(t, mask, 14);
    } else {
        lemma_masked_empty(t, mask, 14);
    }
}

proof fn lemma_masked_all(t: Seq<Card>)
    requires
        all_valid(t),
    ensures
        masked_sum(t, |r: int| true, 14) == t.len(),
    decreases t.len(),
{
    if t.len() > 0 {
        assert(all_valid(t.drop_last())) by {
            assert forall|i: int| 0 <= i < t.drop_last().len() implies valid_card(
                #[trigger] t.drop_last()[i],
            ) by {
                assert(valid_card(t[i]));
            }
        }
        assert(valid_card(t[t.len() - 1]));
        lemma_masked_all(t.drop_last());
        lemma_masked_sum_last(t, |r: int| true, 14);
    } else {
        lemma_masked_empty(t, |r: int| true, 14);
    }
}

proof fn lemma_masked_singles(cs: Seq<Card>, top: int)
    requires
        top <= 14,
    ensures
        masked_sum(cs, |r: int| rank_count(cs, r) == 1, top) == ranks_with_count(cs, 1, top).len(),
    decreases top,
{
    if top >= 2 {
        lemma_masked_singles(cs, top - 1);
    }
}

proof fn lemma_masked_counts(cs: Seq<Card>, top: int)
    requires
        top <= 14,
        forall|r: int| #[trigger] rank_count(cs, r) <= 4,
    ensures
        masked_sum(cs, |r: int| true, top) == ranks_with_count(cs, 1, top).len() + 2
            * ranks_with_count(cs, 2, top).len() + 3 * ranks_with_count(cs, 3, top).len() + 4
            * ranks_with_count(cs, 4, top).len(),
    decreases top,
{
    if top >= 2 {
        lemma_masked_counts(cs, top - 1);
        assert(rank_count(cs, top) <= 4);
    }
}

proof fn lemma_masked_but_one(cs: Seq<Card>, x: int, top: int)
    ensures
        masked_sum(cs, |r: int| r != x, top) == masked_sum(cs, |r: int| true, top) - (if 2 <= x
            <= top {
            rank_count(cs, x) as int
        } else {
            0int
        }),
    decreases top,
{
    if top >= 2 {
        lemma_masked_but_one(cs, x, top - 1);
    }
}

proof fn lemma_max_rank_present(t: Seq<Card>)
    requires
        t.len() > 0,
    ensures
        rank_count(t, max_rank(t) as int) >= 1,
    decreases t.len(),
{
    let m = max_rank(t) as int;
    assert(rank_count(t, m) == rank_count(t.drop_last(), m) + (if t.last().rank == m {
        1nat
    } else {
        0nat
    }));
    if t.len() > 1 {
        lemma_max_rank_present(t.drop_last());
    } else {
        assert(max_rank(t.drop_last()) == 0);
    }
}

proof fn lemma_max_rank_valid(t: Seq<Card>)
    requires
        t.len() > 0,
        all_valid(t),
    ensures
        2 <= max_rank(t) <= 14,
    decreases t.len(),
{
    assert(valid_card(t[t.len() - 1]));
    if t.len() == 1 {
        assert(max_rank(t.drop_last()) == 0);
    } else {
        assert(all_valid(t.drop_last())) by {
            assert forall|i: int| 0 <= i < t.drop_last().len() implies valid_card(
                #[trigger] t.drop_last()[i],
            ) by {
                assert(valid_card(t[i]));
            }
        }
        lemma_max_rank_valid(t.drop_last());
    }
}

/// How many kickers a hand of category `category` has.
pub open spec fn kicker_count(category: int) -> int {
    if category == 0 {
        4
    } else if category == 1 {
        3
    } else if category == 3 {
        2
    } else if category == 2 || category == 7 {
        1
    } else {
        0
    }
}

/// The kickers of a five-card hand in which no rank occurs more than four
/// times (as in any hand from one deck): four for a high card, three beside
/// a pair, two beside a set, one beside two pairs or four of a kind, and
/// none in a straight, flush, full house or straight flush.
pub proof fn lemma_kicker_count(five: Seq<Card>)
    requires
        five.len() == 5,
        all_valid(five),
        forall|r: int| #[trigger] rank_count(five, r) <= 4,
    ensures
        kickers_of(five, five_score(five) as u64).len() == kicker_count(hand_category(five)),
{
    lemma_five_score_decoded(five);
    let c = hand_category(five);
    let singles = |r: int| rank_count(five, r) == 1;
    lemma_masked_all(five);
    lemma_masked_counts(five, 14);
    lemma_masked_singles(five, 14);
    lemma_masked_filter(five, singles);
    assert((|c: Card| rank_count(five, c.rank as int) == 1) =~= (|c: Card| singles(c.rank as int)));
    let s = ranks_with_count(five, 1, 14).len();
    let p = ranks_with_count(five, 2, 14).len();
    let t = ranks_with_count(five, 3, 14).len();
    let q = ranks_with_count(five, 4, 14).len();
    assert(s + 2 * p + 3 * t + 4 * q == 5);
    if c == 0 {
        let mx = max_rank(five) as int;
        let others = |r: int| r != mx;
        lemma_masked_filter(five, others);
        assert((|c: Card| c.rank != max_rank(five)) =~= (|c: Card| others(c.rank as int)));
        lemma_masked_but_one(five, mx, 14);
        lemma_max_rank_present(five);
        lemma_max_rank_valid(five);
        if rank_count(five, mx) >= 2 {
            let k = rank_count(five, mx);
            lemma_count_nonempty(five, k, 14, mx);
        }
        assert(rank_count(five, mx) == 1);
    }
}

/// The same number of cards of every rank.
pub open spec fn same_rank_counts(a: Seq<Card>, b: Seq<Card>) -> bool {
    forall|r: int| #[trigger] rank_count(a, r) == rank_count(b, r)
}

proof fn lemma_same_counts_lists(a: Seq<Card>, b: Seq<Card>, top: int)
    requires
        same_rank_counts(a, b),
    ensures
        forall|k: nat| #[trigger] ranks_with_count(a, k, top) == ranks_with_count(b, k, top),
        ranks_present(a, top) == ranks_present(b, top),
        straight_high_from(a, top) == straight_high_from(b, top),
    decreases top,
{
    if top >= 2 {
        lemma_same_counts_lists(a, b, top - 1);
        assert(rank_count(a, top) == rank_count(b, top));
        assert forall|k: nat| #[trigger] ranks_with_count(a, k, top) == ranks_with_count(b, k, top) by {
            assert(ranks_with_count(a, k, top - 1) == ranks_with_count(b, k, top - 1));
        }
        assert(forall|r: int| #[trigger] rank_present(a, r) == rank_present(b, r)) by {
            assert forall|r: int| #[trigger] rank_present(a, r) == rank_present(b, r) by {
                assert(rank_count(a, if r == 1 { 14 } else { r }) == rank_count(
                    b,
                    if r == 1 { 14 } else { r },
                ));
            }
        }
    }
}

proof fn lemma_same_counts_score(a: Seq<Card>, b: Seq<Card>)
    requires
        same_rank_counts(a, b),
        is_flush(a) == is_flush(b),
    ensures
        five_score(a) == five_score(b),
{
    lemma_same_counts_lists(a, b, 14);
    assert(ranks_with_count(a, 4, 14) == ranks_with_count(b, 4, 14));
    assert(ranks_with_count(a, 3, 14) == ranks_with_count(b, 3, 14));
    assert(ranks_with_count(a, 2, 14) == ranks_with_count(b, 2, 14));
    assert(ranks_with_count(a, 1, 14) == ranks_with_count(b, 1, 14));
}

proof fn lemma_rank_count_remove(s: Seq<Card>, k: int, r: int)
    requires
        0 <= k < s.len(),
    ensures
        rank_count(s, r) == rank_count(s.remove(k), r) + (if s[k].rank == r { 1int } else { 0int }),
    decreases s.len(),
{
    if k == s.len() - 1 {
        assert(s.remove(k) =~= s.drop_last());
    } else {
        assert(s.remove(k).drop_last() =~= s.drop_last().remove(k));
        assert(s.remove(k).last() == s.last());
        lemma_rank_count_remove(s.drop_last(), k, r);
    }
}

proof fn lemma_rearranged_counts(a: Seq<Card>, b: Seq<Card>)
    requires
        a.to_multiset() == b.to_multiset(),
    ensures
        same_rank_counts(a, b),
    decreases a.len(),
{
    broadcast use vstd::seq_lib::group_to_multiset_ensures;

    if a.len() == 0 {
        assert(a.to_multiset().len() == 0);
        assert(b.to_multiset().len() == b.len());
        assert(b.len() == 0);
        assert(b =~= a);
    } else {
        let x = a.last();
        assert(a.drop_last().push(x) =~= a);
        assert(a.to_multiset().count(x) > 0);
        assert(b.contains(x));
        let k = b.index_of(x);
        assert(b.remove(k).to_multiset() == b.to_multiset().remove(x));
        assert(a.to_multiset() == a.drop_last().to_multiset().insert(x));
        assert(a.drop_last().to_multiset() =~= b.remove(k).to_multiset());
        lemma_rearranged_counts(a.drop_last(), b.remove(k));
        assert forall|r: int| #[trigger] rank_count(a, r) == rank_count(b, r) by {
            lemma_rank_count_remove(b, k, r);
            assert(rank_count(a.drop_last(), r) == rank_count(b.remove(k), r));
        }
    }
}

proof fn lemma_rearranged_flush(a: Seq<Card>, b: Seq<Card>)
    requires
        a.to_multiset() == b.to_multiset(),
        is_flush(a),
    ensures
        is_flush(b),
{
    broadcast use vstd::seq_lib::group_to_multiset_ensures;

    assert forall|i: int| 0 <= i < b.len() implies #[trigger] b[i].suit == b[0].suit by {
        assert(b.to_multiset().count(b[i]) > 0);
        assert(b.to_multiset().count(b[0]) > 0);
        assert(a.contains(b[i]));
        assert(a.contains(b[0]));
        let p = a.index_of(b[i]);
        let q = a.index_of(b[0]);
        assert(a[p].suit == a[0].suit);
        assert(a[q].suit == a[0].suit);
    }
}

/// A hand scores the same whatever the order of its cards.
pub proof fn lemma_five_score_rearranged(a: Seq<Card>, b: Seq<Card>)
    requires
        a.to_multiset() == b.to_multiset(),
    ensures
        five_score(a) == five_score(b),
{
    lemma_rearranged_counts(a, b);
    if is_flush(a) {
        lemma_rearranged_flush(a, b);
    }
    if is_flush(b) {
        lemma_rearranged_flush(b, a);
    }
    lemma_same_counts_score(a, b);
}

/// The cards of `cs` at the positions `idx`.
pub open spec fn picked(cs: Seq<Card>, idx: Seq<int>) -> Seq<Card> {
    Seq::new(idx.len(), |i: int| cs[idx[i]])
}

/// Positions below `n`, in increasing order.
pub open spec fn increasing_below(idx: Seq<int>, n: int) -> bool {
    &&& forall|i: int| 0 <= i < idx.len() ==> 0 <= #[trigger] idx[i] < n
    &&& forall|i: int, j: int| 0 <= i < j < idx.len() ==> #[trigger] idx[i] < #[trigger] idx[j]
}

/// Any cards that `cs` holds (counted with repeats) sit at some increasing
/// positions of `cs`.
proof fn lemma_sub_hand_found(cs: Seq<Card>, m: vstd::multiset::Multiset<Card>) -> (idx: Seq<int>)
    requires
        m.subset_of(cs.to_multiset()),
    ensures
        increasing_below(idx, cs.len() as int),
        idx.len() == m.len(),
        picked(cs, idx).to_multiset() == m,
    decreases cs.len(),
{
    broadcast use vstd::seq_lib::group_to_multiset_ensures;
    broadcast use vstd::multiset::group_multiset_axioms;

    if cs.len() == 0 {
        assert(m =~= vstd::multiset::Multiset::empty()) by {
            assert forall|v: Card| m.count(v) == 0 by {
                assert(m.count(v) <= cs.to_multiset().count(v));
            }
        }
        let idx = Seq::<int>::empty();
        assert(picked(cs, idx) =~= Seq::<Card>::empty());
        idx
    } else {
        let n = cs.len() - 1;
        let x = cs.last();
        let d = cs.drop_last();
        assert(d.push(x) =~= cs);
        assert(cs.to_multiset() == d.to_multiset().insert(x));
        if m.count(x) > 0 {
            let rest = m.remove(x);
            assert forall|v: Card| rest.count(v) <= d.to_multiset().count(v) by {
                assert(m.count(v) <= cs.to_multiset().count(v));
            }
            let sub = lemma_sub_hand_found(d, rest);
            let idx = sub.push(n);
            assert(picked(cs, idx) =~= picked(d, sub).push(x));
            assert(rest.insert(x) =~= m);
            idx
        } else {
            assert forall|v: Card| m.count(v) <= d.to_multiset().count(v) by {
                assert(m.count(v) <= cs.to_multiset().count(v));
            }
            let sub = lemma_sub_hand_found(d, m);
            assert(picked(cs, sub) =~= picked(d, sub));
            sub
        }
    }
}

/// The cards at increasing positions of `s` are cards that `s` holds.
proof fn lemma_picked_within(s: Seq<Card>, idx: Seq<int>)
    requires
        increasing_below(idx, s.len() as int),
    ensures
        picked(s, idx).to_multiset().subset_of(s.to_multiset()),
    decreases s.len(),
{
    broadcast use vstd::seq_lib::group_to_multiset_ensures;
    broadcast use vstd::multiset::group_multiset_axioms;

    if idx.len() == 0 {
        assert(picked(s, idx) =~= Seq::<Card>::empty());
    } else {
        assert(0 <= idx[0] < s.len());
        let n = s.len() - 1;
        let d = s.drop_last();
        assert(d.push(s.last()) =~= s);
        if idx.last() == n {
            let rest = idx.drop_last();
            lemma_picked_within(d, rest);
            assert(picked(s, idx) =~= picked(d, rest).push(s.last()));
        } else {
            assert forall|i: int| 0 <= i < idx.len() implies #[trigger] idx[i] < n by {
                if i < idx.len() - 1 {
                    assert(idx[i] < idx[idx.len() - 1]);
                }
            }
            lemma_picked_within(d, idx);
            assert(picked(s, idx) =~= picked(d, idx));
        }
    }
}

/// Every five cards of `a` are, in some order, five cards of `b` when `b`
/// holds the same cards as `a`: no best score of `a` is above one of `b`.
proof fn lemma_best_score_le(a: Seq<Card>, b: Seq<Card>, x: int, y: int)
    requires
        a.to_multiset() == b.to_multiset(),
        is_best_score(a, x),
        is_best_score(b, y),
    ensures
        x <= y,
{
    broadcast use vstd::seq_lib::group_to_multiset_ensures;

    let t = choose|t: (int, int, int, int, int)| is_combo(a.len() as int, t) && combo_score(a, t) == x;
    let it = seq![t.0, t.1, t.2, t.3, t.4];
    assert(picked(a, it) =~= combo(a, t));
    lemma_picked_within(a, it);
    let m = combo(a, t).to_multiset();
    let iu = lemma_sub_hand_found(b, m);
    assert(m.len() == 5);
    let u = (iu[0], iu[1], iu[2], iu[3], iu[4]);
    assert(iu[0] < iu[1] && iu[1] < iu[2] && iu[2] < iu[3] && iu[3] < iu[4]);
    assert(is_combo(b.len() as int, u));
    assert(picked(b, iu) =~= combo(b, u));
    lemma_five_score_rearranged(combo(a, t), combo(b, u));
    assert(combo_score(b, u) <= y);
}

/// The best score of a set of cards does not depend on their order: two
/// sequences holding the same cards have the same best score.
pub proof fn lemma_best_score_rearranged(a: Seq<Card>, b: Seq<Card>, x: int, y: int)
    requires
        a.to_multiset() == b.to_multiset(),
        is_best_score(a, x),
        is_best_score(b, y),
    ensures
        x == y,
{
    lemma_best_score_le(a, b, x, y);
    lemma_best_score_le(b, a, y, x);
}

/// The rank `k` places below `high` in a run of five, the ace counting
/// below the 2.
pub open spec fn run_rank(high: int, k: int) -> int {
    if high - k == 1 {
        14
    } else {
        high - k
    }
}

/// Rank `r` belongs to the run of five ending at `high`.
pub open spec fn in_run(high: int, r: int) -> bool {
    ||| high - 4 <= r <= high
    ||| high == 5 && r == 14
}

proof fn lemma_rank_absent(cs: Seq<Card>, r: int)
    requires
        forall|i: int| 0 <= i < cs.len() ==> #[trigger] cs[i].rank != r,
    ensures
        rank_count(cs, r) == 0,
    decreases cs.len(),
{
    if cs.len() > 0 {
        assert(cs[cs.len() - 1].rank != r);
        lemma_rank_absent(cs.drop_last(), r);
    }
}

proof fn lemma_run_found(cs: Seq<Card>, high: int, top: int)
    requires
        5 <= high <= top <= 14,
        forall|i: int| 0 <= i < cs.len() ==> in_run(high, #[trigger] cs[i].rank as int),
        forall|k: int| 0 <= k < 5 ==> rank_count(cs, #[trigger] run_rank(high, k)) > 0,
    ensures
        straight_high_from(cs, top) == Some(high as u8),
    decreases top,
{
    if top > high {
        if !(high == 5 && top == 14) {
            assert forall|i: int| 0 <= i < cs.len() implies #[trigger] cs[i].rank != top by {
                assert(in_run(high, cs[i].rank as int));
            }
            lemma_rank_absent(cs, top);
        } else {
            assert forall|i: int| 0 <= i < cs.len() implies #[trigger] cs[i].rank != 13 by {
                assert(in_run(high, cs[i].rank as int));
            }
            lemma_rank_absent(cs, 13);
        }
        assert(!run_ends_at(cs, top));
        lemma_run_found(cs, high, top - 1);
    } else {
        assert(rank_count(cs, run_rank(high, 0)) > 0);
        assert(rank_count(cs, run_rank(high, 1)) > 0);
        assert(rank_count(cs, run_rank(high, 2)) > 0);
        assert(rank_count(cs, run_rank(high, 3)) > 0);
        assert(rank_count(cs, run_rank(high, 4)) > 0);
        assert(run_ends_at(cs, high));
    }
}

/// Five cards of one suit whose ranks are five in a row ending at `high`
/// (the ace may also start the run, below the 2) are a straight flush to
/// `high`: category 8 with `high` as the only rank, so they beat every
/// four of a kind and every hand below it.
pub proof fn lemma_straight_flush_scores(cs: Seq<Card>, high: int)
    requires
        cs.len() == 5,
        5 <= high <= 14,
        forall|i: int| 0 <= i < 5 ==> #[trigger] cs[i].suit == cs[0].suit,
        forall|i: int| 0 <= i < 5 ==> in_run(high, #[trigger] cs[i].rank as int),
        forall|k: int| 0 <= k < 5 ==> rank_count(cs, #[trigger] run_rank(high, k)) > 0,
    ensures
        five_score(cs) == 8 * 0x1000000 + high * 0x100000,
        category_of(five_score(cs) as u64) == 8,
{
    lemma_run_found(cs, high, 14);
    assert(is_flush(cs));
    assert(hand_category(cs) == 8);
    assert(hand_ranks(cs) == seq![high as u8]);
    lemma_pack_decoded(8, seq![high as u8]);
}

} // verus!
