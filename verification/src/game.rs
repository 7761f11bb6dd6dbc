use vstd::prelude::*;

use crate::bots::BotStyle;
use crate::cards::{
    all_valid, best_five, category_of, category_title, describable, describe_hand, description,
    evaluate, explain_loss, hand_name, is_best_score, kicker_cards, kickers_of,
    lemma_best_score_describable, lemma_best_score_of_five, lemma_rank_count_bound, loss_explanation,
    rank_count, valid_card, combo, is_combo, is_winning_combo, lemma_best_score_unique, winning_five,
    Card, Deck,
};
use crate::pots::{
    side_pot_payouts, payout_from, total, contested, capped_total, lemma_side_pot_limits,
    lemma_capped_total_le,
};
use crate::text::{decimal, decimal_text, join2};

verus! {

pub const SMALL_BLIND: u32 = 10;

pub const BIG_BLIND: u32 = 20;

/// The rules a new game starts from.
#[derive(Clone, Copy)]
pub struct GameConfig {
    pub starting_stack: u32,
    pub small_blind: u32,
    pub tournament_mode: bool,
    pub hands_per_level: u32,
}

impl Default for GameConfig {
    fn default() -> (config: Self)
        ensures
            config.starting_stack == 1500,
            config.small_blind == SMALL_BLIND,
            !config.tournament_mode,
            config.hands_per_level == 5,
    {
        GameConfig {
            starting_stack: 1500,
            small_blind: SMALL_BLIND,
            tournament_mode: false,
            hands_per_level: 5,
        }
    }
}

/// The betting rounds of a hand, and the showdown that ends it.
#[derive(Clone, Copy, Debug, PartialEq, Eq, Structural)]
pub enum Street {
    Preflop,
    Flop,
    Turn,
    River,
    Showdown,
}

/// What a player does when it is their turn.
#[derive(Clone, Copy, Debug)]
pub enum Action {
    Fold,
    CheckCall,
    /// Raise so that the player's bet this street totals the amount.
    Raise(u32),
}

/// A seat at the table.
#[derive(Clone)]
pub struct Player {
    pub name: String,
    pub stack: u32,
    pub hole: Vec<Card>,
    pub folded: bool,
    pub all_in: bool,
    pub street_bet: u32,
    pub contributed: u32,
    pub acted: bool,
    pub eliminated: bool,
    pub bot: Option<BotStyle>,
}

/// The state of a game: the seats, the board, the pot and whose turn it is.
pub struct Game {
    pub players: Vec<Player>,
    pub community: Vec<Card>,
    pub pot: u32,
    pub dealer: usize,
    pub current: usize,
    pub current_bet: u32,
    pub min_raise: u32,
    pub street: Street,
    pub message: String,
    pub reveal_all: bool,
    pub highlighted_cards: Vec<Card>,
    pub kicker_cards: Vec<Card>,
    pub last_payouts: Vec<u32>,
    pub game_over: bool,
    pub human_won: bool,
    pub hand_analysis: Vec<String>,
    pub small_blind: u32,
    pub big_blind: u32,
    pub hand_number: u32,
    pub blind_level: u32,
    pub config: GameConfig,
    pub deck: Deck,
}

/// The chips in front of the players (not counting the pot).
pub open spec fn sum_stacks(ps: Seq<Player>) -> int
    decreases ps.len(),
{
    if ps.len() == 0 {
        0
    } else {
        sum_stacks(ps.drop_last()) + ps.last().stack
    }
}

/// The chips the players have put into the pot this hand.
pub open spec fn sum_contributed(ps: Seq<Player>) -> int
    decreases ps.len(),
{
    if ps.len() == 0 {
        0
    } else {
        sum_contributed(ps.drop_last()) + ps.last().contributed
    }
}

/// Players still in the game.
pub open spec fn count_active(ps: Seq<Player>) -> nat
    decreases ps.len(),
{
    if ps.len() == 0 {
        0
    } else {
        count_active(ps.drop_last()) + (if ps.last().eliminated { 0nat } else { 1nat })
    }
}

/// The seat stays in the game for the next hand: not out, and with chips.
pub open spec fn stays_in(p: Player) -> bool {
    !p.eliminated && p.stack > 0
}

/// The seats that stay in the game for the next hand.
pub open spec fn count_staying(ps: Seq<Player>) -> nat
    decreases ps.len(),
{
    if ps.len() == 0 {
        0
    } else {
        count_staying(ps.drop_last()) + (if stays_in(ps.last()) { 1nat } else { 0nat })
    }
}

/// Another hand is dealt: the human and at least one more seat stay in.
pub open spec fn deals_next_hand(ps: Seq<Player>) -> bool {
    ps.len() > 0 && stays_in(ps[0]) && count_staying(ps) >= 2
}

/// Players still in the hand.
pub open spec fn count_live(ps: Seq<Player>) -> nat
    decreases ps.len(),
{
    if ps.len() == 0 {
        0
    } else {
        count_live(ps.drop_last()) + (if ps.last().folded { 0nat } else { 1nat })
    }
}

/// Players in the hand who still have chips to bet with.
pub open spec fn count_ready(ps: Seq<Player>) -> nat
    decreases ps.len(),
{
    if ps.len() == 0 {
        0
    } else {
        count_ready(ps.drop_last()) + (if !ps.last().folded && !ps.last().all_in {
            1nat
        } else {
            0nat
        })
    }
}

/// The hole cards held around the table.
pub open spec fn total_hole_cards(ps: Seq<Player>) -> int
    decreases ps.len(),
{
    if ps.len() == 0 {
        0
    } else {
        total_hole_cards(ps.drop_last()) + ps.last().hole@.len()
    }
}

/// Resetting the seats leaves in the game exactly the seats that stay in.
proof fn lemma_count_staying(before: Seq<Player>, reset: Seq<Player>)
    requires
        before.len() == reset.len(),
        forall|j: int| 0 <= j < before.len() ==> #[trigger] seat_reset(before[j], reset[j]),
    ensures
        count_active(reset) == count_staying(before),
    decreases before.len(),
{
    if before.len() > 0 {
        let n = before.len() - 1;
        assert forall|j: int| 0 <= j < n implies #[trigger] seat_reset(
            before.drop_last()[j],
            reset.drop_last()[j],
        ) by {
            assert(seat_reset(before[j], reset[j]));
        }
        lemma_count_staying(before.drop_last(), reset.drop_last());
        assert(seat_reset(before[n], reset[n]));
    }
}

proof fn lemma_sums_update(ps: Seq<Player>, i: int, p: Player)
    requires
        0 <= i < ps.len(),
    ensures
        sum_stacks(ps.update(i, p)) == sum_stacks(ps) - ps[i].stack + p.stack,
        sum_contributed(ps.update(i, p)) == sum_contributed(ps) - ps[i].contributed
            + p.contributed,
        count_active(ps.update(i, p)) == count_active(ps) - (if ps[i].eliminated { 0int } else { 1int }) + (
        if p.eliminated { 0int } else { 1int }),
        count_live(ps.update(i, p)) == count_live(ps) - (if ps[i].folded { 0int } else { 1int }) + (
        if p.folded { 0int } else { 1int }),
        count_ready(ps.update(i, p)) == count_ready(ps) - (if !ps[i].folded && !ps[i].all_in {
            1int
        } else {
            0int
        }) + (if !p.folded && !p.all_in { 1int } else { 0int }),
        total_hole_cards(ps.update(i, p)) == total_hole_cards(ps) - ps[i].hole@.len()
            + p.hole@.len(),
    decreases ps.len(),
{
    if i < ps.len() - 1 {
        assert(ps.update(i, p).drop_last() =~= ps.drop_last().update(i, p));
        lemma_sums_update(ps.drop_last(), i, p);
    } else {
        assert(ps.update(i, p).drop_last() =~= ps.drop_last());
    }
}

pub(crate) proof fn lemma_stack_le_sum(ps: Seq<Player>, i: int)
    requires
        0 <= i < ps.len(),
    ensures
        ps[i].stack <= sum_stacks(ps),
        ps[i].contributed <= sum_contributed(ps),
        sum_stacks(ps) >= 0,
        sum_contributed(ps) >= 0,
    decreases ps.len(),
{
    lemma_sums_nonneg(ps);
    if i < ps.len() - 1 {
        lemma_stack_le_sum(ps.drop_last(), i);
    } else {
        lemma_sums_nonneg(ps.drop_last());
    }
}

pub(crate) proof fn lemma_sums_nonneg(ps: Seq<Player>)
    ensures
        sum_stacks(ps) >= 0,
        sum_contributed(ps) >= 0,
        count_active(ps) <= ps.len(),
        count_live(ps) <= ps.len(),
        count_ready(ps) <= count_live(ps),
    decreases ps.len(),
{
    if ps.len() > 0 {
        lemma_sums_nonneg(ps.drop_last());
    }
}

/// The seat reached by walking clockwise from `from`, `k` seats at a time,
/// to the first seat still in the game; `from` itself if there is none.
pub open spec fn next_active_from(ps: Seq<Player>, from: int, k: int) -> int
    decreases ps.len() + 1 - k,
{
    if k < 1 || k > ps.len() {
        from
    } else if !ps[(from + k) % (ps.len() as int)].eliminated {
        (from + k) % (ps.len() as int)
    } else {
        next_active_from(ps, from, k + 1)
    }
}

/// The next seat after `from` of a player still in the game.
pub open spec fn next_active_seat(ps: Seq<Player>, from: int) -> int {
    next_active_from(ps, from, 1)
}

proof fn lemma_next_active_in_range(ps: Seq<Player>, from: int, k: int)
    requires
        0 <= from < ps.len(),
        k >= 1,
    ensures
        0 <= next_active_from(ps, from, k) < ps.len(),
        next_active_from(ps, from, k) == from || !ps[next_active_from(ps, from, k)].eliminated,
    decreases ps.len() + 1 - k,
{
    if k <= ps.len() && ps[(from + k) % (ps.len() as int)].eliminated {
        lemma_next_active_in_range(ps, from, k + 1);
    }
}

/// Player `p` once the hand is over: out of the game when the stack is empty.
pub open spec fn busted(p: Player) -> Player {
    if p.stack == 0 {
        Player { eliminated: true, folded: true, ..p }
    } else {
        p
    }
}

/// Seat `q` is seat `p` made ready for a new hand, before any card is dealt.
pub open spec fn seat_reset(p: Player, q: Player) -> bool {
    let out = p.eliminated || p.stack == 0;
    &&& q.name == p.name
    &&& q.stack == p.stack
    &&& q.bot == p.bot
    &&& q.eliminated == out
    &&& q.folded == out
    &&& q.acted == out
    &&& !q.all_in
    &&& q.street_bet == 0
    &&& q.contributed == 0
}

/// Seat `q` is seat `p` after the deal of a new hand in which it posted
/// `posted` chips of blinds.
pub open spec fn seat_dealt(p: Player, q: Player, posted: int) -> bool {
    let out = p.eliminated || p.stack == 0;
    &&& q.name == p.name
    &&& q.stack == p.stack - posted
    &&& q.bot == p.bot
    &&& q.eliminated == out
    &&& q.folded == out
    &&& q.acted == out
    &&& q.all_in == (posted > 0 && q.stack == 0)
    &&& q.street_bet == posted
    &&& q.contributed == posted
    &&& all_valid(q.hole@)
    &&& q.hole@.len() == (if out { 0int } else { 2int })
}

/// What a blind of `blind` chips takes from a stack of `stack`.
pub open spec fn blind_paid(blind: int, stack: int) -> int {
    if blind <= stack { blind } else { stack }
}

/// The blinds are doubled when a new level starts: every `hands_per_level`
/// hands (at least one) of a tournament.
pub open spec fn level_starts(config: GameConfig, hand_number: int) -> bool {
    let per = if config.hands_per_level == 0 { 1 } else { config.hands_per_level as int };
    config.tournament_mode && hand_number > 1 && (hand_number - 1) % per == 0
}

/// Outside tournament mode the blinds never move: dealing a hand keeps the
/// small blind, the big blind and the blind level.
pub proof fn lemma_cash_game_blinds_stay(after: Game, before: Game)
    requires
        after.hand_dealt(&before),
        !before.config.tournament_mode,
    ensures
        after.small_blind == before.small_blind,
        after.big_blind == before.big_blind,
        after.blind_level == before.blind_level,
{
}

/// In tournament mode the blinds double, and the level goes up, on the
/// first hand of every new level: hands `per + 1`, `2 * per + 1`, ... where
/// `per` is the number of hands per level (taken as 1 when it is 0).
pub proof fn lemma_tournament_blinds_double(after: Game, before: Game)
    requires
        after.hand_dealt(&before),
        before.config.tournament_mode,
    ensures
        ({
            let per = if before.config.hands_per_level == 0 {
                1
            } else {
                before.config.hands_per_level as int
            };
            let new_level = after.hand_number > 1 && (after.hand_number - 1) % per == 0;
            &&& after.small_blind == (if new_level { doubled(before.small_blind) } else { before.small_blind })
            &&& after.big_blind == (if new_level { doubled(before.big_blind) } else { before.big_blind })
        }),
{
}

/// Twice `x`, or `u32::MAX` when that does not fit.
pub open spec fn doubled(x: u32) -> u32 {
    if 2 * x > u32::MAX { u32::MAX } else { (2 * x) as u32 }
}

/// The message that opens a hand.
pub open spec fn hand_banner(hand: u32, level: u32, small: u32, big: u32) -> Seq<char> {
    "Раздача "@ + decimal(hand as nat) + " · уровень "@ + decimal(level as nat) + " · блайнды "@
        + decimal(small as nat) + "/"@ + decimal(big as nat)
}

/// The name of seat `k`: the human first, then the bots.
pub open spec fn seat_name(k: int) -> Seq<char> {
    if k == 0 {
        "Вы"@
    } else if k == 1 {
        "Марина"@
    } else if k == 2 {
        "Борис"@
    } else if k == 3 {
        "Лис"@
    } else {
        "Профессор"@
    }
}

/// `g` is a new table for the human and bots of the given styles, before
/// its first hand.
pub open spec fn is_fresh(g: Game, styles: Seq<BotStyle>, config: GameConfig) -> bool {
    let ps = g.players@;
    &&& ps.len() == styles.len() + 1
    &&& forall|k: int|
        0 <= k < ps.len() ==> {
            &&& (#[trigger] ps[k]).name@ == seat_name(k)
            &&& ps[k].bot == (if k == 0 { None } else { Some(styles[k - 1]) })
            &&& ps[k].stack == config.starting_stack
            &&& ps[k].hole@.len() == 0
            &&& !ps[k].folded && !ps[k].all_in && !ps[k].acted && !ps[k].eliminated
            &&& ps[k].street_bet == 0 && ps[k].contributed == 0
        }
    &&& g.community@.len() == 0
    &&& g.pot == 0
    &&& g.dealer == 0
    &&& g.current == 0
    &&& g.current_bet == 0
    &&& g.min_raise == BIG_BLIND
    &&& g.street == Street::Showdown
    &&& g.message@.len() == 0
    &&& !g.reveal_all
    &&& g.highlighted_cards@.len() == 0
    &&& g.kicker_cards@.len() == 0
    &&& g.last_payouts@ == Seq::new(ps.len(), |j: int| 0u32)
    &&& !g.game_over
    &&& !g.human_won
    &&& g.hand_analysis@.len() == 0
    &&& g.small_blind == config.small_blind
    &&& g.big_blind == doubled(config.small_blind)
    &&& g.hand_number == 0
    &&& g.blind_level == 1
    &&& g.config == config
    &&& g.deck@.len() == 52
}

impl Game {
    /// `self` is a new game for the human and bots of the given styles under
    /// `config`, its first hand dealt (or the game already over, when the
    /// stacks are empty).
    pub open spec fn started_from(&self, styles: Seq<BotStyle>, config: GameConfig) -> bool {
        &&& self.well_formed()
        &&& self.config == config
        &&& self.players@.len() == styles.len() + 1
        &&& self.small_blind == config.small_blind
        &&& self.big_blind == doubled(config.small_blind)
        &&& self.last_payouts@ == Seq::new(self.players@.len(), |j: int| 0u32)
        &&& self.chips() == config.starting_stack * (styles.len() + 1)
        &&& config.starting_stack > 0 ==> !self.game_over
        &&& exists|g: Game|
            is_fresh(g, styles, config) && (if self.game_over {
                self.hand_skipped(&g)
            } else {
                self.hand_dealt(&g)
            })
    }
}

/// The cards on the board match the betting round, and enough cards stay in
/// the deck to finish the hand.
pub open spec fn street_cards(street: Street, board: nat, deck: nat) -> bool {
    match street {
        Street::Preflop => board == 0 && deck >= 8,
        Street::Flop => board == 3 && deck >= 4,
        Street::Turn => board == 4 && deck >= 2,
        Street::River => board == 5,
        Street::Showdown => board <= 5,
    }
}

impl Game {
    /// The fields that describe the table rather than the seats agree.
    pub open spec fn same_table(&self, other: &Game) -> bool {
        &&& self.community == other.community
        &&& self.deck == other.deck
        &&& self.dealer == other.dealer
        &&& self.reveal_all == other.reveal_all
        &&& self.highlighted_cards == other.highlighted_cards
        &&& self.kicker_cards == other.kicker_cards
        &&& self.hand_analysis == other.hand_analysis
        &&& self.small_blind == other.small_blind
        &&& self.big_blind == other.big_blind
        &&& self.hand_number == other.hand_number
        &&& self.blind_level == other.blind_level
        &&& self.config == other.config
    }

    /// Everything but the seats and the payouts agrees.
    pub open spec fn same_rest(&self, other: &Game) -> bool {
        &&& self.same_table(other)
        &&& self.pot == other.pot
        &&& self.current == other.current
        &&& self.current_bet == other.current_bet
        &&& self.min_raise == other.min_raise
        &&& self.street == other.street
        &&& self.message == other.message
        &&& self.game_over == other.game_over
        &&& self.human_won == other.human_won
    }

    /// No hand was dealt: the seats were only cleared.
    pub open spec fn hand_skipped(&self, before: &Game) -> bool {
                &&& forall|j: int|
                    0 <= j < before.players@.len() ==> #[trigger] seat_reset(
                        before.players@[j],
                        self.players@[j],
                    ) && self.players@[j].hole@.len() == 0
                &&& self.street == Street::Showdown
                &&& self.hand_number == before.hand_number
                &&& self.small_blind == before.small_blind
                &&& self.big_blind == before.big_blind
                &&& self.blind_level == before.blind_level
                &&& self.human_won == !self.players@[0].eliminated
                &&& self.message@ == farewell(self.human_won)
                &&& self.community == before.community
                &&& self.deck == before.deck
                &&& self.dealer == before.dealer
                &&& self.pot == before.pot
                &&& self.current == before.current
                &&& self.current_bet == before.current_bet
                &&& self.min_raise == before.min_raise
                &&& self.reveal_all == before.reveal_all
                &&& self.highlighted_cards == before.highlighted_cards
                &&& self.kicker_cards == before.kicker_cards
                &&& self.hand_analysis == before.hand_analysis
            }

    /// A new hand was dealt from `before`: button moved, cards dealt, blinds posted.
    pub open spec fn hand_dealt(&self, before: &Game) -> bool {
                let ps = self.players@;
                let heads_up = count_active(ps) == 2;
                let sb = if heads_up {
                    self.dealer as int
                } else {
                    next_active_seat(ps, self.dealer as int)
                };
                let bb = next_active_seat(ps, sb);
                let sb_paid = blind_paid(self.small_blind as int, before.players@[sb].stack as int);
                let bb_paid = blind_paid(self.big_blind as int, before.players@[bb].stack as int);
                &&& self.hand_number == before.hand_number + 1
                &&& self.small_blind == (if level_starts(before.config, self.hand_number as int) {
                    doubled(before.small_blind)
                } else {
                    before.small_blind
                })
                &&& self.big_blind == (if level_starts(before.config, self.hand_number as int) {
                    doubled(before.big_blind)
                } else {
                    before.big_blind
                })
                &&& self.blind_level == (if level_starts(before.config, self.hand_number as int) {
                    if before.blind_level < u32::MAX { (before.blind_level + 1) as u32 } else { u32::MAX }
                } else {
                    before.blind_level
                })
                &&& self.dealer == next_active_seat(ps, before.dealer as int)
                &&& count_active(ps) >= 2
                &&& sb != bb
                &&& forall|j: int|
                    0 <= j < ps.len() ==> seat_dealt(
                        before.players@[j],
                        #[trigger] ps[j],
                        (if j == sb { sb_paid } else if j == bb { bb_paid } else { 0 }),
                    )
                &&& total_hole_cards(ps) == 2 * count_active(ps)
                &&& self.deck@.len() == 52 - 2 * count_active(ps)
                &&& cards_in_play(self).to_multiset() == crate::cards::standard_deck().to_multiset()
                &&& exists|d: Seq<Card>|
                    #![trigger d.to_multiset()]
                    {
                        &&& d.len() == 52
                        &&& d.to_multiset() == crate::cards::standard_deck().to_multiset()
                        &&& self.deck@ == d.take(52 - 2 * count_active(ps))
                        &&& forall|j: int|
                            0 <= j < ps.len() && !ps[j].eliminated ==> #[trigger] ps[j].hole@
                                == hole_from(d, ps, self.dealer as int, j)
                    }
                &&& self.pot == sb_paid + bb_paid
                &&& self.current_bet == self.big_blind
                &&& self.min_raise == self.big_blind
                &&& self.street == Street::Preflop
                &&& !self.human_won
                &&& self.community@.len() == 0
                &&& !self.reveal_all
                &&& self.highlighted_cards@.len() == 0
                &&& self.kicker_cards@.len() == 0
                &&& self.hand_analysis@.len() == 0
                &&& self.current == (if heads_up { self.dealer as int } else { next_active_seat(ps, bb) })
                &&& self.message@ == hand_banner(
                    self.hand_number,
                    self.blind_level,
                    self.small_blind,
                    self.big_blind,
                )
            }

    /// The invariant of a game in progress: two to five seats, valid cards
    /// that match the street, a deck deep enough to finish the hand, and chip
    /// counts that fit in `u32`.
    pub open spec fn well_formed(&self) -> bool {
        let ps = self.players@;
        &&& self.seats_ok()
        &&& self.street != Street::Showdown ==> count_live(ps) >= 2
        &&& self.street != Street::Showdown ==> self.pot == sum_contributed(ps)
    }

    /// The invariant, except that a hand in progress may be down to one
    /// player; no card is ever in two places.
    pub open spec fn seats_ok(&self) -> bool {
        let ps = self.players@;
        &&& 2 <= ps.len() <= 5
        &&& self.last_payouts@.len() == ps.len()
        &&& self.dealer < ps.len()
        &&& self.current < ps.len()
        &&& self.small_blind <= self.big_blind
        &&& all_valid(self.community@)
        &&& all_valid(self.deck@)
        &&& forall|i: int| 0 <= i < ps.len() ==> all_valid(#[trigger] ps[i].hole@)
        &&& street_cards(self.street, self.community@.len(), self.deck@.len())
        &&& sum_stacks(ps) + self.pot <= u32::MAX
        &&& self.street != Street::Showdown ==> sum_stacks(ps) + sum_contributed(ps) <= u32::MAX
        &&& forall|i: int|
            0 <= i < ps.len() ==> #[trigger] ps[i].street_bet <= ps[i].contributed
                && ps[i].street_bet <= self.current_bet
        &&& forall|i: int| 0 <= i < ps.len() ==> #[trigger] self.last_payouts@[i] <= ps[i].stack
        &&& each_card_once(cards_in_play(self))
    }

    /// What player `i` has to add to match the current bet.
    pub fn to_call(&self, i: usize) -> (amount: u32)
        requires
            i < self.players@.len(),
        ensures
            amount == (if self.current_bet >= self.players@[i as int].street_bet {
                self.current_bet - self.players@[i as int].street_bet
            } else {
                0
            }),
    {
        self.current_bet.saturating_sub(self.players[i].street_bet)
    }

    /// Inclusive legal raise-to range. A short stack gets one all-in point
    /// below the normal minimum; otherwise the lower bound is a full raise.
    pub fn raise_bounds(&self, i: usize) -> (bounds: Option<(u32, u32)>)
        requires
            i < self.players@.len(),
            self.players@[i as int].street_bet + self.players@[i as int].stack <= u32::MAX,
        ensures
            ({
                let all_in_total = self.players@[i as int].street_bet
                    + self.players@[i as int].stack;
                let full_minimum = if self.current_bet + self.min_raise <= u32::MAX {
                    self.current_bet + self.min_raise
                } else {
                    u32::MAX as int
                };
                if all_in_total <= self.current_bet {
                    bounds is None
                } else {
                    bounds == Some(
                        (
                            (if full_minimum <= all_in_total {
                                full_minimum
                            } else {
                                all_in_total
                            }) as u32,
                            all_in_total as u32,
                        ),
                    )
                }
            }),
            bounds matches Some((low, high)) ==> self.current_bet <= low <= high && (low == high
                || low == self.current_bet + self.min_raise),
    {
        let all_in_total = self.players[i].street_bet + self.players[i].stack;
        if all_in_total <= self.current_bet {
            return None;
        }
        let full_minimum = self.current_bet.saturating_add(self.min_raise);
        let lower = if full_minimum <= all_in_total {
            full_minimum
        } else {
            all_in_total
        };
        Some((lower, all_in_total))
    }

    /// Seat `i` can still act in this hand.
    pub open spec fn may_act(&self, i: int) -> bool {
        &&& !self.players@[i].eliminated
        &&& !self.players@[i].folded
        &&& !self.players@[i].all_in
        &&& self.street != Street::Showdown
    }

    /// Whether player `i` is still to make betting decisions this hand.
    pub fn can_act(&self, i: usize) -> (able: bool)
        requires
            i < self.players@.len(),
        ensures
            able == self.may_act(i as int),
    {
        !self.players[i].eliminated && !self.players[i].folded && !self.players[i].all_in
            && self.street != Street::Showdown
    }

    /// Whether seat `i`'s hole cards lie face up: the human always sees their
    /// own, and once the cards are turned over every seat still in the hand
    /// shows; a seat out of the game shows nothing.
    pub fn shows_hole_cards(&self, i: usize) -> (shown: bool)
        requires
            i < self.players@.len(),
        ensures
            shown == (!self.players@[i as int].eliminated && (i == 0 || self.reveal_all
                && !self.players@[i as int].folded)),
    {
        !self.players[i].eliminated && (i == 0 || self.reveal_all && !self.players[i].folded)
    }

    /// Whether the next call of `start_hand` deals a hand: the human and at
    /// least one more seat are still in the game with chips.
    pub fn next_hand_is_dealt(&self) -> (dealt: bool)
        ensures
            dealt == deals_next_hand(self.players@),
    {
        if self.players.len() == 0 || self.players[0].eliminated || self.players[0].stack == 0 {
            return false;
        }
        let mut staying: usize = 0;
        let mut i: usize = 0;
        while i < self.players.len()
            invariant
                i <= self.players@.len(),
                staying == count_staying(self.players@.take(i as int)),
                staying <= i,
            decreases self.players@.len() - i,
        {
            assert(self.players@.take(i + 1).drop_last() =~= self.players@.take(i as int));
            if !self.players[i].eliminated && self.players[i].stack > 0 {
                staying = staying + 1;
            }
            i = i + 1;
        }
        assert(self.players@.take(self.players@.len() as int) =~= self.players@);
        staying >= 2
    }

    /// Whether the human (seat 0) is to act now.
    pub fn is_human_turn(&self) -> (turn: bool)
        requires
            self.current == 0 ==> self.players@.len() > 0,
        ensures
            turn == (self.current == 0 && self.may_act(0)),
    {
        self.current == 0 && self.can_act(0)
    }

    fn active_count(&self) -> (n: usize)
        ensures
            n == count_active(self.players@),
    {
        let mut n: usize = 0;
        let mut i: usize = 0;
        while i < self.players.len()
            invariant
                i <= self.players@.len(),
                n == count_active(self.players@.take(i as int)),
                n <= i,
            decreases self.players@.len() - i,
        {
            assert(self.players@.take(i + 1).drop_last() =~= self.players@.take(i as int));
            if !self.players[i].eliminated {
                n = n + 1;
            }
            i = i + 1;
        }
        assert(self.players@.take(self.players@.len() as int) =~= self.players@);
        n
    }

    fn next_active(&self, from: usize) -> (next: usize)
        requires
            from < self.players@.len() <= 5,
        ensures
            next == next_active_seat(self.players@, from as int),
            next < self.players@.len(),
            next == from || !self.players@[next as int].eliminated,
    {
        proof {
            lemma_next_active_in_range(self.players@, from as int, 1);
        }
        let n = self.players.len();
        let mut offset: usize = 1;
        while offset <= n
            invariant
                1 <= offset <= n + 1,
                n == self.players@.len(),
                from < n <= 5,
                next_active_seat(self.players@, from as int) == next_active_from(
                    self.players@,
                    from as int,
                    offset as int,
                ),
            decreases n + 1 - offset,
        {
            let index = (from + offset) % n;
            if !self.players[index].eliminated {
                return index;
            }
            offset = offset + 1;
        }
        from
    }
}


/// Which seat comes next depends only on who is still in the game.
proof fn lemma_next_active_same(ps: Seq<Player>, qs: Seq<Player>, from: int, k: int)
    requires
        ps.len() == qs.len(),
        forall|j: int| 0 <= j < ps.len() ==> #[trigger] ps[j].eliminated == qs[j].eliminated,
    ensures
        next_active_from(ps, from, k) == next_active_from(qs, from, k),
    decreases ps.len() + 1 - k,
{
    if k >= 1 && k <= ps.len() {
        if ps.len() > 0 {
            assert(0 <= (from + k) % (ps.len() as int) < ps.len()) by (nonlinear_arith)
                requires
                    ps.len() > 0,
            ;
        }
        lemma_next_active_same(ps, qs, from, k + 1);
    }
}

proof fn lemma_other_active(ps: Seq<Player>, from: int) -> (j: int)
    requires
        0 <= from < ps.len(),
        count_active(ps) >= 2,
    ensures
        0 <= j < ps.len(),
        j != from,
        !ps[j].eliminated,
    decreases ps.len(),
{
    if from == ps.len() - 1 {
        lemma_one_active_left(ps.drop_last());
        let j = choose|j: int| 0 <= j < ps.drop_last().len() && !ps.drop_last()[j].eliminated;
        j
    } else if ps.last().eliminated {
        lemma_other_active(ps.drop_last(), from)
    } else {
        (ps.len() - 1) as int
    }
}

proof fn lemma_one_active_left(ps: Seq<Player>)
    ensures
        count_active(ps) >= 1 ==> exists|j: int| 0 <= j < ps.len() && !ps[j].eliminated,
    decreases ps.len(),
{
    if ps.len() > 0 {
        lemma_one_active_left(ps.drop_last());
        if count_active(ps.drop_last()) >= 1 {
            let j = choose|j: int| 0 <= j < ps.drop_last().len() && !ps.drop_last()[j].eliminated;
            assert(!ps[j].eliminated);
        } else if !ps.last().eliminated {
            assert(!ps[ps.len() - 1].eliminated);
        }
    }
}

proof fn lemma_next_active_reaches(ps: Seq<Player>, from: int, k: int, target: int)
    requires
        0 <= from < ps.len(),
        1 <= k <= target < ps.len(),
        !ps[(from + target) % (ps.len() as int)].eliminated,
    ensures
        next_active_from(ps, from, k) != from,
        !ps[next_active_from(ps, from, k)].eliminated,
        0 <= next_active_from(ps, from, k) < ps.len(),
    decreases target - k,
{
    let n = ps.len() as int;
    assert((from + k) % n != from) by (nonlinear_arith)
        requires
            0 <= from < n,
            1 <= k < n,
    ;
    assert(0 <= (from + k) % n < n) by (nonlinear_arith)
        requires
            n > 0,
            from + k >= 0,
    ;
    if ps[(from + k) % n].eliminated {
        lemma_next_active_reaches(ps, from, k + 1, target);
    }
}

/// With two players in the game, the next seat in the game is another one.
proof fn lemma_next_active_moves(ps: Seq<Player>, from: int)
    requires
        0 <= from < ps.len(),
        count_active(ps) >= 2,
    ensures
        next_active_seat(ps, from) != from,
        !ps[next_active_seat(ps, from)].eliminated,
        0 <= next_active_seat(ps, from) < ps.len(),
{
    let j = lemma_other_active(ps, from);
    let n = ps.len() as int;
    let target = if j > from { j - from } else { j + n - from };
    assert((from + target) % n == j) by (nonlinear_arith)
        requires
            target == (if j > from { j - from } else { j + n - from }),
            0 <= j < n,
            0 <= from < n,
    ;
    lemma_next_active_reaches(ps, from, 1, target);
}

impl Game {
    /// Moves up to `amount` chips from player `i` into the pot.
    fn commit(&mut self, i: usize, amount: u32)
        requires
            i < old(self).players@.len(),
            sum_stacks(old(self).players@) + old(self).pot <= u32::MAX,
            old(self).players@[i as int].street_bet + old(self).players@[i as int].stack
                <= u32::MAX,
            old(self).players@[i as int].contributed + old(self).players@[i as int].stack
                <= u32::MAX,
        ensures
            ({
                let p = old(self).players@[i as int];
                let paid = if amount <= p.stack { amount } else { p.stack };
                &&& final(self).players@ == old(self).players@.update(
                    i as int,
                    Player {
                        stack: (p.stack - paid) as u32,
                        street_bet: (p.street_bet + paid) as u32,
                        contributed: (p.contributed + paid) as u32,
                        all_in: p.all_in || p.stack - paid == 0,
                        ..p
                    },
                )
                &&& final(self).pot == old(self).pot + paid
            }),
            final(self).same_table(&*old(self)),
            final(self).current == old(self).current,
            final(self).current_bet == old(self).current_bet,
            final(self).min_raise == old(self).min_raise,
            final(self).street == old(self).street,
            final(self).message == old(self).message,
            final(self).last_payouts == old(self).last_payouts,
            final(self).game_over == old(self).game_over,
            final(self).human_won == old(self).human_won,
            sum_stacks(final(self).players@) + final(self).pot == sum_stacks(old(self).players@)
                + old(self).pot,
            sum_stacks(final(self).players@) + sum_contributed(final(self).players@) == sum_stacks(
                old(self).players@,
            ) + sum_contributed(old(self).players@),
            count_active(final(self).players@) == count_active(old(self).players@),
            count_live(final(self).players@) == count_live(old(self).players@),
            total_hole_cards(final(self).players@) == total_hole_cards(old(self).players@),
    {
        proof {
            lemma_stack_le_sum(self.players@, i as int);
            let p = self.players@[i as int];
            let paid = if amount <= p.stack { amount } else { p.stack };
            lemma_sums_update(
                self.players@,
                i as int,
                Player {
                    stack: (p.stack - paid) as u32,
                    street_bet: (p.street_bet + paid) as u32,
                    contributed: (p.contributed + paid) as u32,
                    all_in: p.all_in || p.stack - paid == 0,
                    ..p
                },
            );
        }
        let paid = if amount <= self.players[i].stack {
            amount
        } else {
            self.players[i].stack
        };
        self.players[i].stack -= paid;
        self.players[i].street_bet += paid;
        self.players[i].contributed += paid;
        self.pot += paid;
        if self.players[i].stack == 0 {
            self.players[i].all_in = true;
        }
        assert(self.players@ =~= old(self).players@.update(
            i as int,
            Player {
                stack: (old(self).players@[i as int].stack - paid) as u32,
                street_bet: (old(self).players@[i as int].street_bet + paid) as u32,
                contributed: (old(self).players@[i as int].contributed + paid) as u32,
                all_in: old(self).players@[i as int].all_in || old(self).players@[i as int].stack - paid == 0,
                ..old(self).players@[i as int]
            },
        ));
    }

    /// Marks busted stacks and reports whether the tournament has ended.
    pub fn update_tournament_state(&mut self) -> (over: bool)
        requires
            1 <= old(self).players@.len(),
        ensures
            final(self).players@.len() == old(self).players@.len(),
            forall|i: int|
                0 <= i < old(self).players@.len() ==> #[trigger] final(self).players@[i] == busted(
                    old(self).players@[i],
                ),
            over == final(self).game_over,
            final(self).game_over == (final(self).players@[0].eliminated || count_active(
                final(self).players@,
            ) <= 1),
            final(self).human_won == (final(self).game_over && !final(self).players@[0].eliminated),
            final(self).game_over ==> final(self).street == Street::Showdown,
            final(self).game_over ==> final(self).message@ == (if final(self).human_won {
                "Вы выиграли турнир! Все соперники выбыли."@
            } else {
                "Фишки закончились — вы выбыли из игры."@
            }),
            !final(self).game_over ==> final(self).street == old(self).street
                && final(self).message == old(self).message,
            final(self).same_table(&*old(self)),
            final(self).pot == old(self).pot,
            final(self).current == old(self).current,
            final(self).current_bet == old(self).current_bet,
            final(self).min_raise == old(self).min_raise,
            final(self).last_payouts == old(self).last_payouts,
    {
        let ghost before = self.players@;
        let mut i: usize = 0;
        while i < self.players.len()
            invariant
                i <= self.players@.len(),
                self.players@.len() == before.len(),
                forall|j: int| 0 <= j < i ==> #[trigger] self.players@[j] == busted(before[j]),
                forall|j: int| i <= j < before.len() ==> #[trigger] self.players@[j] == before[j],
                self.same_table(&*old(self)),
                self.street == old(self).street,
                self.message == old(self).message,
                self.pot == old(self).pot,
                self.current == old(self).current,
                self.current_bet == old(self).current_bet,
                self.min_raise == old(self).min_raise,
                self.last_payouts == old(self).last_payouts,
            decreases self.players@.len() - i,
        {
            if self.players[i].stack == 0 {
                self.players[i].eliminated = true;
                self.players[i].folded = true;
            }
            i = i + 1;
        }
        let remaining = self.active_count();
        self.game_over = self.players[0].eliminated || remaining <= 1;
        self.human_won = self.game_over && !self.players[0].eliminated;
        if self.game_over {
            self.street = Street::Showdown;
            self.message = if self.human_won {
                String::from_str("Вы выиграли турнир! Все соперники выбыли.")
            } else {
                String::from_str("Фишки закончились — вы выбыли из игры.")
            };
        }
        self.game_over
    }
}


proof fn lemma_reset_sums(before: Seq<Player>, reset: Seq<Player>)
    requires
        before.len() == reset.len(),
        forall|j: int| 0 <= j < before.len() ==> #[trigger] seat_reset(before[j], reset[j])
            && reset[j].hole@.len() == 0,
    ensures
        sum_stacks(reset) == sum_stacks(before),
        sum_contributed(reset) == 0,
        total_hole_cards(reset) == 0,
        count_live(reset) == count_active(reset),
    decreases before.len(),
{
    if before.len() > 0 {
        let n = before.len() - 1;
        assert(seat_reset(before[n as int], reset[n as int]));
        lemma_reset_sums(before.drop_last(), reset.drop_last());
    }
}

/// Sums over seats that differ only in their hole cards agree.
proof fn lemma_sums_frame(ps: Seq<Player>, qs: Seq<Player>)
    requires
        ps.len() == qs.len(),
        forall|j: int| 0 <= j < ps.len() ==> #[trigger] qs[j] == (Player { hole: qs[j].hole, ..ps[j] }),
    ensures
        sum_stacks(qs) == sum_stacks(ps),
        sum_contributed(qs) == sum_contributed(ps),
        count_active(qs) == count_active(ps),
        count_live(qs) == count_live(ps),
        count_ready(qs) == count_ready(ps),
    decreases ps.len(),
{
    if ps.len() > 0 {
        let n = ps.len() - 1;
        assert(qs[n as int] == (Player { hole: qs[n as int].hole, ..ps[n as int] }));
        assert forall|j: int| 0 <= j < ps.drop_last().len() implies #[trigger] qs.drop_last()[j] == (Player { hole: qs.drop_last()[j].hole, ..ps.drop_last()[j] }) by {
            assert(qs[j] == (Player { hole: qs[j].hole, ..ps[j] }));
        }
        lemma_sums_frame(ps.drop_last(), qs.drop_last());
    }
}

/// The seats after a deal: reset, given cards, and charged their blinds.
proof fn lemma_hand_dealt(
    before: Seq<Player>,
    reset: Seq<Player>,
    dealt: Seq<Player>,
    ps: Seq<Player>,
    sb: int,
    bb: int,
    small: int,
    big: int,
)
    requires
        before.len() == reset.len() == dealt.len() == ps.len(),
        0 <= sb < ps.len(),
        0 <= bb < ps.len(),
        sb != bb,
        !reset[sb].eliminated,
        !reset[bb].eliminated,
        0 <= small <= big,
        forall|j: int| 0 <= j < before.len() ==> #[trigger] seat_reset(before[j], reset[j]),
        forall|j: int| 0 <= j < dealt.len() ==> #[trigger] dealt[j] == (Player { hole: dealt[j].hole, ..reset[j] }),
        forall|j: int| 0 <= j < dealt.len() ==> all_valid(#[trigger] dealt[j].hole@),
        forall|j: int| 0 <= j < dealt.len() ==> #[trigger] dealt[j].hole@.len() == (if reset[j].eliminated {
            0int
        } else {
            2int
        }),
        forall|j: int| 0 <= j < ps.len() && j != sb && j != bb ==> #[trigger] ps[j] == dealt[j],
        ps[sb] == (Player {
            stack: (dealt[sb].stack - blind_paid(small, dealt[sb].stack as int)) as u32,
            street_bet: blind_paid(small, dealt[sb].stack as int) as u32,
            contributed: blind_paid(small, dealt[sb].stack as int) as u32,
            all_in: dealt[sb].all_in || dealt[sb].stack - blind_paid(small, dealt[sb].stack as int) == 0,
            ..dealt[sb]
        }),
        ps[bb] == (Player {
            stack: (dealt[bb].stack - blind_paid(big, dealt[bb].stack as int)) as u32,
            street_bet: blind_paid(big, dealt[bb].stack as int) as u32,
            contributed: blind_paid(big, dealt[bb].stack as int) as u32,
            all_in: dealt[bb].all_in || dealt[bb].stack - blind_paid(big, dealt[bb].stack as int) == 0,
            ..dealt[bb]
        }),
    ensures
        forall|j: int|
            0 <= j < ps.len() ==> seat_dealt(
                before[j],
                #[trigger] ps[j],
                (if j == sb {
                    blind_paid(small, before[sb].stack as int)
                } else if j == bb {
                    blind_paid(big, before[bb].stack as int)
                } else {
                    0
                }),
            ),
        forall|j: int| 0 <= j < ps.len() ==> all_valid(#[trigger] ps[j].hole@),
        forall|j: int| 0 <= j < ps.len() ==> #[trigger] ps[j].street_bet <= ps[j].contributed && ps[j].street_bet <= big,
        forall|j: int| 0 <= j < ps.len() ==> #[trigger] ps[j].folded == ps[j].eliminated,
{
    assert(dealt[sb] == (Player { hole: dealt[sb].hole, ..reset[sb] }));
    assert(dealt[bb] == (Player { hole: dealt[bb].hole, ..reset[bb] }));
    assert(seat_reset(before[sb], reset[sb]));
    assert(seat_reset(before[bb], reset[bb]));
    assert forall|j: int| 0 <= j < ps.len() implies seat_dealt(
        before[j],
        #[trigger] ps[j],
        (if j == sb {
            blind_paid(small, before[sb].stack as int)
        } else if j == bb {
            blind_paid(big, before[bb].stack as int)
        } else {
            0
        }),
    ) && all_valid(ps[j].hole@) && ps[j].street_bet <= ps[j].contributed && ps[j].street_bet <= big
        && ps[j].folded == ps[j].eliminated by {
        assert(dealt[j] == (Player { hole: dealt[j].hole, ..reset[j] }));
        assert(seat_reset(before[j], reset[j]));
        assert(all_valid(dealt[j].hole@));
        if j != sb && j != bb {
            assert(ps[j] == dealt[j]);
        }
    }
}

/// A seat that has not played yet.
fn seat(name: String, bot: Option<BotStyle>, stack: u32) -> (p: Player)
    ensures
        p.name == name,
        p.bot == bot,
        p.stack == stack,
        p.hole@.len() == 0,
        !p.folded && !p.all_in && !p.acted && !p.eliminated,
        p.street_bet == 0 && p.contributed == 0,
{
    Player {
        name,
        stack,
        hole: Vec::new(),
        folded: false,
        all_in: false,
        street_bet: 0,
        contributed: 0,
        acted: false,
        eliminated: false,
        bot,
    }
}

proof fn lemma_all_active(ps: Seq<Player>)
    requires
        forall|j: int| 0 <= j < ps.len() ==> !(#[trigger] ps[j]).eliminated,
    ensures
        count_active(ps) == ps.len(),
    decreases ps.len(),
{
    if ps.len() > 0 {
        assert(!ps[ps.len() - 1].eliminated);
        assert forall|j: int| 0 <= j < ps.drop_last().len() implies !(#[trigger] ps.drop_last()[j]).eliminated by {
            assert(!ps[j].eliminated);
        }
        lemma_all_active(ps.drop_last());
    }
}

proof fn lemma_live_is_active(ps: Seq<Player>)
    requires
        forall|j: int| 0 <= j < ps.len() ==> #[trigger] ps[j].folded == ps[j].eliminated,
    ensures
        count_live(ps) == count_active(ps),
    decreases ps.len(),
{
    if ps.len() > 0 {
        lemma_live_is_active(ps.drop_last());
    }
}

/// How far seat `j` sits after the button `dealer` going round a table of
/// `n` seats: 1 for the next seat, `n` for the button itself.
pub open spec fn offset_of(n: int, dealer: int, j: int) -> int {
    if j > dealer { j - dealer } else { j - dealer + n }
}

/// The seat `o` places after the button `dealer` at a table of `n` seats.
pub open spec fn seat_after(n: int, dealer: int, o: int) -> int {
    if dealer + o < n { dealer + o } else { dealer + o - n }
}

/// Where seat `j` comes in the deal: how many seats still in the game sit
/// between the button `dealer` and it.
pub open spec fn deal_place(ps: Seq<Player>, dealer: int, j: int) -> int {
    actives_between(ps, dealer, offset_of(ps.len() as int, dealer, j) - 1)
}

/// The hole cards seat `j` gets from `deck`: cards come off the top (the
/// end), one to each seat still in the game per round, starting with the
/// seat after the button, for two rounds.
pub open spec fn hole_from(deck: Seq<Card>, ps: Seq<Player>, dealer: int, j: int) -> Seq<Card> {
    let top = deck.len() - 1;
    let place = deal_place(ps, dealer, j);
    seq![deck[top - place], deck[top - count_active(ps) - place]]
}

/// The players still in the game among the first `m` seats after the button.
pub open spec fn actives_between(ps: Seq<Player>, dealer: int, m: int) -> int
    decreases m,
{
    if m <= 0 {
        0
    } else {
        actives_between(ps, dealer, m - 1) + if !ps[seat_after(ps.len() as int, dealer, m)].eliminated {
            1int
        } else {
            0int
        }
    }
}

proof fn lemma_offset_of_seat(n: int, dealer: int, o: int)
    requires
        0 <= dealer < n,
        1 <= o <= n,
    ensures
        0 <= seat_after(n, dealer, o) < n,
        offset_of(n, dealer, seat_after(n, dealer, o)) == o,
{
}

proof fn lemma_offset_in_range(n: int, dealer: int, j: int)
    requires
        0 <= dealer < n,
        0 <= j < n,
    ensures
        1 <= offset_of(n, dealer, j) <= n,
        seat_after(n, dealer, offset_of(n, dealer, j)) == j,
{
}

proof fn lemma_offset_unique(n: int, dealer: int, j: int, o: int)
    requires
        0 <= dealer < n,
        0 <= j < n,
        1 <= o <= n,
        j != seat_after(n, dealer, o),
    ensures
        offset_of(n, dealer, j) != o,
{
    lemma_offset_in_range(n, dealer, j);
}

proof fn lemma_actives_between_bound(ps: Seq<Player>, dealer: int, m: int)
    ensures
        0 <= actives_between(ps, dealer, m) <= if m < 0 { 0 } else { m },
        forall|k: int| 0 <= k <= m ==> #[trigger] actives_between(ps, dealer, k) <= actives_between(ps, dealer, m),
    decreases m,
{
    if m > 0 {
        lemma_actives_between_bound(ps, dealer, m - 1);
    }
}

proof fn lemma_actives_between_same(ps: Seq<Player>, qs: Seq<Player>, dealer: int, m: int)
    requires
        ps.len() == qs.len(),
        forall|j: int| 0 <= j < ps.len() ==> #[trigger] qs[j].eliminated == ps[j].eliminated,
        0 <= dealer < ps.len(),
        m <= ps.len(),
    ensures
        actives_between(qs, dealer, m) == actives_between(ps, dealer, m),
    decreases m,
{
    if m > 0 {
        lemma_offset_of_seat(ps.len() as int, dealer, m);
        lemma_actives_between_same(ps, qs, dealer, m - 1);
    }
}

/// With two cards for each player in the game and none for the rest, the
/// table holds twice as many hole cards as players in the game.
proof fn lemma_holes_total(ps: Seq<Player>)
    requires
        forall|j: int| 0 <= j < ps.len() ==> #[trigger] ps[j].hole@.len() == (if ps[j].eliminated {
            0int
        } else {
            2int
        }),
    ensures
        total_hole_cards(ps) == 2 * count_active(ps),
    decreases ps.len(),
{
    if ps.len() > 0 {
        assert(ps[ps.len() - 1].hole@.len() == (if ps[ps.len() - 1].eliminated { 0int } else { 2int }));
        assert forall|j: int| 0 <= j < ps.drop_last().len() implies #[trigger] ps.drop_last()[j].hole@.len() == (if ps.drop_last()[j].eliminated {
            0int
        } else {
            2int
        }) by {
            assert(ps[j].hole@.len() == (if ps[j].eliminated { 0int } else { 2int }));
        }
        lemma_holes_total(ps.drop_last());
    }
}

impl Game {
    /// Everything but the seats and the deck agrees.
    pub open spec fn same_but_seats_and_deck(&self, other: &Game) -> bool {
        &&& self.community == other.community
        &&& self.dealer == other.dealer
        &&& self.reveal_all == other.reveal_all
        &&& self.highlighted_cards == other.highlighted_cards
        &&& self.kicker_cards == other.kicker_cards
        &&& self.hand_analysis == other.hand_analysis
        &&& self.small_blind == other.small_blind
        &&& self.big_blind == other.big_blind
        &&& self.hand_number == other.hand_number
        &&& self.blind_level == other.blind_level
        &&& self.config == other.config
        &&& self.pot == other.pot
        &&& self.current == other.current
        &&& self.current_bet == other.current_bet
        &&& self.min_raise == other.min_raise
        &&& self.street == other.street
        &&& self.message == other.message
        &&& self.last_payouts == other.last_payouts
        &&& self.game_over == other.game_over
        &&& self.human_won == other.human_won
    }
}

impl Game {
    /// Clears seat `i` for a new hand.
    fn reset_seat(&mut self, i: usize)
        requires
            i < old(self).players@.len(),
        ensures
            final(self).players@.len() == old(self).players@.len(),
            seat_reset(old(self).players@[i as int], final(self).players@[i as int]),
            final(self).players@[i as int].hole@.len() == 0,
            forall|j: int| 0 <= j < old(self).players@.len() && j != i ==> #[trigger] final(self).players@[j] == old(self).players@[j],
            final(self).same_rest(&*old(self)),
            final(self).last_payouts == old(self).last_payouts,
            final(self).config == old(self).config,
    {
        let out = self.players[i].eliminated || self.players[i].stack == 0;
        self.players[i].eliminated = out;
        self.players[i].hole.clear();
        self.players[i].folded = out;
        self.players[i].all_in = false;
        self.players[i].street_bet = 0;
        self.players[i].contributed = 0;
        self.players[i].acted = out;
    }

    /// Clears every seat for a new hand and zeroes the payouts.
    #[verifier::spinoff_prover]
    fn reset_seats(&mut self)
        requires
            old(self).seats_ok(),
        ensures
            final(self).players@.len() == old(self).players@.len(),
            forall|j: int|
                0 <= j < old(self).players@.len() ==> #[trigger] seat_reset(
                    old(self).players@[j],
                    final(self).players@[j],
                ) && final(self).players@[j].hole@.len() == 0,
            final(self).last_payouts@ == Seq::new(old(self).players@.len(), |j: int| 0u32),
            final(self).same_rest(&*old(self)),
            final(self).config == old(self).config,
            sum_stacks(final(self).players@) == sum_stacks(old(self).players@),
            sum_contributed(final(self).players@) == 0,
            total_hole_cards(final(self).players@) == 0,
            count_live(final(self).players@) == count_active(final(self).players@),
            forall|j: int|
                0 <= j < old(self).players@.len() ==> #[trigger] busted(final(self).players@[j])
                    == final(self).players@[j],
    {
        let ghost before = self.players@;
        let n = self.players.len();
        let mut i: usize = 0;
        while i < n
            invariant
                n == before.len() == self.players@.len(),
                2 <= n <= 5,
                i <= n,
                forall|j: int| 0 <= j < i ==> #[trigger] seat_reset(before[j], self.players@[j]),
                forall|j: int| 0 <= j < i ==> (#[trigger] self.players@[j]).hole@.len() == 0,
                forall|j: int| i <= j < n ==> #[trigger] self.players@[j] == before[j],
                self.same_rest(&*old(self)),
                self.last_payouts == old(self).last_payouts,
                self.config == old(self).config,
            decreases n - i,
        {
            let ghost prev = self.players@;
            self.reset_seat(i);
            assert forall|j: int| 0 <= j < i + 1 implies #[trigger] seat_reset(before[j], self.players@[j])
                && self.players@[j].hole@.len() == 0 by {
                if j < i {
                    assert(self.players@[j] == prev[j]);
                    assert(seat_reset(before[j], prev[j]));
                    assert(prev[j].hole@.len() == 0);
                } else {
                    assert(prev[j] == before[j]);
                }
            }
            assert forall|j: int| i + 1 <= j < n implies #[trigger] self.players@[j] == before[j] by {
                assert(self.players@[j] == prev[j]);
            }
            i = i + 1;
        }
        let ghost reset = self.players@;
        proof {
            lemma_reset_sums(before, reset);
        }
        let mut k: usize = 0;
        while k < n
            invariant
                n == self.players@.len() == self.last_payouts@.len(),
                k <= n,
                forall|j: int| 0 <= j < k ==> #[trigger] self.last_payouts@[j] == 0,
                self.same_rest(&*old(self)),
                self.config == old(self).config,
                self.players@ == reset,
            decreases n - k,
        {
            self.last_payouts.set(k, 0);
            k = k + 1;
        }
        assert(self.last_payouts@ =~= Seq::new(n as nat, |j: int| 0u32));
        assert forall|j: int| 0 <= j < n implies #[trigger] busted(reset[j]) == reset[j] by {
            assert(seat_reset(before[j], reset[j]));
        }
    }

    /// Counts the hand, raises the blinds when a level starts, moves the
    /// button and clears the board for a fresh deck.
    fn open_hand(&mut self)
        requires
            old(self).hand_number < u32::MAX,
            2 <= old(self).players@.len() <= 5,
            old(self).dealer < old(self).players@.len(),
            old(self).small_blind <= old(self).big_blind,
            count_active(old(self).players@) >= 2,
        ensures
            final(self).players == old(self).players,
            final(self).last_payouts == old(self).last_payouts,
            final(self).config == old(self).config,
            final(self).game_over == old(self).game_over,
            final(self).human_won == old(self).human_won,
            final(self).message == old(self).message,
            final(self).current == old(self).current,
            final(self).hand_number == old(self).hand_number + 1,
            final(self).small_blind == (if level_starts(old(self).config, final(self).hand_number as int) {
                doubled(old(self).small_blind)
            } else {
                old(self).small_blind
            }),
            final(self).big_blind == (if level_starts(old(self).config, final(self).hand_number as int) {
                doubled(old(self).big_blind)
            } else {
                old(self).big_blind
            }),
            final(self).blind_level == (if level_starts(old(self).config, final(self).hand_number as int) {
                if old(self).blind_level < u32::MAX { (old(self).blind_level + 1) as u32 } else { u32::MAX }
            } else {
                old(self).blind_level
            }),
            final(self).small_blind <= final(self).big_blind,
            final(self).dealer == next_active_seat(old(self).players@, old(self).dealer as int),
            final(self).dealer < final(self).players@.len(),
            !old(self).players@[final(self).dealer as int].eliminated,
            final(self).community@.len() == 0,
            final(self).pot == 0,
            final(self).current_bet == 0,
            final(self).min_raise == final(self).big_blind,
            final(self).street == Street::Preflop,
            !final(self).reveal_all,
            final(self).highlighted_cards@.len() == 0,
            final(self).kicker_cards@.len() == 0,
            final(self).hand_analysis@.len() == 0,
            final(self).deck@.len() == 52,
            all_valid(final(self).deck@),
            final(self).deck@.to_multiset() == crate::cards::standard_deck().to_multiset(),
    {
        self.hand_number = self.hand_number + 1;
        if self.config.tournament_mode && self.hand_number > 1 && (self.hand_number - 1)
            % (if self.config.hands_per_level == 0 {
            1
        } else {
            self.config.hands_per_level
        }) == 0 {
            self.small_blind = self.small_blind.saturating_add(self.small_blind);
            self.big_blind = self.big_blind.saturating_add(self.big_blind);
            self.blind_level = self.blind_level.saturating_add(1);
        }
        proof {
            lemma_next_active_moves(self.players@, self.dealer as int);
        }
        self.dealer = self.next_active(self.dealer);
        self.community.clear();
        self.pot = 0;
        self.current_bet = 0;
        self.min_raise = self.big_blind;
        self.street = Street::Preflop;
        self.reveal_all = false;
        self.highlighted_cards.clear();
        self.kicker_cards.clear();
        self.hand_analysis.clear();
        self.deck = Deck::shuffled();
    }

    /// Deals one card from the top of the deck to each player still in the
    /// game, going round the table from the seat left of the button.
    fn deal_round(&mut self)
        requires
            2 <= old(self).players@.len() <= 5,
            old(self).dealer < old(self).players@.len(),
            old(self).deck@.len() >= old(self).players@.len(),
            all_valid(old(self).deck@),
            forall|j: int| 0 <= j < old(self).players@.len() ==> all_valid(#[trigger] old(self).players@[j].hole@),
        ensures
            final(self).same_but_seats_and_deck(&*old(self)),
            final(self).players@.len() == old(self).players@.len(),
            forall|j: int|
                0 <= j < old(self).players@.len() ==> #[trigger] final(self).players@[j] == (Player {
                    hole: final(self).players@[j].hole,
                    ..old(self).players@[j]
                }),
            forall|j: int|
                0 <= j < old(self).players@.len() ==> #[trigger] final(self).players@[j].hole@ == (if old(self).players@[j].eliminated {
                    old(self).players@[j].hole@
                } else {
                    old(self).players@[j].hole@.push(
                        old(self).deck@[old(self).deck@.len() - 1 - actives_between(
                            old(self).players@,
                            old(self).dealer as int,
                            offset_of(old(self).players@.len() as int, old(self).dealer as int, j) - 1,
                        )],
                    )
                }),
            final(self).deck@ == old(self).deck@.take(
                old(self).deck@.len() - actives_between(
                    old(self).players@,
                    old(self).dealer as int,
                    old(self).players@.len() as int,
                ),
            ),
            forall|j: int| 0 <= j < old(self).players@.len() ==> all_valid(#[trigger] final(self).players@[j].hole@),
            all_valid(final(self).deck@),
            final(self).deck@.len() + total_hole_cards(final(self).players@) == old(self).deck@.len()
                + total_hole_cards(old(self).players@),
            forall|x: Card| #[trigger] card_count(final(self), x) == card_count(&*old(self), x),
    {
        let ghost start = self.players@;
        let ghost d0 = self.deck@;
        let n = self.players.len();
        let ghost dealer = self.dealer as int;
        let ghost mut given: int = 0;
        let mut offset: usize = 1;
        while offset <= n
            invariant
                1 <= offset <= n + 1,
                n == start.len() == self.players@.len(),
                2 <= n <= 5,
                dealer == self.dealer as int,
                0 <= dealer < n,
                d0.len() >= n,
                all_valid(d0),
                given == actives_between(start, dealer, offset - 1),
                0 <= given <= offset - 1,
                self.deck@ == d0.take(d0.len() - given),
                forall|j: int|
                    0 <= j < n ==> #[trigger] self.players@[j] == (Player {
                        hole: self.players@[j].hole,
                        ..start[j]
                    }),
                forall|j: int|
                    0 <= j < n ==> #[trigger] self.players@[j].hole@ == (if start[j].eliminated
                        || offset_of(n as int, dealer, j) >= offset {
                        start[j].hole@
                    } else {
                        start[j].hole@.push(
                            d0[d0.len() - 1 - actives_between(
                                start,
                                dealer,
                                offset_of(n as int, dealer, j) - 1,
                            )],
                        )
                    }),
                forall|j: int| 0 <= j < n ==> all_valid(#[trigger] start[j].hole@),
                self.same_but_seats_and_deck(&*old(self)),
                self.deck@.len() + total_hole_cards(self.players@) == d0.len() + total_hole_cards(start),
                forall|x: Card| #[trigger] card_count(self, x) == card_count(&*old(self), x),
            decreases n + 1 - offset,
        {
            let seat = if self.dealer + offset < n {
                self.dealer + offset
            } else {
                self.dealer + offset - n
            };
            proof {
                lemma_offset_of_seat(n as int, dealer, offset as int);
            }
            if !self.players[seat].eliminated {
                let ghost ps = self.players@;
                let ghost prev = *self;
                let card = self.deck.draw();
                self.players[seat].hole.push(card);
                proof {
                    broadcast use vstd::seq_lib::group_to_multiset_ensures;

                    assert forall|j: int| 0 <= j < n && j != seat as int implies #[trigger] self.players@[j].hole@
                        == ps[j].hole@ by {
                        assert(self.players@[j] == ps[j]);
                    }
                    lemma_hole_cards_push(ps, self.players@, seat as int, card);
                    assert(prev.deck@ =~= self.deck@.push(card));
                    assert forall|x: Card| #[trigger] card_count(self, x) == card_count(&*old(self), x) by {
                        assert(card_count(&prev, x) == card_count(&*old(self), x));
                    }
                    lemma_sums_update(ps, seat as int, self.players@[seat as int]);
                    assert(self.players@ =~= ps.update(seat as int, self.players@[seat as int]));
                    assert(card == d0[d0.len() - 1 - given]);
                    given = given + 1;
                    assert forall|j: int| 0 <= j < n implies #[trigger] self.players@[j] == (Player {
                        hole: self.players@[j].hole,
                        ..start[j]
                    }) by {
                        if j != seat as int {
                            assert(self.players@[j] == ps[j]);
                        }
                    }
                    assert forall|j: int| 0 <= j < n implies #[trigger] self.players@[j].hole@ == (if start[j].eliminated
                        || offset_of(n as int, dealer, j) >= offset + 1 {
                        start[j].hole@
                    } else {
                        start[j].hole@.push(
                            d0[d0.len() - 1 - actives_between(
                                start,
                                dealer,
                                offset_of(n as int, dealer, j) - 1,
                            )],
                        )
                    }) by {
                        if j != seat as int {
                            assert(self.players@[j] == ps[j]);
                            lemma_offset_unique(n as int, dealer, j, offset as int);
                        }
                    }
                    assert(self.deck@ =~= d0.take(d0.len() - given));
                }
            } else {
                proof {
                    assert forall|j: int| 0 <= j < n implies #[trigger] self.players@[j].hole@ == (if start[j].eliminated
                        || offset_of(n as int, dealer, j) >= offset + 1 {
                        start[j].hole@
                    } else {
                        start[j].hole@.push(
                            d0[d0.len() - 1 - actives_between(
                                start,
                                dealer,
                                offset_of(n as int, dealer, j) - 1,
                            )],
                        )
                    }) by {
                        if j != seat as int {
                            lemma_offset_unique(n as int, dealer, j, offset as int);
                        }
                    }
                }
            }
            offset = offset + 1;
        }
        proof {
            assert forall|j: int| 0 <= j < n implies all_valid(#[trigger] self.players@[j].hole@) by {
                lemma_offset_in_range(n as int, dealer, j);
                if !start[j].eliminated {
                    let k = d0.len() - 1 - actives_between(start, dealer, offset_of(n as int, dealer, j) - 1);
                    lemma_actives_between_bound(start, dealer, offset_of(n as int, dealer, j) - 1);
                    assert(valid_card(d0[k]));
                    assert forall|q: int| 0 <= q < self.players@[j].hole@.len() implies valid_card(#[trigger] self.players@[j].hole@[q]) by {
                        if q < start[j].hole@.len() {
                            assert(self.players@[j].hole@[q] == start[j].hole@[q]);
                        }
                    }
                }
            }
            assert forall|q: int| 0 <= q < self.deck@.len() implies valid_card(#[trigger] self.deck@[q]) by {
                assert(self.deck@[q] == d0[q]);
            }
            assert forall|j: int| 0 <= j < n implies #[trigger] self.players@[j].hole@ == (if start[j].eliminated {
                start[j].hole@
            } else {
                start[j].hole@.push(
                    d0[d0.len() - 1 - actives_between(start, dealer, offset_of(n as int, dealer, j) - 1)],
                )
            }) by {
                lemma_offset_in_range(n as int, dealer, j);
            }
        }
    }

    /// Deals two rounds of one card to each player still in the game,
    /// starting left of the button.
    fn deal_hole_cards(&mut self)
        requires
            2 <= old(self).players@.len() <= 5,
            old(self).dealer < old(self).players@.len(),
            count_active(old(self).players@) >= 2,
            old(self).deck@.len() == 52,
            all_valid(old(self).deck@),
            total_hole_cards(old(self).players@) == 0,
            forall|j: int| 0 <= j < old(self).players@.len() ==> #[trigger] old(self).players@[j].hole@.len() == 0,
        ensures
            final(self).same_but_seats_and_deck(&*old(self)),
            final(self).players@.len() == old(self).players@.len(),
            forall|j: int|
                0 <= j < old(self).players@.len() ==> #[trigger] final(self).players@[j] == (Player {
                    hole: final(self).players@[j].hole,
                    ..old(self).players@[j]
                }),
            forall|j: int| 0 <= j < old(self).players@.len() ==> all_valid(#[trigger] final(self).players@[j].hole@),
            forall|j: int|
                0 <= j < old(self).players@.len() ==> #[trigger] final(self).players@[j].hole@.len() == (if old(self).players@[j].eliminated {
                    0int
                } else {
                    2int
                }),
            total_hole_cards(final(self).players@) == 2 * count_active(old(self).players@),
            count_active(final(self).players@) == count_active(old(self).players@),
            final(self).deck@.len() == 52 - 2 * count_active(old(self).players@),
            forall|j: int|
                0 <= j < old(self).players@.len() && !old(self).players@[j].eliminated
                    ==> #[trigger] final(self).players@[j].hole@ == hole_from(
                    old(self).deck@,
                    old(self).players@,
                    old(self).dealer as int,
                    j,
                ),
            final(self).deck@ == old(self).deck@.take(52 - 2 * count_active(old(self).players@)),
            all_valid(final(self).deck@),
            forall|x: Card| #[trigger] card_count(final(self), x) == card_count(&*old(self), x),
    {
        let ghost start = self.players@;
        proof {
            lemma_actives_between_bound(start, self.dealer as int, start.len() as int);
        }
        self.deal_round();
        let ghost first_game = *self;
        let ghost first = self.players@;
        proof {
            assert forall|j: int| 0 <= j < start.len() implies #[trigger] first[j].eliminated == start[j].eliminated by {
                assert(first[j] == (Player { hole: first[j].hole, ..start[j] }));
            }
            lemma_actives_between_same(start, first, self.dealer as int, start.len() as int);
        }
        self.deal_round();
        proof {
            let ps = self.players@;
            assert forall|j: int| 0 <= j < start.len() implies #[trigger] ps[j] == (Player {
                hole: ps[j].hole,
                ..start[j]
            }) by {
                assert(ps[j] == (Player { hole: ps[j].hole, ..first[j] }));
                assert(first[j] == (Player { hole: first[j].hole, ..start[j] }));
            }
            assert forall|j: int| 0 <= j < start.len() implies #[trigger] ps[j].hole@.len() == (if start[j].eliminated {
                0int
            } else {
                2int
            }) by {
                assert(ps[j] == (Player { hole: ps[j].hole, ..first[j] }));
                assert(first[j] == (Player { hole: first[j].hole, ..start[j] }));
                assert(start[j].hole@.len() == 0);
            }
            lemma_sums_frame(start, ps);
            lemma_holes_total(ps);
            assert forall|x: Card| #[trigger] card_count(self, x) == card_count(&*old(self), x) by {
                assert(card_count(&first_game, x) == card_count(&*old(self), x));
            }
            let n = start.len() as int;
            let dealer = self.dealer as int;
            let deck = old(self).deck@;
            let deck1 = first_game.deck@;
            let m = actives_between(start, dealer, n);
            lemma_actives_between_bound(start, dealer, n);
            assert(m == count_active(start));
            assert forall|j: int| 0 <= j < n && !start[j].eliminated implies #[trigger] ps[j].hole@
                == hole_from(deck, start, dealer, j) by {
                lemma_offset_in_range(n, dealer, j);
                let k = offset_of(n, dealer, j) - 1;
                lemma_actives_between_same(start, first, dealer, k);
                let place = actives_between(start, dealer, k);
                lemma_actives_between_bound(start, dealer, k);
                assert(0 <= place <= m);
                assert(first[j].hole@ == start[j].hole@.push(deck[deck.len() - 1 - place]));
                assert(ps[j].hole@ == first[j].hole@.push(deck1[deck1.len() - 1 - place]));
                assert(start[j].hole@.len() == 0);
                assert(deck1 == deck.take(52 - m));
                assert(deck1[deck1.len() - 1 - place] == deck[51 - m - place]);
                assert(ps[j].hole@[0] == deck[51 - place]);
                assert(ps[j].hole@[1] == deck[51 - m - place]);
                assert(deal_place(start, dealer, j) == place);
                assert(ps[j].hole@ =~= hole_from(deck, start, dealer, j));
            }
            assert(self.deck@ =~= deck.take(52 - 2 * count_active(start)));
        }
    }

    /// Posts the blinds and hands the turn to the first player to act.
    fn post_blinds(&mut self)
        requires
            2 <= old(self).players@.len() <= 5,
            old(self).dealer < old(self).players@.len(),
            !old(self).players@[old(self).dealer as int].eliminated,
            count_active(old(self).players@) >= 2,
            old(self).pot == 0,
            sum_contributed(old(self).players@) == 0,
            sum_stacks(old(self).players@) <= u32::MAX,
            forall|j: int| 0 <= j < old(self).players@.len() ==> #[trigger] old(self).players@[j].street_bet == 0
                && old(self).players@[j].contributed == 0,
            old(self).small_blind <= old(self).big_blind,
        ensures
            ({
                let ps = old(self).players@;
                let heads_up = count_active(ps) == 2;
                let sb = if heads_up {
                    old(self).dealer as int
                } else {
                    next_active_seat(ps, old(self).dealer as int)
                };
                let bb = next_active_seat(ps, sb);
                let sb_paid = blind_paid(old(self).small_blind as int, ps[sb].stack as int);
                let bb_paid = blind_paid(old(self).big_blind as int, ps[bb].stack as int);
                &&& sb != bb
                &&& 0 <= sb < ps.len()
                &&& 0 <= bb < ps.len()
                &&& final(self).players@.len() == ps.len()
                &&& forall|j: int| 0 <= j < ps.len() && j != sb && j != bb ==> #[trigger] final(self).players@[j] == ps[j]
                &&& final(self).players@[sb] == (Player {
                        stack: (ps[sb].stack - sb_paid) as u32,
                        street_bet: sb_paid as u32,
                        contributed: sb_paid as u32,
                        all_in: ps[sb].all_in || ps[sb].stack - sb_paid == 0,
                        ..ps[sb]
                    })
                &&& final(self).players@[bb] == (Player {
                        stack: (ps[bb].stack - bb_paid) as u32,
                        street_bet: bb_paid as u32,
                        contributed: bb_paid as u32,
                        all_in: ps[bb].all_in || ps[bb].stack - bb_paid == 0,
                        ..ps[bb]
                    })
                &&& final(self).pot == sb_paid + bb_paid
                &&& final(self).current == (if heads_up { old(self).dealer as int } else { next_active_seat(ps, bb) })
            }),
            final(self).current_bet == old(self).big_blind,
            final(self).min_raise == old(self).big_blind,
            final(self).same_table(&*old(self)),
            final(self).street == old(self).street,
            final(self).last_payouts == old(self).last_payouts,
            final(self).game_over == old(self).game_over,
            final(self).human_won == old(self).human_won,
            final(self).message@ == hand_banner(
                old(self).hand_number,
                old(self).blind_level,
                old(self).small_blind,
                old(self).big_blind,
            ),
            sum_stacks(final(self).players@) + final(self).pot == sum_stacks(old(self).players@),
            sum_stacks(final(self).players@) + sum_contributed(final(self).players@) == sum_stacks(old(self).players@),
            count_active(final(self).players@) == count_active(old(self).players@),
            count_live(final(self).players@) == count_live(old(self).players@),
            total_hole_cards(final(self).players@) == total_hole_cards(old(self).players@),
    {
        let heads_up = self.active_count() == 2;
        proof {
            lemma_next_active_moves(self.players@, self.dealer as int);
        }
        let sb = if heads_up {
            self.dealer
        } else {
            self.next_active(self.dealer)
        };
        proof {
            lemma_next_active_moves(self.players@, sb as int);
            lemma_sums_nonneg(self.players@);
            lemma_stack_le_sum(self.players@, sb as int);
        }
        let bb = self.next_active(sb);
        let small = self.small_blind;
        let big = self.big_blind;
        self.commit(sb, small);
        proof {
            lemma_stack_le_sum(self.players@, bb as int);
        }
        self.commit(bb, big);
        self.current_bet = self.big_blind;
        self.min_raise = self.big_blind;
        proof {
            lemma_next_active_moves(self.players@, bb as int);
        }
        self.current = if heads_up {
            self.dealer
        } else {
            self.next_active(bb)
        };
        proof {
            lemma_next_active_same(self.players@, old(self).players@, bb as int, 1);
        }
        let banner = join2("Раздача ", decimal_text(self.hand_number).as_str()).concat(
            " · уровень ",
        ).concat(decimal_text(self.blind_level).as_str()).concat(" · блайнды ").concat(
            decimal_text(self.small_blind).as_str(),
        ).concat("/").concat(decimal_text(self.big_blind).as_str());
        self.message = banner;
        proof {
            let ps = old(self).players@;
            let sbi = sb as int;
            let bbi = bb as int;
            assert(sbi != bbi);
            assert(forall|j: int| 0 <= j < ps.len() && j != sbi && j != bbi ==> #[trigger] self.players@[j] == ps[j]);
            assert(self.pot == blind_paid(old(self).small_blind as int, ps[sbi].stack as int) + blind_paid(old(self).big_blind as int, ps[bbi].stack as int));
        }
    }

    /// A new game: the human in seat 0 and one bot of each given style, each
    /// with the starting stack; the first hand is dealt at once.
    pub fn with_bots(styles: &[BotStyle], config: GameConfig) -> (game: Self)
        requires
            1 <= styles@.len() <= 4,
            config.starting_stack * (styles@.len() + 1) <= u32::MAX,
        ensures
            game.started_from(styles@, config),
    {
        let names = ["Марина", "Борис", "Лис", "Профессор"];
        let mut players: Vec<Player> = Vec::new();
        players.push(seat(String::from_str("Вы"), None, config.starting_stack));
        assert(players@.drop_last() =~= Seq::<Player>::empty());
        assert(sum_stacks(players@) == sum_stacks(players@.drop_last()) + players@[0].stack);
        assert(sum_contributed(players@) == sum_contributed(players@.drop_last()) + players@[0].contributed);
        assert(sum_stacks(players@) == (0 + 1) * config.starting_stack);
        let mut k: usize = 0;
        while k < styles.len()
            invariant
                k <= styles@.len() <= 4,
                names@ == seq!["Марина", "Борис", "Лис", "Профессор"],
                players@.len() == k + 1,
                forall|q: int|
                    0 <= q < players@.len() ==> {
                        &&& (#[trigger] players@[q]).name@ == seat_name(q)
                        &&& players@[q].bot == (if q == 0 { None } else { Some(styles@[q - 1]) })
                        &&& players@[q].stack == config.starting_stack
                        &&& players@[q].hole@.len() == 0
                        &&& !players@[q].folded && !players@[q].all_in && !players@[q].acted
                            && !players@[q].eliminated
                        &&& players@[q].street_bet == 0 && players@[q].contributed == 0
                    },
                sum_stacks(players@) == (k + 1) * config.starting_stack,
                sum_contributed(players@) == 0,
            decreases styles@.len() - k,
        {
            let ghost prev = players@;
            players.push(seat(String::from_str(names[k]), Some(styles[k]), config.starting_stack));
            assert(players@.drop_last() == prev);
            assert((k + 2) * config.starting_stack == (k + 1) * config.starting_stack + config.starting_stack) by (nonlinear_arith);
            k = k + 1;
        }
        let player_count = players.len();
        let mut last_payouts: Vec<u32> = Vec::new();
        let mut q: usize = 0;
        while q < player_count
            invariant
                q <= player_count,
                last_payouts@ == Seq::new(q as nat, |j: int| 0u32),
            decreases player_count - q,
        {
            last_payouts.push(0);
            assert(last_payouts@ =~= Seq::new((q + 1) as nat, |j: int| 0u32));
            q = q + 1;
        }
        let mut game = Game {
            players,
            community: Vec::new(),
            pot: 0,
            dealer: 0,
            current: 0,
            current_bet: 0,
            min_raise: BIG_BLIND,
            street: Street::Showdown,
            message: String::new(),
            reveal_all: false,
            highlighted_cards: Vec::new(),
            kicker_cards: Vec::new(),
            last_payouts,
            game_over: false,
            human_won: false,
            hand_analysis: Vec::new(),
            small_blind: config.small_blind,
            big_blind: config.small_blind.saturating_add(config.small_blind),
            hand_number: 0,
            blind_level: 1,
            config,
            deck: Deck::shuffled(),
        };
        let ghost fresh = game;
        assert(is_fresh(fresh, styles@, config));
        assert(game.seats_ok()) by {
            let ps = game.players@;
            assert(ps.len() == styles@.len() + 1);
            assert((styles@.len() + 1) * config.starting_stack == config.starting_stack * (styles@.len() + 1)) by (nonlinear_arith);
            assert(sum_stacks(ps) <= u32::MAX);
            assert(sum_contributed(ps) == 0);
            assert forall|j: int| 0 <= j < ps.len() implies all_valid(#[trigger] ps[j].hole@) by {
                assert(ps[j].hole@.len() == 0);
            }
            assert forall|j: int| 0 <= j < ps.len() implies #[trigger] ps[j].street_bet <= ps[j].contributed
                && ps[j].street_bet <= game.current_bet by {
                assert(ps[j].street_bet == 0);
            }
            lemma_hole_cards_empty(ps);
            lemma_fresh_deck_cards(&game);
        }
        let ghost stacks = sum_stacks(fresh.players@);
        assert(stacks == config.starting_stack * (styles@.len() + 1)) by (nonlinear_arith)
            requires
                stacks == (styles@.len() + 1) * config.starting_stack,
        ;
        game.start_hand();
        proof {
            if config.starting_stack > 0 {
                let ps = game.players@;
                assert forall|j: int| 0 <= j < ps.len() implies !(#[trigger] ps[j]).eliminated by {
                    if game.game_over {
                        assert(seat_reset(fresh.players@[j], ps[j]));
                    }
                }
                lemma_all_active(ps);
            }
        }
        game
    }

    #[verifier::rlimit(80)]
    #[verifier::spinoff_prover]
    /// Starts the next hand: clears the table, moves the button, deals two
    /// cards to each player still in the game and posts the blinds. When
    /// fewer than two players (or no human) remain, ends the game instead.
    pub fn start_hand(&mut self)
        requires
            old(self).seats_ok(),
            deals_next_hand(old(self).players@) ==> old(self).hand_number < u32::MAX,
        ensures
            final(self).well_formed(),
            final(self).players@.len() == old(self).players@.len(),
            final(self).game_over == !deals_next_hand(old(self).players@),
            final(self).last_payouts@ == Seq::new(old(self).players@.len(), |j: int| 0u32),
            !old(self).config.tournament_mode ==> final(self).small_blind == old(self).small_blind
                && final(self).big_blind == old(self).big_blind && final(self).blind_level
                == old(self).blind_level,
            final(self).game_over ==> final(self).chips() == old(self).chips(),
            !final(self).game_over ==> final(self).chips() == sum_stacks(old(self).players@),
            !final(self).game_over ==> !final(self).players@[final(self).dealer as int].eliminated,
            !final(self).game_over ==> each_card_once(hole_cards(final(self).players@)),
            final(self).game_over ==> final(self).hand_skipped(&*old(self)),
            !final(self).game_over ==> final(self).hand_dealt(&*old(self)),
            final(self).config == old(self).config,
            final(self).game_over == (final(self).players@[0].eliminated || count_active(
                final(self).players@,
            ) <= 1),
    {
        let ghost before = self.players@;
        self.reset_seats();
        let ghost reset = self.players@;
        proof {
            lemma_count_staying(before, reset);
            assert(seat_reset(before[0], reset[0]));
        }
        if self.update_tournament_state() {
            assert(self.players@ =~= reset);
            proof {
                let ps = self.players@;
                assert forall|j: int| 0 <= j < ps.len() implies all_valid(#[trigger] ps[j].hole@) by {
                    assert(seat_reset(before[j], reset[j]));
                }
                assert forall|j: int| 0 <= j < ps.len() implies #[trigger] ps[j].street_bet <= ps[j].contributed
                    && ps[j].street_bet <= self.current_bet by {
                    assert(seat_reset(before[j], reset[j]));
                }
                assert forall|j: int| 0 <= j < ps.len() implies #[trigger] self.last_payouts@[j] <= ps[j].stack by {
                    assert(self.last_payouts@[j] == 0);
                }
                assert(street_cards(self.street, self.community@.len(), self.deck@.len()));
                assert forall|j: int| 0 <= j < ps.len() implies #[trigger] ps[j].hole@.len() == 0 by {
                    assert(seat_reset(before[j], reset[j]));
                }
                lemma_hole_cards_empty(ps);
                assert forall|x: Card| #[trigger] card_count(self, x) <= card_count(&*old(self), x) by {
                    broadcast use vstd::seq_lib::group_to_multiset_ensures;

                    assert(hole_cards(ps) == Seq::<Card>::empty());
                    assert(hole_cards(ps).to_multiset().count(x) == 0);
                }
                lemma_fewer_cards(&*old(self), self);
                assert(self.seats_ok());
                assert forall|j: int| 0 <= j < before.len() implies #[trigger] seat_reset(before[j], ps[j]) && ps[j].hole@.len() == 0 by {
                    assert(seat_reset(before[j], reset[j]));
                }
                assert(self.street == Street::Showdown);
                assert(self.hand_number == old(self).hand_number);
                assert(before == old(self).players@);
                assert(self.hand_skipped(&*old(self)));
            }
            return;
        }
        assert(self.players@ =~= reset);
        assert forall|j: int| 0 <= j < reset.len() implies #[trigger] reset[j].hole@.len() == 0 by {
            assert(seat_reset(before[j], reset[j]));
        }
        self.open_hand();
        let ghost opened = *self;
        proof {
            lemma_hole_cards_empty(opened.players@);
            lemma_fresh_deck_cards(&opened);
        }
        self.deal_hole_cards();
        proof {
            lemma_fewer_cards(&opened, self);
            lemma_full_deck(&opened, self);
        }
        let ghost dealt_game = *self;
        let ghost dealt = self.players@;
        proof {
            assert forall|j: int| 0 <= j < dealt.len() implies #[trigger] dealt[j].street_bet == 0
                && dealt[j].contributed == 0 by {
                assert(dealt[j] == (Player { hole: dealt[j].hole, ..reset[j] }));
                assert(seat_reset(before[j], reset[j]));
            }
            lemma_sums_frame(reset, dealt);
        }
        self.post_blinds();
        proof {
            let ps = self.players@;
            assert forall|j: int| 0 <= j < ps.len() implies #[trigger] ps[j].hole@ == dealt[j].hole@ by {}
            lemma_hole_cards_same(dealt, ps);
            assert(cards_in_play(self) == cards_in_play(&dealt_game));
            lemma_next_active_same(ps, dealt, self.dealer as int, 1);
            lemma_next_active_same(reset, dealt, old(self).dealer as int, 1);
            lemma_sums_frame(reset, dealt);
            let heads_up = count_active(ps) == 2;
            let sb = if heads_up { self.dealer as int } else { next_active_seat(ps, self.dealer as int) };
            lemma_next_active_same(ps, dealt, sb, 1);
            lemma_next_active_moves(ps, self.dealer as int);
            lemma_next_active_moves(ps, sb);
            let bb = next_active_seat(ps, sb);
            lemma_next_active_same(ps, dealt, bb, 1);
            lemma_hand_dealt(before, reset, dealt, ps, sb, bb, self.small_blind as int, self.big_blind as int);
            lemma_next_active_in_range(dealt, bb, 1);
            assert forall|j: int| 0 <= j < ps.len() implies #[trigger] self.last_payouts@[j] <= ps[j].stack by {
                assert(self.last_payouts@[j] == 0);
            }
            lemma_live_is_active(ps);
            lemma_sums_nonneg(reset);
            assert(self.community@.len() == 0);
            assert(self.deck@.len() >= 42);
            assert(street_cards(self.street, self.community@.len(), self.deck@.len()));
            assert(2 <= ps.len() <= 5);
            assert(self.last_payouts@.len() == ps.len());
            assert(self.dealer < ps.len());
            assert(self.current < ps.len());
            assert(self.small_blind <= self.big_blind);
            assert(all_valid(self.community@));
            assert(all_valid(self.deck@));
            assert(sum_stacks(ps) + self.pot <= u32::MAX);
            assert(sum_stacks(ps) + sum_contributed(ps) <= u32::MAX);
            assert(self.current_bet == self.big_blind);
            assert(self.seats_ok());
            lemma_next_active_same(ps, dealt, old(self).dealer as int, 1);
            assert(self.hand_number == old(self).hand_number + 1);
            assert(self.dealer == next_active_seat(ps, old(self).dealer as int));
            assert(count_active(ps) >= 2);
            assert(total_hole_cards(ps) == 2 * count_active(ps));
            assert(self.deck@.len() == 52 - 2 * count_active(ps));
            assert(self.pot == blind_paid(self.small_blind as int, old(self).players@[sb].stack as int) + blind_paid(self.big_blind as int, old(self).players@[bb].stack as int));
            assert(self.current == (if heads_up { self.dealer as int } else { next_active_seat(ps, bb) }));
            assert(self.message@ == hand_banner(self.hand_number, self.blind_level, self.small_blind, self.big_blind));
            let d = opened.deck@;
            assert forall|j: int| 0 <= j < ps.len() && !ps[j].eliminated implies #[trigger] ps[j].hole@
                == hole_from(d, ps, self.dealer as int, j) by {
                let n = ps.len() as int;
                assert(dealt[j] == (Player { hole: dealt[j].hole, ..reset[j] }));
                assert(ps[j].eliminated == dealt[j].eliminated);
                assert forall|q: int| 0 <= q < n implies #[trigger] ps[q].eliminated
                    == opened.players@[q].eliminated by {
                    assert(dealt[q] == (Player { hole: dealt[q].hole, ..reset[q] }));
                    if q != sb && q != bb {
                        assert(ps[q] == dealt[q]);
                    }
                }
                lemma_offset_in_range(n, self.dealer as int, j);
                lemma_actives_between_same(
                    opened.players@,
                    ps,
                    self.dealer as int,
                    offset_of(n, self.dealer as int, j) - 1,
                );
                assert(ps[j].hole@ == hole_from(d, opened.players@, opened.dealer as int, j));
            }
            assert(self.deck@ == d.take(52 - 2 * count_active(ps)));
            assert(self.hand_dealt(&*old(self)));
            lemma_next_active_moves(ps, old(self).dealer as int);
            lemma_holes_once(self);
        }
    }
}


/// The hole cards around the table, seat by seat.
pub open spec fn hole_cards(ps: Seq<Player>) -> Seq<Card>
    decreases ps.len(),
{
    if ps.len() == 0 {
        seq![]
    } else {
        hole_cards(ps.drop_last()) + ps.last().hole@
    }
}

/// Every card of a game: the board, the hole cards and the deck.
pub open spec fn cards_in_play(g: &Game) -> Seq<Card> {
    g.community@ + hole_cards(g.players@) + g.deck@
}

/// With no card in two places, no card is in two hands.
proof fn lemma_holes_once(g: &Game)
    requires
        each_card_once(cards_in_play(g)),
    ensures
        each_card_once(hole_cards(g.players@)),
{
    let board = g.community@;
    let holes = hole_cards(g.players@);
    let deck = g.deck@;
    assert forall|c: Card| #[trigger] holes.to_multiset().count(c) <= 1 by {
        lemma_three_counts(board, holes, deck, c);
        assert(cards_in_play(g).to_multiset().count(c) <= 1);
    }
}

/// No card occurs twice.
pub open spec fn each_card_once(cs: Seq<Card>) -> bool {
    forall|c: Card| #[trigger] cs.to_multiset().count(c) <= 1
}

proof fn lemma_hole_cards_same(ps: Seq<Player>, qs: Seq<Player>)
    requires
        ps.len() == qs.len(),
        forall|j: int| 0 <= j < ps.len() ==> #[trigger] qs[j].hole@ == ps[j].hole@,
    ensures
        hole_cards(qs) == hole_cards(ps),
    decreases ps.len(),
{
    if ps.len() > 0 {
        assert(qs[ps.len() - 1].hole@ == ps[ps.len() - 1].hole@);
        assert forall|j: int| 0 <= j < ps.drop_last().len() implies #[trigger] qs.drop_last()[j].hole@
            == ps.drop_last()[j].hole@ by {
            assert(qs[j].hole@ == ps[j].hole@);
        }
        lemma_hole_cards_same(ps.drop_last(), qs.drop_last());
    }
}

proof fn lemma_hole_cards_empty(ps: Seq<Player>)
    requires
        forall|j: int| 0 <= j < ps.len() ==> #[trigger] ps[j].hole@.len() == 0,
    ensures
        hole_cards(ps) =~= Seq::<Card>::empty(),
    decreases ps.len(),
{
    if ps.len() > 0 {
        assert(ps[ps.len() - 1].hole@.len() == 0);
        assert forall|j: int| 0 <= j < ps.drop_last().len() implies #[trigger] ps.drop_last()[j].hole@.len()
            == 0 by {
            assert(ps[j].hole@.len() == 0);
        }
        lemma_hole_cards_empty(ps.drop_last());
    }
}

proof fn lemma_hole_cards_push(ps: Seq<Player>, qs: Seq<Player>, i: int, x: Card)
    requires
        ps.len() == qs.len(),
        0 <= i < ps.len(),
        forall|j: int| 0 <= j < ps.len() && j != i ==> #[trigger] qs[j].hole@ == ps[j].hole@,
        qs[i].hole@ == ps[i].hole@.push(x),
    ensures
        hole_cards(qs).to_multiset() == hole_cards(ps).to_multiset().insert(x),
    decreases ps.len(),
{
    broadcast use vstd::seq_lib::group_to_multiset_ensures;

    let n = ps.len() - 1;
    if i == n {
        assert forall|j: int| 0 <= j < ps.drop_last().len() implies #[trigger] qs.drop_last()[j].hole@
            == ps.drop_last()[j].hole@ by {
            assert(qs[j].hole@ == ps[j].hole@);
        }
        lemma_hole_cards_same(ps.drop_last(), qs.drop_last());
        vstd::seq_lib::lemma_multiset_commutative(hole_cards(ps.drop_last()), ps[n].hole@.push(x));
        vstd::seq_lib::lemma_multiset_commutative(hole_cards(ps.drop_last()), ps[n].hole@);
        assert(hole_cards(qs).to_multiset() =~= hole_cards(ps).to_multiset().insert(x));
    } else {
        assert(qs[n].hole@ == ps[n].hole@);
        assert forall|j: int| 0 <= j < ps.drop_last().len() && j != i implies #[trigger] qs.drop_last()[j].hole@
            == ps.drop_last()[j].hole@ by {
            assert(qs[j].hole@ == ps[j].hole@);
        }
        lemma_hole_cards_push(ps.drop_last(), qs.drop_last(), i, x);
        vstd::seq_lib::lemma_multiset_commutative(hole_cards(qs.drop_last()), qs[n].hole@);
        vstd::seq_lib::lemma_multiset_commutative(hole_cards(ps.drop_last()), ps[n].hole@);
        assert(hole_cards(qs).to_multiset() =~= hole_cards(ps).to_multiset().insert(x));
    }
}

proof fn lemma_three_counts(a: Seq<Card>, b: Seq<Card>, c: Seq<Card>, x: Card)
    ensures
        (a + b + c).to_multiset().count(x) == a.to_multiset().count(x) + b.to_multiset().count(x)
            + c.to_multiset().count(x),
{
    vstd::seq_lib::lemma_multiset_commutative(a + b, c);
    vstd::seq_lib::lemma_multiset_commutative(a, b);
}

/// A fresh deck with an empty board and no hole cards holds each card once.
proof fn lemma_fresh_deck_cards(g: &Game)
    requires
        g.community@.len() == 0,
        hole_cards(g.players@) =~= Seq::<Card>::empty(),
        g.deck@.to_multiset() == crate::cards::standard_deck().to_multiset(),
    ensures
        each_card_once(cards_in_play(g)),
{
    crate::cards::lemma_standard_deck_distinct();
    assert(cards_in_play(g) =~= g.deck@);
}

/// Cards moved about from a fresh deck still make up a full deck.
proof fn lemma_full_deck(fresh: &Game, g: &Game)
    requires
        fresh.community@.len() == 0,
        hole_cards(fresh.players@) =~= Seq::<Card>::empty(),
        fresh.deck@.to_multiset() == crate::cards::standard_deck().to_multiset(),
        forall|x: Card| #[trigger] card_count(g, x) == card_count(fresh, x),
    ensures
        cards_in_play(g).to_multiset() == crate::cards::standard_deck().to_multiset(),
{
    broadcast use vstd::seq_lib::group_to_multiset_ensures;

    assert forall|x: Card| #[trigger] cards_in_play(g).to_multiset().count(x)
        == crate::cards::standard_deck().to_multiset().count(x) by {
        lemma_three_counts(g.community@, hole_cards(g.players@), g.deck@, x);
        assert(card_count(g, x) == card_count(fresh, x));
        assert(fresh.community@ =~= Seq::<Card>::empty());
    }
    assert(cards_in_play(g).to_multiset() =~= crate::cards::standard_deck().to_multiset());
}

/// How often card `x` occurs in a game: on the board, in the hole cards
/// and in the deck.
pub open spec fn card_count(g: &Game, x: Card) -> nat {
    g.community@.to_multiset().count(x) + hole_cards(g.players@).to_multiset().count(x)
        + g.deck@.to_multiset().count(x)
}

/// Cards taken away, or moved about, cannot make a card occur twice.
proof fn lemma_fewer_cards(before: &Game, after: &Game)
    requires
        each_card_once(cards_in_play(before)),
        forall|x: Card| #[trigger] card_count(after, x) <= card_count(before, x),
    ensures
        each_card_once(cards_in_play(after)),
{
    assert forall|x: Card| #[trigger] cards_in_play(after).to_multiset().count(x) <= 1 by {
        lemma_three_counts(after.community@, hole_cards(after.players@), after.deck@, x);
        lemma_three_counts(before.community@, hole_cards(before.players@), before.deck@, x);
        assert(card_count(after, x) <= card_count(before, x));
        assert(cards_in_play(before).to_multiset().count(x) <= 1);
    }
}

/// The cards a seat may use: the board and its hole cards.
pub open spec fn hand_of(board: Seq<Card>, p: Player) -> Seq<Card> {
    board + p.hole@
}

/// The best score the cards allow (the one number `is_best_score` admits).
pub open spec fn best_score_of(cs: Seq<Card>) -> int {
    choose|s: int| is_best_score(cs, s)
}

proof fn lemma_best_score_of(cs: Seq<Card>, s: int)
    requires
        is_best_score(cs, s),
    ensures
        best_score_of(cs) == s,
{
    lemma_best_score_unique(cs, best_score_of(cs), s);
}

/// Each seat's best score with the board, folded or not.
pub open spec fn raw_scores(ps: Seq<Player>, board: Seq<Card>) -> Seq<u64> {
    Seq::new(ps.len(), |i: int| best_score_of(hand_of(board, ps[i])) as u64)
}

/// The scores that count at showdown: a folded seat counts for nothing.
pub open spec fn shown_scores(ps: Seq<Player>, board: Seq<Card>) -> Seq<u64> {
    Seq::new(
        ps.len(),
        |i: int| if ps[i].folded { 0u64 } else { best_score_of(hand_of(board, ps[i])) as u64 },
    )
}

/// The highest of the scores, 0 for none.
pub open spec fn seq_max(s: Seq<u64>) -> u64
    decreases s.len(),
{
    if s.len() == 0 {
        0
    } else {
        let rest = seq_max(s.drop_last());
        if s.last() > rest { s.last() } else { rest }
    }
}

proof fn lemma_seq_max(s: Seq<u64>) -> (k: int)
    requires
        s.len() > 0,
    ensures
        0 <= k < s.len(),
        s[k] == seq_max(s),
        forall|i: int| 0 <= i < s.len() ==> #[trigger] s[i] <= seq_max(s),
    decreases s.len(),
{
    if s.len() == 1 {
        0
    } else {
        let k = lemma_seq_max(s.drop_last());
        assert forall|i: int| 0 <= i < s.len() implies #[trigger] s[i] <= seq_max(s) by {
            if i < s.len() - 1 {
                assert(s[i] == s.drop_last()[i]);
            }
        }
        if s.last() > seq_max(s.drop_last()) {
            s.len() - 1
        } else {
            k
        }
    }
}

/// What each seat put into the pot this hand.
pub open spec fn contributions_of(ps: Seq<Player>) -> Seq<u32> {
    Seq::new(ps.len(), |i: int| ps[i].contributed)
}

/// Which seats folded.
pub open spec fn folds_of(ps: Seq<Player>) -> Seq<bool> {
    Seq::new(ps.len(), |i: int| ps[i].folded)
}

proof fn lemma_contributions_total(ps: Seq<Player>)
    ensures
        total(contributions_of(ps)) == sum_contributed(ps),
    decreases ps.len(),
{
    if ps.len() > 0 {
        assert(contributions_of(ps).drop_last() =~= contributions_of(ps.drop_last()));
        lemma_contributions_total(ps.drop_last());
    }
}

/// What seat `j` wins from the side pots at showdown.
pub open spec fn showdown_payout(ps: Seq<Player>, board: Seq<Card>, j: int) -> int {
    payout_from(contributions_of(ps), folds_of(ps), shown_scores(ps, board), 0, j)
}

/// `cards` added one by one to `acc`, each unless it is already there.
pub open spec fn add_new(acc: Seq<Card>, cards: Seq<Card>) -> Seq<Card>
    decreases cards.len(),
{
    if cards.len() == 0 {
        acc
    } else {
        let rest = add_new(acc, cards.drop_last());
        if rest.contains(cards.last()) {
            rest
        } else {
            rest.push(cards.last())
        }
    }
}

/// Seat `i` holds a winning hand: not folded and scoring `best`.
pub open spec fn holds_best(ps: Seq<Player>, shown: Seq<u64>, best: u64, i: int) -> bool {
    !ps[i].folded && shown[i] == best
}

/// The names of the winning seats among the first `n`, in seat order.
pub open spec fn best_names(ps: Seq<Player>, shown: Seq<u64>, best: u64, n: int) -> Seq<Seq<char>>
    decreases n,
{
    if n <= 0 {
        seq![]
    } else if holds_best(ps, shown, best, n - 1) {
        best_names(ps, shown, best, n - 1).push(ps[n - 1].name@)
    } else {
        best_names(ps, shown, best, n - 1)
    }
}

/// Parts joined with a separator between each two.
pub open spec fn joined_with(parts: Seq<Seq<char>>, sep: Seq<char>) -> Seq<char>
    decreases parts.len(),
{
    if parts.len() == 0 {
        seq![]
    } else if parts.len() == 1 {
        parts[0]
    } else {
        joined_with(parts.drop_last(), sep) + sep + parts.last()
    }
}

/// The lowest winning seat among the first `n`.
pub open spec fn first_best(ps: Seq<Player>, shown: Seq<u64>, best: u64, n: int) -> Option<int>
    decreases n,
{
    if n <= 0 {
        None
    } else {
        let rest = first_best(ps, shown, best, n - 1);
        if rest is Some {
            rest
        } else if holds_best(ps, shown, best, n - 1) {
            Some(n - 1)
        } else {
            None
        }
    }
}

/// The best hand below the winners among the first `n` seats; of equal
/// hands, the later seat.
pub open spec fn runner_up(ps: Seq<Player>, shown: Seq<u64>, best: u64, n: int) -> Option<int>
    decreases n,
{
    if n <= 0 {
        None
    } else {
        let rest = runner_up(ps, shown, best, n - 1);
        let j = n - 1;
        if !ps[j].folded && shown[j] < best && shown[j] > 0 && (rest is None || shown[j]
            >= shown[rest->0]) {
            Some(j)
        } else {
            rest
        }
    }
}

/// The analysis of a hand that went to showdown, as shown to the human.
pub open spec fn showdown_lines(ps: Seq<Player>, shown: Seq<u64>, raw: Seq<u64>, best: u64) -> Seq<Seq<char>> {
    let n = ps.len() as int;
    if holds_best(ps, shown, best, 0) {
        let first = (if best_names(ps, shown, best, n).len() == 1 {
            "Вы победили. Ваша лучшая комбинация: "@
        } else {
            "Вы разделили первое место. Ваша лучшая комбинация: "@
        }) + description(best) + "."@;
        match runner_up(ps, shown, best, n) {
            Some(j) => seq![
                first,
                "Второе место — "@ + ps[j].name@ + ": "@ + description(shown[j]) + "."@,
                "Почему "@ + ps[j].name@ + " проиграл: "@ + loss_explanation(best, shown[j]),
            ],
            None => seq![
                first,
                "Отдельного второго места нет: остальные участники разделили первое место или сбросили карты."@,
            ],
        }
    } else {
        let w = first_best(ps, shown, best, n)->0;
        seq![
            "Победил "@ + ps[w].name@ + ": "@ + description(best) + "."@,
            "Ваша лучшая комбинация: "@ + description(raw[0]) + "."@,
            if ps[0].folded {
                "Вы проиграли из-за паса: после сброса даже потенциально сильная рука не участвует в сравнении."@
            } else {
                "Почему вы проиграли: "@ + loss_explanation(best, raw[0])
            },
        ]
    }
}

/// The views of a list of strings.
pub open spec fn texts(v: Seq<String>) -> Seq<Seq<char>> {
    v.map_values(|s: String| s@)
}


/// The cards of the winning hands among the first `n` seats, each once, in
/// seat order: the whole five cards, or with `kick` only their kickers.
pub open spec fn marked_cards(
    ps: Seq<Player>,
    board: Seq<Card>,
    shown: Seq<u64>,
    best: u64,
    n: int,
    kick: bool,
) -> Seq<Card>
    decreases n,
{
    if n <= 0 {
        seq![]
    } else {
        let rest = marked_cards(ps, board, shown, best, n - 1, kick);
        if holds_best(ps, shown, best, n - 1) {
            let five = winning_five(hand_of(board, ps[n - 1]));
            add_new(rest, if kick { kickers_of(five, best) } else { five })
        } else {
            rest
        }
    }
}

/// The line that announces who won a showdown, how much and with what.
pub open spec fn showdown_message(ps: Seq<Player>, shown: Seq<u64>, best: u64, pot: u32) -> Seq<
    char,
> {
    joined_with(best_names(ps, shown, best, ps.len() as int), " и "@) + " выигрывает шоудаун "@
        + decimal(pot as nat) + " — "@ + category_title(category_of(best))
}

/// The message that ends a tournament.
pub open spec fn farewell(human_won: bool) -> Seq<char> {
    if human_won {
        "Вы выиграли турнир! Все соперники выбыли."@
    } else {
        "Фишки закончились — вы выбыли из игры."@
    }
}

proof fn lemma_some_live(ps: Seq<Player>) -> (j: int)
    requires
        count_live(ps) >= 1,
    ensures
        0 <= j < ps.len(),
        !ps[j].folded,
    decreases ps.len(),
{
    if ps.last().folded || count_live(ps.drop_last()) >= 1 {
        if count_live(ps.drop_last()) == 0 {
            assert(false);
        }
        lemma_some_live(ps.drop_last())
    } else {
        ps.len() - 1
    }
}

impl Game {
    /// How a hand closes: the game is over once the human is out
    /// or alone, and the message says so, or else reads `text`.
    pub open spec fn hand_closed(&self, text: Seq<char>) -> bool {
        &&& self.game_over == (self.players@[0].eliminated || count_active(self.players@) <= 1)
        &&& self.human_won == (self.game_over && !self.players@[0].eliminated)
        &&& self.message@ == (if self.game_over {
            farewell(self.human_won)
        } else {
            text
        })
    }

    /// The board, the deck, the button and the blinds are as in `other`.
    pub open spec fn same_board_and_blinds(&self, other: &Game) -> bool {
        &&& self.community == other.community
        &&& self.deck == other.deck
        &&& self.dealer == other.dealer
        &&& self.small_blind == other.small_blind
        &&& self.big_blind == other.big_blind
        &&& self.hand_number == other.hand_number
        &&& self.blind_level == other.blind_level
        &&& self.config == other.config
    }

    /// The showdown of seats `ps` with `board` on the table and `pot` in the
    /// middle, the payouts so far being `paid`: the side pots are paid out,
    /// the winning cards marked, the hand analysed, and busted seats leave.
    pub open spec fn showdown_settled(
        &self,
        ps: Seq<Player>,
        board: Seq<Card>,
        pot: u32,
        paid: Seq<u32>,
    ) -> bool {
        let shown = shown_scores(ps, board);
        let best = seq_max(shown);
        let n = ps.len() as int;
        &&& self.players@.len() == n
        &&& forall|j: int|
            0 <= j < n ==> #[trigger] self.players@[j] == busted(
                Player { stack: (ps[j].stack + showdown_payout(ps, board, j)) as u32, ..ps[j] },
            )
        &&& self.last_payouts@.len() == n
        &&& forall|j: int|
            0 <= j < n ==> #[trigger] self.last_payouts@[j] == paid[j] + showdown_payout(
                ps,
                board,
                j,
            )
        &&& self.pot == 0
        &&& self.street == Street::Showdown
        &&& self.reveal_all
        &&& self.highlighted_cards@ == marked_cards(ps, board, shown, best, n, false)
        &&& self.kicker_cards@ == marked_cards(ps, board, shown, best, n, true)
        &&& texts(self.hand_analysis@) == showdown_lines(ps, shown, raw_scores(ps, board), best)
        &&& self.hand_closed(showdown_message(ps, shown, best, pot))
        &&& sum_stacks(self.players@) <= sum_stacks(ps) + sum_contributed(ps)
        &&& contested(contributions_of(ps), folds_of(ps)) ==> sum_stacks(self.players@)
            == sum_stacks(ps) + sum_contributed(ps)
    }
}

/// Stacks that each grew by the matching entry of `s` grew by `total(s)`.
proof fn lemma_stacks_grown(ps: Seq<Player>, qs: Seq<Player>, s: Seq<u32>)
    requires
        ps.len() == qs.len() == s.len(),
        forall|j: int| 0 <= j < ps.len() ==> #[trigger] qs[j].stack == ps[j].stack + s[j],
    ensures
        sum_stacks(qs) == sum_stacks(ps) + total(s),
    decreases ps.len(),
{
    if ps.len() > 0 {
        let n = ps.len() - 1;
        assert forall|j: int| 0 <= j < n implies #[trigger] qs.drop_last()[j].stack
            == ps.drop_last()[j].stack + s.drop_last()[j] by {
            assert(qs[j].stack == ps[j].stack + s[j]);
        }
        lemma_stacks_grown(ps.drop_last(), qs.drop_last(), s.drop_last());
        assert(qs[n].stack == ps[n].stack + s[n]);
    }
}

/// A payout never exceeds the chips put in, so it fits beside a recorded
/// payout no larger than the seat's stack.
proof fn lemma_payouts_fit(ps: Seq<Player>, board: Seq<Card>, paid: Seq<u32>)
    requires
        paid.len() == ps.len(),
        sum_stacks(ps) + sum_contributed(ps) <= u32::MAX,
        forall|i: int| 0 <= i < ps.len() ==> #[trigger] paid[i] <= ps[i].stack,
    ensures
        forall|i: int|
            0 <= i < ps.len() ==> #[trigger] paid[i] + showdown_payout(ps, board, i) <= u32::MAX,
{
    let n = ps.len() as int;
    let cs = contributions_of(ps);
    lemma_contributions_total(ps);
    assert(cs.take(n) =~= cs);
    assert forall|i: int| 0 <= i < n implies #[trigger] paid[i] + showdown_payout(ps, board, i)
        <= u32::MAX by {
        lemma_side_pot_limits(cs, folds_of(ps), shown_scores(ps, board), i);
        lemma_capped_total_le(cs, ps[i].contributed as int, n);
        lemma_stack_le_sum(ps, i);
        assert(paid[i] <= ps[i].stack);
    }
}

/// The showdown pays out the whole pot. When the pot holds what the seats
/// put in, no payout is recorded yet and some seat still in the hand put in
/// as much as anyone, then the recorded payouts add up to the pot, the pot
/// is empty, each stack grew by its payout, a seat that folded wins nothing,
/// and no seat wins more than what every seat put in up to its own
/// contribution.
pub proof fn lemma_showdown_pays_the_pot(
    after: Game,
    ps: Seq<Player>,
    board: Seq<Card>,
    pot: u32,
    paid: Seq<u32>,
)
    requires
        after.showdown_settled(ps, board, pot, paid),
        paid == Seq::new(ps.len(), |j: int| 0u32),
        pot == sum_contributed(ps),
        sum_stacks(ps) + sum_contributed(ps) <= u32::MAX,
        contested(contributions_of(ps), folds_of(ps)),
    ensures
        after.pot == 0,
        total(after.last_payouts@) == pot,
        forall|j: int|
            0 <= j < ps.len() ==> #[trigger] after.players@[j].stack == ps[j].stack
                + after.last_payouts@[j],
        forall|j: int|
            0 <= j < ps.len() && ps[j].folded ==> #[trigger] after.last_payouts@[j] == 0,
        forall|j: int|
            0 <= j < ps.len() ==> #[trigger] after.last_payouts@[j] <= capped_total(
                contributions_of(ps),
                ps[j].contributed as int,
                ps.len() as int,
            ),
{
    let n = ps.len() as int;
    let cs = contributions_of(ps);
    lemma_contributions_total(ps);
    assert(cs.take(n) =~= cs);
    lemma_sums_nonneg(ps);
    assert forall|j: int| 0 <= j < n implies {
        &&& #[trigger] after.players@[j].stack == ps[j].stack + after.last_payouts@[j]
        &&& ps[j].folded ==> after.last_payouts@[j] == 0
        &&& after.last_payouts@[j] <= capped_total(cs, ps[j].contributed as int, n)
    } by {
        lemma_side_pot_limits(cs, folds_of(ps), shown_scores(ps, board), j);
        lemma_capped_total_le(cs, ps[j].contributed as int, n);
        lemma_stack_le_sum(ps, j);
        assert(cs[j] == ps[j].contributed);
        assert(after.last_payouts@[j] == paid[j] + showdown_payout(ps, board, j));
        assert(after.players@[j] == busted(
            Player { stack: (ps[j].stack + showdown_payout(ps, board, j)) as u32, ..ps[j] },
        ));
    }
    assert forall|j: int| 0 <= j < n && ps[j].folded implies #[trigger] after.last_payouts@[j] == 0 by {
        assert(after.players@[j].stack == ps[j].stack + after.last_payouts@[j]);
    }
    assert forall|j: int| 0 <= j < n implies #[trigger] after.last_payouts@[j] <= capped_total(
        cs,
        ps[j].contributed as int,
        n,
    ) by {
        assert(after.players@[j].stack == ps[j].stack + after.last_payouts@[j]);
    }
    lemma_stacks_grown(ps, after.players@, after.last_payouts@);
}

proof fn lemma_valid_concat(a: Seq<Card>, b: Seq<Card>)
    requires
        all_valid(a),
        all_valid(b),
    ensures
        all_valid(a + b),
{
    assert forall|i: int| 0 <= i < (a + b).len() implies valid_card(#[trigger] (a + b)[i]) by {
        if i < a.len() {
            assert((a + b)[i] == a[i]);
        } else {
            assert((a + b)[i] == b[i - a.len()]);
        }
    }
}

proof fn lemma_joined_push(parts: Seq<Seq<char>>, x: Seq<char>, sep: Seq<char>)
    ensures
        joined_with(parts.push(x), sep) == (if parts.len() == 0 {
            x
        } else {
            joined_with(parts, sep) + sep + x
        }),
{
    assert(parts.push(x).drop_last() =~= parts);
    if parts.len() == 0 {
        assert(parts.push(x)[0] == x);
    }
}

proof fn lemma_first_best(ps: Seq<Player>, shown: Seq<u64>, best: u64, n: int)
    ensures
        first_best(ps, shown, best, n) matches Some(w) ==> 0 <= w < n && holds_best(
            ps,
            shown,
            best,
            w,
        ),
        forall|k: int|
            0 <= k < n && #[trigger] holds_best(ps, shown, best, k) ==> first_best(
                ps,
                shown,
                best,
                n,
            ) is Some,
    decreases n,
{
    if n > 0 {
        lemma_first_best(ps, shown, best, n - 1);
    }
}

/// The runner-up of a showdown is the strongest hand below the best: a seat
/// still in the hand whose score is above zero and below `best`, and at
/// least the score of every other such seat; when there is none, no seat
/// still in the hand scores above zero and below `best`.
pub proof fn lemma_runner_up_is_next_best(ps: Seq<Player>, shown: Seq<u64>, best: u64, n: int)
    requires
        0 <= n <= ps.len(),
        n <= shown.len(),
    ensures
        runner_up(ps, shown, best, n) matches Some(r) ==> {
            &&& 0 <= r < n
            &&& !ps[r].folded
            &&& 0 < shown[r] < best
            &&& forall|j: int|
                0 <= j < n && !ps[j].folded && 0 < #[trigger] shown[j] < best ==> shown[j]
                    <= shown[r]
        },
        runner_up(ps, shown, best, n) is None ==> forall|j: int|
            0 <= j < n && !ps[j].folded ==> !(0 < #[trigger] shown[j] < best),
    decreases n,
{
    if n > 0 {
        lemma_runner_up_is_next_best(ps, shown, best, n - 1);
    }
}

proof fn lemma_runner_up(ps: Seq<Player>, shown: Seq<u64>, best: u64, n: int)
    ensures
        runner_up(ps, shown, best, n) matches Some(j) ==> 0 <= j < n && !ps[j].folded && 0
            < shown[j] < best,
    decreases n,
{
    if n > 0 {
        lemma_runner_up(ps, shown, best, n - 1);
    }
}

proof fn lemma_combo_valid(cs: Seq<Card>, t: (int, int, int, int, int))
    requires
        all_valid(cs),
        is_combo(cs.len() as int, t),
    ensures
        all_valid(combo(cs, t)),
        combo(cs, t).len() == 5,
{
    assert(valid_card(cs[t.0]));
    assert(valid_card(cs[t.1]));
    assert(valid_card(cs[t.2]));
    assert(valid_card(cs[t.3]));
    assert(valid_card(cs[t.4]));
}

/// Marking busted seats changes no sum over the seats.
proof fn lemma_busted_sums(ps: Seq<Player>, qs: Seq<Player>)
    requires
        ps.len() == qs.len(),
        forall|j: int| 0 <= j < ps.len() ==> #[trigger] qs[j] == busted(ps[j]),
    ensures
        sum_stacks(qs) == sum_stacks(ps),
        sum_contributed(qs) == sum_contributed(ps),
    decreases ps.len(),
{
    if ps.len() > 0 {
        let n = ps.len() - 1;
        assert(qs[n as int] == busted(ps[n as int]));
        assert forall|j: int| 0 <= j < ps.drop_last().len() implies #[trigger] qs.drop_last()[j]
            == busted(ps.drop_last()[j]) by {
            assert(qs[j] == busted(ps[j]));
        }
        lemma_busted_sums(ps.drop_last(), qs.drop_last());
    }
}

proof fn lemma_total_prefix(s: Seq<u32>, m: int)
    requires
        0 <= m <= s.len(),
    ensures
        0 <= total(s.take(m)) <= total(s),
    decreases s.len(),
{
    if m == s.len() {
        assert(s.take(m) =~= s);
        lemma_total_nonneg(s);
    } else {
        assert(s.drop_last().take(m) =~= s.take(m));
        lemma_total_prefix(s.drop_last(), m);
    }
}

proof fn lemma_total_nonneg(s: Seq<u32>)
    ensures
        total(s) >= 0,
    decreases s.len(),
{
    if s.len() > 0 {
        lemma_total_nonneg(s.drop_last());
    }
}

/// Adds the cards of `src` to the end of `dst`.
fn append_cards(dst: &mut Vec<Card>, src: &Vec<Card>)
    ensures
        final(dst)@ == old(dst)@ + src@,
{
    let mut i: usize = 0;
    while i < src.len()
        invariant
            i <= src@.len(),
            dst@ == old(dst)@ + src@.take(i as int),
        decreases src@.len() - i,
    {
        dst.push(src[i]);
        assert(src@.take(i + 1) =~= src@.take(i as int).push(src@[i as int]));
        assert(dst@ =~= old(dst)@ + src@.take(i + 1));
        i = i + 1;
    }
    assert(src@.take(src@.len() as int) =~= src@);
}

/// Adds the cards of `src` to `dst`, each unless it is already there.
fn add_new_cards(dst: &mut Vec<Card>, src: &Vec<Card>)
    ensures
        final(dst)@ == add_new(old(dst)@, src@),
{
    let mut i: usize = 0;
    while i < src.len()
        invariant
            i <= src@.len(),
            dst@ == add_new(old(dst)@, src@.take(i as int)),
        decreases src@.len() - i,
    {
        let card = src[i];
        assert(src@.take(i + 1).drop_last() =~= src@.take(i as int));
        if !contains_card(dst, card) {
            dst.push(card);
        }
        i = i + 1;
    }
    assert(src@.take(src@.len() as int) =~= src@);
}

/// Whether `card` is among `cards`.
fn contains_card(cards: &Vec<Card>, card: Card) -> (found: bool)
    ensures
        found == cards@.contains(card),
{
    let mut i: usize = 0;
    while i < cards.len()
        invariant
            i <= cards@.len(),
            forall|j: int| 0 <= j < i ==> cards@[j] != card,
        decreases cards@.len() - i,
    {
        if cards[i] == card {
            assert(cards@[i as int] == card);
            return true;
        }
        i = i + 1;
    }
    false
}

/// The highest of the scores.
fn max_score(scores: &Vec<u64>) -> (best: u64)
    ensures
        best == seq_max(scores@),
{
    let mut best: u64 = 0;
    let mut i: usize = 0;
    while i < scores.len()
        invariant
            i <= scores@.len(),
            best == seq_max(scores@.take(i as int)),
        decreases scores@.len() - i,
    {
        assert(scores@.take(i + 1).drop_last() =~= scores@.take(i as int));
        if scores[i] > best {
            best = scores[i];
        }
        i = i + 1;
    }
    assert(scores@.take(scores@.len() as int) =~= scores@);
    best
}

impl Game {
    /// The cards seat `i` may use: the board, then its hole cards.
    fn hand_cards(&self, i: usize) -> (cards: Vec<Card>)
        requires
            i < self.players@.len(),
        ensures
            cards@ == hand_of(self.community@, self.players@[i as int]),
    {
        let mut cards: Vec<Card> = Vec::new();
        append_cards(&mut cards, &self.community);
        append_cards(&mut cards, &self.players[i].hole);
        assert(cards@ =~= hand_of(self.community@, self.players@[i as int]));
        cards
    }

    /// The best score each player can make from the board and their cards.
    fn showdown_scores(&self) -> (raw: Vec<u64>)
        requires
            self.community@.len() >= 5,
            all_valid(self.community@),
            forall|i: int| 0 <= i < self.players@.len() ==> all_valid(#[trigger] self.players@[i].hole@),
        ensures
            raw@ == raw_scores(self.players@, self.community@),
            forall|i: int| 0 <= i < raw@.len() ==> 0 < #[trigger] raw@[i] && describable(raw@[i]),
    {
        let ghost ps = self.players@;
        let ghost board = self.community@;
        let mut raw: Vec<u64> = Vec::new();
        let mut i: usize = 0;
        while i < self.players.len()
            invariant
                i <= ps.len(),
                ps == self.players@,
                board == self.community@,
                board.len() >= 5,
                all_valid(board),
                forall|j: int| 0 <= j < ps.len() ==> all_valid(#[trigger] ps[j].hole@),
                raw@ == raw_scores(ps, board).take(i as int),
                forall|j: int| 0 <= j < i ==> 0 < #[trigger] raw@[j] && describable(raw@[j]),
            decreases ps.len() - i,
        {
            let cards = self.hand_cards(i);
            proof {
                lemma_valid_concat(board, ps[i as int].hole@);
            }
            let score = evaluate(cards.as_slice());
            proof {
                lemma_best_score_describable(cards@, score as int);
                lemma_best_score_of(cards@, score as int);
            }
            raw.push(score);
            assert(raw@ =~= raw_scores(ps, board).take(i + 1));
            i = i + 1;
        }
        assert(raw_scores(ps, board).take(ps.len() as int) =~= raw_scores(ps, board));
        raw
    }

    /// The scores that count: folded seats get nothing.
    fn shown_of(&self, raw: &Vec<u64>) -> (shown: Vec<u64>)
        requires
            raw@ == raw_scores(self.players@, self.community@),
        ensures
            shown@ == shown_scores(self.players@, self.community@),
    {
        let ghost ps = self.players@;
        let ghost board = self.community@;
        let mut shown: Vec<u64> = Vec::new();
        let mut i: usize = 0;
        while i < raw.len()
            invariant
                i <= raw@.len(),
                ps == self.players@,
                board == self.community@,
                raw@ == raw_scores(ps, board),
                shown@ == shown_scores(ps, board).take(i as int),
            decreases raw@.len() - i,
        {
            let score = if self.players[i].folded {
                0
            } else {
                raw[i]
            };
            shown.push(score);
            assert(shown@ =~= shown_scores(ps, board).take(i + 1));
            i = i + 1;
        }
        assert(shown_scores(ps, board).take(ps.len() as int) =~= shown_scores(ps, board));
        shown
    }

    /// The names of the winners, joined with " и ".
    fn winner_names(&self, shown: &Vec<u64>, best: u64) -> (text: String)
        requires
            shown@.len() == self.players@.len(),
        ensures
            text@ == joined_with(
                best_names(self.players@, shown@, best, self.players@.len() as int),
                " и "@,
            ),
    {
        let ghost ps = self.players@;
        let mut text = String::new();
        let mut count: usize = 0;
        let mut i: usize = 0;
        while i < self.players.len()
            invariant
                i <= ps.len(),
                ps == self.players@,
                shown@.len() == ps.len(),
                count == best_names(ps, shown@, best, i as int).len(),
                count <= i,
                text@ == joined_with(best_names(ps, shown@, best, i as int), " и "@),
            decreases ps.len() - i,
        {
            if !self.players[i].folded && shown[i] == best {
                proof {
                    lemma_joined_push(best_names(ps, shown@, best, i as int), ps[i as int].name@, " и "@);
                }
                if count > 0 {
                    text.append(" и ");
                }
                text.append(self.players[i].name.as_str());
                count = count + 1;
            }
            i = i + 1;
        }
        text
    }

    /// How many seats hold the winning hand.
    fn count_winners(&self, shown: &Vec<u64>, best: u64) -> (count: usize)
        requires
            shown@.len() == self.players@.len(),
        ensures
            count == best_names(self.players@, shown@, best, self.players@.len() as int).len(),
    {
        let mut count: usize = 0;
        let mut i: usize = 0;
        while i < self.players.len()
            invariant
                i <= self.players@.len(),
                shown@.len() == self.players@.len(),
                count == best_names(self.players@, shown@, best, i as int).len(),
                count <= i,
            decreases self.players@.len() - i,
        {
            if !self.players[i].folded && shown[i] == best {
                count = count + 1;
            }
            i = i + 1;
        }
        count
    }

    /// The lowest winning seat, if any.
    fn first_winner_seat(&self, shown: &Vec<u64>, best: u64) -> (seat: Option<usize>)
        requires
            shown@.len() == self.players@.len(),
        ensures
            seat matches Some(w) ==> first_best(self.players@, shown@, best, self.players@.len() as int) == Some(w as int),
            seat is None ==> first_best(self.players@, shown@, best, self.players@.len() as int) is None,
    {
        let mut seat: Option<usize> = None;
        let mut i: usize = 0;
        while i < self.players.len()
            invariant
                i <= self.players@.len(),
                shown@.len() == self.players@.len(),
                seat matches Some(w) ==> first_best(self.players@, shown@, best, i as int) == Some(w as int),
                seat is None ==> first_best(self.players@, shown@, best, i as int) is None,
            decreases self.players@.len() - i,
        {
            if seat.is_none() && !self.players[i].folded && shown[i] == best {
                seat = Some(i);
            }
            i = i + 1;
        }
        seat
    }

    /// The best hand below the winners; of equal ones, the later seat.
    fn runner_up_seat(&self, shown: &Vec<u64>, best: u64) -> (seat: Option<usize>)
        requires
            shown@.len() == self.players@.len(),
        ensures
            seat matches Some(j) ==> runner_up(self.players@, shown@, best, self.players@.len() as int) == Some(j as int),
            seat is None ==> runner_up(self.players@, shown@, best, self.players@.len() as int) is None,
    {
        let mut seat: Option<usize> = None;
        let mut i: usize = 0;
        while i < self.players.len()
            invariant
                i <= self.players@.len(),
                shown@.len() == self.players@.len(),
                seat matches Some(j) ==> j < i && runner_up(self.players@, shown@, best, i as int) == Some(j as int),
                seat is None ==> runner_up(self.players@, shown@, best, i as int) is None,
            decreases self.players@.len() - i,
        {
            let above = match seat {
                Some(r) => shown[i] >= shown[r],
                None => true,
            };
            if !self.players[i].folded && shown[i] < best && shown[i] > 0 && above {
                seat = Some(i);
            }
            i = i + 1;
        }
        seat
    }

    /// The cards of the winning hands, each once: all five, and the kickers.
    fn winning_cards(&self, shown: &Vec<u64>, best: u64) -> (marked: (Vec<Card>, Vec<Card>))
        requires
            shown@ == shown_scores(self.players@, self.community@),
            self.community@.len() >= 5,
            all_valid(self.community@),
            forall|i: int| 0 <= i < self.players@.len() ==> all_valid(#[trigger] self.players@[i].hole@),
        ensures
            marked.0@ == marked_cards(self.players@, self.community@, shown@, best, self.players@.len() as int, false),
            marked.1@ == marked_cards(self.players@, self.community@, shown@, best, self.players@.len() as int, true),
    {
        let ghost ps = self.players@;
        let ghost board = self.community@;
        let mut highlighted: Vec<Card> = Vec::new();
        let mut kickers: Vec<Card> = Vec::new();
        let mut i: usize = 0;
        while i < self.players.len()
            invariant
                i <= ps.len(),
                ps == self.players@,
                board == self.community@,
                board.len() >= 5,
                all_valid(board),
                forall|j: int| 0 <= j < ps.len() ==> all_valid(#[trigger] ps[j].hole@),
                shown@ == shown_scores(ps, board),
                highlighted@ == marked_cards(ps, board, shown@, best, i as int, false),
                kickers@ == marked_cards(ps, board, shown@, best, i as int, true),
            decreases ps.len() - i,
        {
            if !self.players[i].folded && shown[i] == best {
                let cards = self.hand_cards(i);
                proof {
                    lemma_valid_concat(board, ps[i as int].hole@);
                }
                let (score, five) = best_five(cards.as_slice());
                proof {
                    lemma_best_score_of(cards@, score as int);
                    let t = choose|t: (int, int, int, int, int)|
                        is_combo(cards@.len() as int, t) && #[trigger] combo(cards@, t) == five@;
                    lemma_combo_valid(cards@, t);
                    assert forall|r: int| #[trigger] rank_count(five@, r) < 256 by {
                        lemma_rank_count_bound(five@, r);
                    }
                }
                let kick = kicker_cards(five.as_slice(), score);
                add_new_cards(&mut kickers, &kick);
                add_new_cards(&mut highlighted, &five);
            }
            i = i + 1;
        }
        (highlighted, kickers)
    }
}


impl Game {
    /// The analysis of a showdown for the human: who won with what, who came
    /// second and why they lost, or why the human lost.
    fn showdown_analysis(&self, shown: &Vec<u64>, raw: &Vec<u64>, best: u64) -> (lines: Vec<String>)
        requires
            shown@ == shown_scores(self.players@, self.community@),
            raw@ == raw_scores(self.players@, self.community@),
            forall|i: int| 0 <= i < raw@.len() ==> 0 < #[trigger] raw@[i] && describable(raw@[i]),
            best == seq_max(shown@),
            self.players@.len() >= 1,
            count_live(self.players@) >= 1,
        ensures
            texts(lines@) == showdown_lines(self.players@, shown@, raw@, best),
    {
        let ghost ps = self.players@;
        let ghost n = ps.len() as int;
        proof {
            let k = lemma_seq_max(shown@);
            let live = lemma_some_live(ps);
            assert(shown@[live] == raw@[live]);
            assert(!ps[k].folded);
            assert(holds_best(ps, shown@, best, k));
            lemma_first_best(ps, shown@, best, n);
            lemma_runner_up(ps, shown@, best, n);
        }
        let mut lines: Vec<String> = Vec::new();
        if !self.players[0].folded && shown[0] == best {
            let verdict = if self.count_winners(shown, best) == 1 {
                "Вы победили. Ваша лучшая комбинация: "
            } else {
                "Вы разделили первое место. Ваша лучшая комбинация: "
            };
            assert(shown@[0] == raw@[0]);
            lines.push(join2(verdict, describe_hand(best).as_str()).concat("."));
            match self.runner_up_seat(shown, best) {
                Some(j) => {
                    assert(shown@[j as int] == raw@[j as int]);
                    let name = self.players[j].name.as_str();
                    lines.push(
                        join2("Второе место — ", name).concat(": ").concat(
                            describe_hand(shown[j]).as_str(),
                        ).concat("."),
                    );
                    lines.push(
                        join2("Почему ", name).concat(" проиграл: ").concat(
                            explain_loss(best, shown[j]).as_str(),
                        ),
                    );
                },
                None => {
                    lines.push(
                        String::from_str(
                            "Отдельного второго места нет: остальные участники разделили первое место или сбросили карты.",
                        ),
                    );
                },
            }
        } else {
            let winner = self.first_winner_seat(shown, best).unwrap();
            assert(holds_best(ps, shown@, best, winner as int));
            assert(shown@[winner as int] == raw@[winner as int]);
            lines.push(
                join2("Победил ", self.players[winner].name.as_str()).concat(": ").concat(
                    describe_hand(best).as_str(),
                ).concat("."),
            );
            lines.push(join2("Ваша лучшая комбинация: ", describe_hand(raw[0]).as_str()).concat("."));
            if self.players[0].folded {
                lines.push(
                    String::from_str(
                        "Вы проиграли из-за паса: после сброса даже потенциально сильная рука не участвует в сравнении.",
                    ),
                );
            } else {
                lines.push(
                    join2("Почему вы проиграли: ", explain_loss(best, raw[0]).as_str()),
                );
            }
        }
        assert(texts(lines@) =~= showdown_lines(ps, shown@, raw@, best));
        lines
    }

    /// Pays out the side pots to the scores `shown`.
    fn pay_side_pots(&mut self, shown: &Vec<u64>)
        requires
            shown@.len() == old(self).players@.len(),
            old(self).last_payouts@.len() == old(self).players@.len(),
            old(self).players@.len() <= 5,
            sum_stacks(old(self).players@) + sum_contributed(old(self).players@) <= u32::MAX,
            forall|i: int|
                0 <= i < old(self).players@.len() ==> #[trigger] old(self).last_payouts@[i]
                    + payout_from(
                    contributions_of(old(self).players@),
                    folds_of(old(self).players@),
                    shown@,
                    0,
                    i,
                ) <= u32::MAX,
        ensures
            final(self).players@.len() == old(self).players@.len(),
            final(self).last_payouts@.len() == old(self).players@.len(),
            forall|j: int|
                0 <= j < old(self).players@.len() ==> #[trigger] final(self).players@[j] == (Player {
                    stack: (old(self).players@[j].stack + payout_from(
                        contributions_of(old(self).players@),
                        folds_of(old(self).players@),
                        shown@,
                        0,
                        j,
                    )) as u32,
                    ..old(self).players@[j]
                }),
            forall|j: int|
                0 <= j < old(self).players@.len() ==> #[trigger] final(self).last_payouts@[j]
                    == old(self).last_payouts@[j] + payout_from(
                    contributions_of(old(self).players@),
                    folds_of(old(self).players@),
                    shown@,
                    0,
                    j,
                ),
            (forall|i: int|
                0 <= i < old(self).players@.len() ==> #[trigger] old(self).last_payouts@[i]
                    <= old(self).players@[i].stack) ==> forall|j: int|
                0 <= j < old(self).players@.len() ==> #[trigger] final(self).last_payouts@[j]
                    <= final(self).players@[j].stack,
            sum_stacks(final(self).players@) <= sum_stacks(old(self).players@) + sum_contributed(
                old(self).players@,
            ),
            contested(contributions_of(old(self).players@), folds_of(old(self).players@))
                ==> sum_stacks(final(self).players@) == sum_stacks(old(self).players@)
                + sum_contributed(old(self).players@),
            final(self).same_rest(&*old(self)),
    {
        let ghost ps = self.players@;
        let ghost paid = self.last_payouts@;
        let n = self.players.len();
        let mut contributions: Vec<u32> = Vec::new();
        let mut folded: Vec<bool> = Vec::new();
        let mut i: usize = 0;
        while i < n
            invariant
                n == ps.len() == self.players@.len(),
                ps == self.players@,
                i <= n,
                contributions@ == contributions_of(ps).take(i as int),
                folded@ == folds_of(ps).take(i as int),
            decreases n - i,
        {
            contributions.push(self.players[i].contributed);
            folded.push(self.players[i].folded);
            assert(contributions@ =~= contributions_of(ps).take(i + 1));
            assert(folded@ =~= folds_of(ps).take(i + 1));
            i = i + 1;
        }
        assert(contributions@ =~= contributions_of(ps));
        assert(folded@ =~= folds_of(ps));
        proof {
            lemma_contributions_total(ps);
            lemma_sums_nonneg(ps);
        }
        let payouts = side_pot_payouts(&contributions, &folded, shown);
        let mut k: usize = 0;
        while k < n
            invariant
                n == ps.len() == self.players@.len() == self.last_payouts@.len() == payouts@.len()
                    == paid.len(),
                k <= n,
                forall|j: int|
                    0 <= j < k ==> #[trigger] self.players@[j] == (Player {
                        stack: (ps[j].stack + payouts@[j]) as u32,
                        ..ps[j]
                    }),
                forall|j: int| k <= j < n ==> #[trigger] self.players@[j] == ps[j],
                forall|j: int| 0 <= j < k ==> #[trigger] self.last_payouts@[j] == paid[j] + payouts@[j],
                forall|j: int| k <= j < n ==> #[trigger] self.last_payouts@[j] == paid[j],
                forall|j: int| 0 <= j < n ==> #[trigger] paid[j] + payouts@[j] <= u32::MAX,
                (forall|j: int| 0 <= j < n ==> #[trigger] paid[j] <= ps[j].stack) ==> forall|j: int|
                    0 <= j < k ==> #[trigger] self.last_payouts@[j] <= self.players@[j].stack,
                sum_stacks(self.players@) == sum_stacks(ps) + total(payouts@.take(k as int)),
                total(payouts@) <= sum_contributed(ps),
                sum_stacks(ps) + sum_contributed(ps) <= u32::MAX,
                self.same_rest(&*old(self)),
            decreases n - k,
        {
            proof {
                lemma_total_prefix(payouts@, k + 1);
                assert(payouts@.take(k + 1).drop_last() =~= payouts@.take(k as int));
                lemma_stack_le_sum(self.players@, k as int);
                lemma_sums_update(
                    self.players@,
                    k as int,
                    Player { stack: (ps[k as int].stack + payouts@[k as int]) as u32, ..ps[k as int] },
                );
            }
            let pay = payouts[k];
            self.players[k].stack = self.players[k].stack + pay;
            let before = self.last_payouts[k];
            self.last_payouts.set(k, before + pay);
            assert(self.players@[k as int] == (Player {
                stack: (ps[k as int].stack + payouts@[k as int]) as u32,
                ..ps[k as int]
            }));
            k = k + 1;
        }
        assert(payouts@.take(n as int) =~= payouts@);
    }

    /// Settles a hand that reached the river: scores every hand, marks the
    /// winning cards, analyses the hand, pays the side pots and sees who is
    /// out of the tournament.
    fn showdown(&mut self)
        requires
            old(self).players@.len() <= 5,
            old(self).last_payouts@.len() == old(self).players@.len(),
            old(self).community@.len() == 5,
            all_valid(old(self).community@),
            forall|i: int|
                0 <= i < old(self).players@.len() ==> all_valid(#[trigger] old(self).players@[i].hole@),
            count_live(old(self).players@) >= 1,
            sum_stacks(old(self).players@) + sum_contributed(old(self).players@) <= u32::MAX,
            forall|i: int|
                0 <= i < old(self).players@.len() ==> #[trigger] old(self).last_payouts@[i]
                    + showdown_payout(old(self).players@, old(self).community@, i) <= u32::MAX,
        ensures
            final(self).showdown_settled(
                old(self).players@,
                old(self).community@,
                old(self).pot,
                old(self).last_payouts@,
            ),
            old(self).pot == sum_contributed(old(self).players@) && old(self).last_payouts@
                == Seq::new(old(self).players@.len(), |j: int| 0u32) && old(self).fully_contested()
                ==> {
                &&& total(final(self).last_payouts@) == old(self).pot
                &&& forall|j: int|
                    0 <= j < old(self).players@.len() ==> #[trigger] final(self).players@[j].stack
                        == old(self).players@[j].stack + final(self).last_payouts@[j]
                &&& forall|j: int|
                    0 <= j < old(self).players@.len() && old(self).players@[j].folded
                        ==> #[trigger] final(self).last_payouts@[j] == 0
                &&& forall|j: int|
                    0 <= j < old(self).players@.len() ==> #[trigger] final(self).last_payouts@[j]
                        <= capped_total(
                        contributions_of(old(self).players@),
                        old(self).players@[j].contributed as int,
                        old(self).players@.len() as int,
                    )
            },
            old(self).seats_ok() ==> final(self).seats_ok(),
            final(self).same_board_and_blinds(&*old(self)),
            final(self).current == old(self).current,
            final(self).current_bet == old(self).current_bet,
            final(self).min_raise == old(self).min_raise,
    {
        let ghost ps = self.players@;
        let ghost board = self.community@;
        self.street = Street::Showdown;
        self.reveal_all = true;
        let raw = self.showdown_scores();
        let shown = self.shown_of(&raw);
        let best = max_score(&shown);
        let headline = self.winner_names(&shown, best);
        let marked = self.winning_cards(&shown, best);
        self.highlighted_cards = marked.0;
        self.kicker_cards = marked.1;
        self.hand_analysis = self.showdown_analysis(&shown, &raw, best);
        let total_pot = self.pot;
        self.pay_side_pots(&shown);
        let ghost paid_out = self.players@;
        self.message = headline.concat(" выигрывает шоудаун ").concat(
            decimal_text(total_pot).as_str(),
        ).concat(" — ").concat(hand_name(best));
        self.pot = 0;
        self.update_tournament_state();
        proof {
            lemma_busted_sums(paid_out, self.players@);
            if old(self).pot == sum_contributed(ps) && old(self).last_payouts@ == Seq::new(
                ps.len(),
                |j: int| 0u32,
            ) && old(self).fully_contested() {
                lemma_showdown_pays_the_pot(
                    *self,
                    ps,
                    board,
                    old(self).pot,
                    old(self).last_payouts@,
                );
            }
            if old(self).seats_ok() {
                lemma_busted_sums(paid_out, self.players@);
                assert forall|j: int| 0 <= j < ps.len() implies all_valid(#[trigger] self.players@[j].hole@) by {
                    assert(self.players@[j] == busted(paid_out[j]));
                    assert(all_valid(ps[j].hole@));
                }
                assert forall|j: int| 0 <= j < ps.len() implies #[trigger] self.players@[j].street_bet
                    <= self.players@[j].contributed && self.players@[j].street_bet <= self.current_bet by {
                    assert(self.players@[j] == busted(paid_out[j]));
                    assert(ps[j].street_bet <= ps[j].contributed && ps[j].street_bet <= old(self).current_bet);
                }
                assert forall|j: int| 0 <= j < ps.len() implies #[trigger] self.last_payouts@[j]
                    <= self.players@[j].stack by {
                    assert(self.players@[j] == busted(paid_out[j]));
                    assert(old(self).last_payouts@[j] <= ps[j].stack);
                }
                assert forall|j: int| 0 <= j < ps.len() implies #[trigger] self.players@[j].hole@ == ps[j].hole@ by {
                    assert(self.players@[j] == busted(paid_out[j]));
                }
                lemma_hole_cards_same(ps, self.players@);
                assert(cards_in_play(self) == cards_in_play(&*old(self)));
                assert(self.seats_ok());
            }
        }
    }
}


/// A seat at the start of a betting round: no bet yet, and only those who
/// can no longer bet count as having acted.
pub open spec fn bets_cleared(p: Player) -> Player {
    Player { street_bet: 0, acted: p.folded || p.all_in, ..p }
}

/// Every seat cleared for a new betting round.
pub open spec fn cleared_seats(ps: Seq<Player>) -> Seq<Player> {
    Seq::new(ps.len(), |j: int| bets_cleared(ps[j]))
}

/// The round that follows `s`.
pub open spec fn following(s: Street) -> Street {
    match s {
        Street::Preflop => Street::Flop,
        Street::Flop => Street::Turn,
        Street::Turn => Street::River,
        _ => Street::Showdown,
    }
}

/// How many rounds still turn up board cards after `s`.
pub open spec fn rounds_left(s: Street) -> nat {
    match s {
        Street::Preflop => 3,
        Street::Flop => 2,
        Street::Turn => 1,
        _ => 0,
    }
}

/// The message that opens a betting round.
pub open spec fn street_title(s: Street) -> Seq<char> {
    match s {
        Street::Flop => "Флоп"@,
        Street::Turn => "Тёрн"@,
        _ => "Ривер"@,
    }
}

/// The board after the round following `s` is dealt from the top (the end)
/// of `deck`: one card burnt, then three cards for the flop, one otherwise.
pub open spec fn turned_up(s: Street, board: Seq<Card>, deck: Seq<Card>) -> Seq<Card> {
    let n = deck.len() as int;
    match s {
        Street::Preflop => board + seq![deck[n - 2], deck[n - 3], deck[n - 4]],
        Street::Flop | Street::Turn => board.push(deck[n - 2]),
        _ => board,
    }
}

/// The deck after the round following `s` is dealt.
pub open spec fn deck_after(s: Street, deck: Seq<Card>) -> Seq<Card> {
    let n = deck.len() as int;
    match s {
        Street::Preflop => deck.take(n - 4),
        Street::Flop | Street::Turn => deck.take(n - 2),
        _ => deck,
    }
}

/// Board and deck once every round after `s` has been dealt.
pub open spec fn run_out(s: Street, board: Seq<Card>, deck: Seq<Card>) -> (Seq<Card>, Seq<Card>)
    decreases rounds_left(s),
{
    if rounds_left(s) == 0 {
        (board, deck)
    } else {
        run_out(following(s), turned_up(s, board, deck), deck_after(s, deck))
    }
}

/// The seat can still bet this hand.
pub open spec fn can_bet(p: Player) -> bool {
    !p.eliminated && !p.folded && !p.all_in
}

/// The first seat after `from`, looking `k` seats on and further, that can
/// still bet.
pub open spec fn next_ready_from(ps: Seq<Player>, from: int, k: int) -> Option<int>
    decreases ps.len() + 1 - k,
{
    if k < 1 || k > ps.len() {
        None
    } else if can_bet(ps[(from + k) % (ps.len() as int)]) {
        Some((from + k) % (ps.len() as int))
    } else {
        next_ready_from(ps, from, k + 1)
    }
}

proof fn lemma_cleared_sums(ps: Seq<Player>)
    ensures
        sum_stacks(cleared_seats(ps)) == sum_stacks(ps),
        sum_contributed(cleared_seats(ps)) == sum_contributed(ps),
        count_active(cleared_seats(ps)) == count_active(ps),
        count_live(cleared_seats(ps)) == count_live(ps),
        count_ready(cleared_seats(ps)) == count_ready(ps),
    decreases ps.len(),
{
    if ps.len() > 0 {
        assert(cleared_seats(ps).drop_last() =~= cleared_seats(ps.drop_last()));
        lemma_cleared_sums(ps.drop_last());
    }
}

proof fn lemma_next_ready_cleared(ps: Seq<Player>, from: int, k: int)
    ensures
        next_ready_from(cleared_seats(ps), from, k) == next_ready_from(ps, from, k),
    decreases ps.len() + 1 - k,
{
    if 1 <= k <= ps.len() {
        assert(0 <= (from + k) % (ps.len() as int) < ps.len()) by (nonlinear_arith)
            requires
                ps.len() > 0,
        ;
        lemma_next_ready_cleared(ps, from, k + 1);
    }
}

impl Game {
    /// All the chips at the table: the stacks and the pot.
    pub open spec fn chips(&self) -> int {
        sum_stacks(self.players@) + self.pot
    }

    /// During a hand the pot holds exactly what the seats put in.
    pub open spec fn pot_matches(&self) -> bool {
        self.street != Street::Showdown ==> self.pot == sum_contributed(self.players@)
    }

    /// Some seat still in the hand put in as much as anyone, so every side
    /// pot has a seat that can win it.
    pub open spec fn fully_contested(&self) -> bool {
        contested(contributions_of(self.players@), folds_of(self.players@))
    }

    /// Moving on from `before` ended a hand still contested by two or more
    /// seats in a showdown where some chips were put in only by seats that
    /// folded, above what any seat still in the hand put in: nobody can win
    /// those chips.
    pub open spec fn side_pot_unclaimed(&self, before: &Game) -> bool {
        &&& before.street != Street::Showdown
        &&& count_live(before.players@) >= 2
        &&& self.street == Street::Showdown
        &&& !before.fully_contested()
    }
}

proof fn lemma_cleared_contested(ps: Seq<Player>)
    ensures
        contributions_of(cleared_seats(ps)) == contributions_of(ps),
        folds_of(cleared_seats(ps)) == folds_of(ps),
{
    assert(contributions_of(cleared_seats(ps)) =~= contributions_of(ps));
    assert(folds_of(cleared_seats(ps)) =~= folds_of(ps));
}

impl Game {
    /// Closing a betting round from `before`: bets are cleared; then the next
    /// round's cards are dealt and the first seat after the button that can
    /// bet is to act, or, with fewer than two seats able to bet or after the
    /// river, the board is run out and the hand goes to showdown. After a
    /// showdown only the bets are cleared.
    pub open spec fn street_closed(&self, before: &Game) -> bool {
        let ps = cleared_seats(before.players@);
        let board = before.community@;
        let deck = before.deck@;
        let s = before.street;
        &&& self.same_button_and_blinds(before)
        &&& self.current_bet == 0
        &&& self.min_raise == before.big_blind
        &&& if s == Street::Showdown {
            &&& self.players@ == ps
            &&& self.community == before.community
            &&& self.deck == before.deck
            &&& self.same_outcome(before)
            &&& self.current == before.current
            &&& self.street == s
            &&& self.message == before.message
        } else if s != Street::River && count_ready(before.players@) >= 2 {
            &&& self.players@ == ps
            &&& self.community@ == turned_up(s, board, deck)
            &&& self.deck@ == deck_after(s, deck)
            &&& self.same_outcome(before)
            &&& self.street == following(s)
            &&& self.message@ == street_title(following(s))
            &&& self.current == (match next_ready_from(ps, before.dealer as int, 1) {
                Some(j) => j,
                None => before.current as int,
            })
        } else {
            let board_deck = run_out(s, board, deck);
            &&& self.community@ == board_deck.0
            &&& self.deck@ == board_deck.1
            &&& self.current == before.current
            &&& self.showdown_settled(ps, board_deck.0, before.pot, before.last_payouts@)
        }
    }

    /// Blinds, button and hand count are as in `other`.
    pub open spec fn same_button_and_blinds(&self, other: &Game) -> bool {
        &&& self.dealer == other.dealer
        &&& self.small_blind == other.small_blind
        &&& self.big_blind == other.big_blind
        &&& self.hand_number == other.hand_number
        &&& self.blind_level == other.blind_level
        &&& self.config == other.config
    }

    /// Nothing of the hand's outcome differs from `other`.
    pub open spec fn same_outcome(&self, other: &Game) -> bool {
        &&& self.pot == other.pot
        &&& self.reveal_all == other.reveal_all
        &&& self.highlighted_cards == other.highlighted_cards
        &&& self.kicker_cards == other.kicker_cards
        &&& self.hand_analysis == other.hand_analysis
        &&& self.last_payouts == other.last_payouts
        &&& self.game_over == other.game_over
        &&& self.human_won == other.human_won
    }

    /// Starts a betting round: no bets yet.
    fn clear_bets(&mut self)
        ensures
            final(self).players@ == cleared_seats(old(self).players@),
            final(self).same_rest(&*old(self)),
            final(self).last_payouts == old(self).last_payouts,
    {
        let ghost ps = self.players@;
        let n = self.players.len();
        let mut i: usize = 0;
        while i < n
            invariant
                n == ps.len() == self.players@.len(),
                i <= n,
                forall|j: int| 0 <= j < i ==> #[trigger] self.players@[j] == bets_cleared(ps[j]),
                forall|j: int| i <= j < n ==> #[trigger] self.players@[j] == ps[j],
                self.same_rest(&*old(self)),
                self.last_payouts == old(self).last_payouts,
            decreases n - i,
        {
            let done = self.players[i].folded || self.players[i].all_in;
            self.players[i].street_bet = 0;
            self.players[i].acted = done;
            i = i + 1;
        }
        assert(self.players@ =~= cleared_seats(ps));
    }

    /// Turns up the top card of the deck onto the board.
    fn deal_board_card(&mut self)
        requires
            old(self).deck@.len() > 0,
        ensures
            final(self).community@ == old(self).community@.push(old(self).deck@.last()),
            final(self).deck@ == old(self).deck@.drop_last(),
            final(self).players == old(self).players,
            final(self).same_button_and_blinds(&*old(self)),
            final(self).same_outcome(&*old(self)),
            final(self).current == old(self).current,
            final(self).current_bet == old(self).current_bet,
            final(self).min_raise == old(self).min_raise,
            final(self).street == old(self).street,
            final(self).message == old(self).message,
            forall|x: Card| #[trigger] card_count(final(self), x) == card_count(&*old(self), x),
    {
        let ghost d = self.deck@;
        let card = self.deck.draw();
        self.community.push(card);
        proof {
            broadcast use vstd::seq_lib::group_to_multiset_ensures;

            assert(d =~= d.drop_last().push(card));
        }
    }

    /// Puts the top card of the deck aside.
    fn burn_card(&mut self)
        requires
            old(self).deck@.len() > 0,
        ensures
            final(self).deck@ == old(self).deck@.drop_last(),
            final(self).players == old(self).players,
            final(self).community == old(self).community,
            final(self).same_button_and_blinds(&*old(self)),
            final(self).same_outcome(&*old(self)),
            final(self).current == old(self).current,
            final(self).current_bet == old(self).current_bet,
            final(self).min_raise == old(self).min_raise,
            final(self).street == old(self).street,
            final(self).message == old(self).message,
            forall|x: Card| #[trigger] card_count(final(self), x) <= card_count(&*old(self), x),
    {
        let ghost d = self.deck@;
        self.deck.draw();
        proof {
            broadcast use vstd::seq_lib::group_to_multiset_ensures;

            assert(d =~= d.drop_last().push(d.last()));
        }
    }

    /// How many seats can still bet this hand.
    fn ready_count(&self) -> (n: usize)
        ensures
            n == count_ready(self.players@),
    {
        let mut n: usize = 0;
        let mut i: usize = 0;
        while i < self.players.len()
            invariant
                i <= self.players@.len(),
                n == count_ready(self.players@.take(i as int)),
                n <= i,
            decreases self.players@.len() - i,
        {
            assert(self.players@.take(i + 1).drop_last() =~= self.players@.take(i as int));
            if !self.players[i].folded && !self.players[i].all_in {
                n = n + 1;
            }
            i = i + 1;
        }
        assert(self.players@.take(self.players@.len() as int) =~= self.players@);
        n
    }

    /// The first seat after `from` that can still bet, if any.
    fn first_ready_after(&self, from: usize) -> (seat: Option<usize>)
        requires
            from < self.players@.len() <= 5,
        ensures
            seat matches Some(j) ==> next_ready_from(self.players@, from as int, 1) == Some(j as int)
                && j < self.players@.len(),
            seat is None ==> next_ready_from(self.players@, from as int, 1) is None,
    {
        let n = self.players.len();
        let mut k: usize = 1;
        while k <= n
            invariant
                1 <= k <= n + 1,
                n == self.players@.len(),
                from < n <= 5,
                next_ready_from(self.players@, from as int, 1) == next_ready_from(
                    self.players@,
                    from as int,
                    k as int,
                ),
            decreases n + 1 - k,
        {
            let j = (from + k) % n;
            if !self.players[j].eliminated && !self.players[j].folded && !self.players[j].all_in {
                return Some(j);
            }
            k = k + 1;
        }
        None
    }

    /// Ends the betting round: deals the next street, or runs the board out
    /// and goes to showdown when at most one seat can still bet.
    fn next_street(&mut self)
        requires
            old(self).seats_ok(),
            old(self).street != Street::Showdown ==> count_live(old(self).players@) >= 1,
        ensures
            final(self).street_closed(&*old(self)),
            final(self).seats_ok(),
            old(self).well_formed() ==> final(self).well_formed(),
            old(self).pot_matches() ==> final(self).chips() <= old(self).chips(),
            old(self).pot_matches() && old(self).fully_contested() ==> final(self).chips()
                == old(self).chips(),
            (old(self).street == Street::Preflop || old(self).street == Street::Flop
                || old(self).street == Street::Turn) && count_ready(old(self).players@) >= 2
                ==> final(self).next_round_opened(&*old(self)),
            old(self).street != Street::Showdown && (old(self).street == Street::River
                || count_ready(old(self).players@) < 2) ==> final(self).board_ran_out(&*old(self)),
            old(self).pot_matches() && !(old(self).street != Street::Showdown && final(self).street
                == Street::Showdown && !old(self).fully_contested()) ==> final(self).chips()
                == old(self).chips(),
    {
        let ghost before = *self;
        self.close_round();
        proof {
            lemma_cleared_sums(before.players@);
            if (before.street == Street::Preflop || before.street == Street::Flop || before.street
                == Street::Turn) && count_ready(before.players@) >= 2 {
                lemma_next_round_opens(*self, before);
            }
            if before.street != Street::Showdown && (before.street == Street::River || count_ready(
                before.players@,
            ) < 2) {
                lemma_board_runs_out(*self, before);
            }
        }
    }

    /// Closes the betting round, running the board out round by round.
    fn close_round(&mut self)
        requires
            old(self).seats_ok(),
            old(self).street != Street::Showdown ==> count_live(old(self).players@) >= 1,
        ensures
            final(self).street_closed(&*old(self)),
            final(self).seats_ok(),
            old(self).well_formed() ==> final(self).well_formed(),
            old(self).pot_matches() ==> final(self).chips() <= old(self).chips(),
            old(self).pot_matches() && old(self).fully_contested() ==> final(self).chips()
                == old(self).chips(),
        decreases rounds_left(old(self).street),
    {
        let ghost before = *self;
        proof {
            lemma_cleared_sums(before.players@);
            lemma_cleared_contested(before.players@);
        }
        self.clear_bets();
        self.current_bet = 0;
        self.min_raise = self.big_blind;
        let ghost cleared = *self;
        proof {
            assert forall|j: int| 0 <= j < self.players@.len() implies all_valid(#[trigger] self.players@[j].hole@) by {
                assert(self.players@[j] == bets_cleared(before.players@[j]));
                assert(all_valid(before.players@[j].hole@));
            }
            assert forall|j: int| 0 <= j < self.players@.len() implies #[trigger] self.players@[j].street_bet
                <= self.players@[j].contributed && self.players@[j].street_bet <= self.current_bet by {
                assert(self.players@[j] == bets_cleared(before.players@[j]));
            }
            assert forall|j: int| 0 <= j < self.players@.len() implies #[trigger] self.last_payouts@[j]
                <= self.players@[j].stack by {
                assert(self.players@[j] == bets_cleared(before.players@[j]));
                assert(before.last_payouts@[j] <= before.players@[j].stack);
            }
            assert forall|j: int| 0 <= j < self.players@.len() implies #[trigger] self.players@[j].hole@
                == before.players@[j].hole@ by {
                assert(self.players@[j] == bets_cleared(before.players@[j]));
            }
            lemma_hole_cards_same(before.players@, self.players@);
            assert(cards_in_play(self) == cards_in_play(&before));
            assert(self.seats_ok());
        }
        match self.street {
            Street::Preflop => {
                let ghost d = self.deck@;
                self.burn_card();
                self.deal_board_card();
                self.deal_board_card();
                self.deal_board_card();
                proof {
                    lemma_fewer_cards(&cleared, self);
                }
                assert(self.community@ =~= turned_up(Street::Preflop, before.community@, d));
                assert(self.deck@ =~= deck_after(Street::Preflop, d));
                self.street = Street::Flop;
                self.message = String::from_str("Флоп");
            },
            Street::Flop => {
                let ghost d = self.deck@;
                self.burn_card();
                self.deal_board_card();
                proof {
                    lemma_fewer_cards(&cleared, self);
                }
                assert(self.community@ =~= turned_up(Street::Flop, before.community@, d));
                assert(self.deck@ =~= deck_after(Street::Flop, d));
                self.street = Street::Turn;
                self.message = String::from_str("Тёрн");
            },
            Street::Turn => {
                let ghost d = self.deck@;
                self.burn_card();
                self.deal_board_card();
                proof {
                    lemma_fewer_cards(&cleared, self);
                }
                assert(self.community@ =~= turned_up(Street::Turn, before.community@, d));
                assert(self.deck@ =~= deck_after(Street::Turn, d));
                self.street = Street::River;
                self.message = String::from_str("Ривер");
            },
            Street::River => {
                proof {
                    lemma_payouts_fit(self.players@, self.community@, self.last_payouts@);
                }
                self.showdown();
                return;
            },
            Street::Showdown => {
                return;
            },
        }
        assert(self.seats_ok());
        let ghost dealt = *self;
        if self.ready_count() <= 1 {
            self.close_round();
            proof {
                assert(cleared_seats(dealt.players@) =~= dealt.players@) by {
                    assert forall|j: int| 0 <= j < dealt.players@.len() implies #[trigger] bets_cleared(dealt.players@[j]) == dealt.players@[j] by {
                        assert(dealt.players@[j] == bets_cleared(before.players@[j]));
                    }
                }
            }
            return;
        }
        proof {
            lemma_next_ready_cleared(before.players@, self.dealer as int, 1);
        }
        match self.first_ready_after(self.dealer) {
            Some(j) => {
                self.current = j;
            },
            None => {},
        }
    }
}


/// The seat still in the hand, when only one is.
pub open spec fn live_seat(ps: Seq<Player>) -> int {
    choose|w: int| 0 <= w < ps.len() && !ps[w].folded
}

proof fn lemma_two_live(ps: Seq<Player>, i: int, j: int)
    requires
        0 <= i < j < ps.len(),
        !ps[i].folded,
        !ps[j].folded,
    ensures
        count_live(ps) >= 2,
    decreases ps.len(),
{
    if j < ps.len() - 1 {
        lemma_two_live(ps.drop_last(), i, j);
    } else {
        lemma_some_live_count(ps.drop_last(), i);
    }
}

proof fn lemma_some_live_count(ps: Seq<Player>, i: int)
    requires
        0 <= i < ps.len(),
        !ps[i].folded,
    ensures
        count_live(ps) >= 1,
    decreases ps.len(),
{
    if i < ps.len() - 1 {
        lemma_some_live_count(ps.drop_last(), i);
    }
}

/// What the human is told after everyone else folded to seat `w`, who took
/// `prize` without a showdown.
pub open spec fn uncontested_lines(ps: Seq<Player>, board: Seq<Card>, w: int, prize: u32) -> Seq<
    Seq<char>,
> {
    if w == 0 {
        seq![
            "Вы выиграли "@ + decimal(prize as nat) + " без вскрытия: все соперники сбросили карты."@,
            "Второе место по силе определить нельзя — карты соперников не вскрывались."@,
        ]
    } else {
        let told = seq![
            ps[w].name@ + " выиграл банк "@ + decimal(prize as nat) + " без вскрытия."@,
            "Вы проиграли после паса: сброшенная рука больше не участвует в сравнении."@,
        ];
        let yours = hand_of(board, ps[0]);
        if yours.len() >= 5 {
            told.push(
                "На открытых к этому моменту картах у вас могла получиться: "@ + description(
                    best_score_of(yours) as u64,
                ) + "."@,
            )
        } else {
            told
        }
    }
}

/// The seat still owes an action in this round facing a bet of `bet`.
pub open spec fn owes_action(p: Player, bet: u32) -> bool {
    can_bet(p) && (!p.acted || p.street_bet != bet)
}

/// The first seat after `from`, looking `k` seats on and further, that owes
/// an action facing `bet`.
pub open spec fn next_owing_from(ps: Seq<Player>, from: int, bet: u32, k: int) -> Option<int>
    decreases ps.len() + 1 - k,
{
    if k < 1 || k > ps.len() {
        None
    } else if owes_action(ps[(from + k) % (ps.len() as int)], bet) {
        Some((from + k) % (ps.len() as int))
    } else {
        next_owing_from(ps, from, bet, k + 1)
    }
}

/// Everyone who can still bet has acted and matched `bet`.
pub open spec fn betting_done(ps: Seq<Player>, bet: u32) -> bool {
    forall|j: int|
        0 <= j < ps.len() && !(#[trigger] ps[j]).folded && !ps[j].all_in ==> ps[j].acted
            && ps[j].street_bet == bet
}

impl Game {
    /// The seat to act next after the current one, if any still owes an action.
    pub open spec fn due_seat(&self) -> Option<int> {
        if self.street == Street::Showdown {
            None
        } else {
            next_owing_from(self.players@, self.current as int, self.current_bet, 1)
        }
    }

    /// Only the turn moved on, to seat `j`.
    pub open spec fn turn_passed(&self, before: &Game, j: int) -> bool {
        &&& self.current == j
        &&& self.players == before.players
        &&& self.community == before.community
        &&& self.deck == before.deck
        &&& self.same_button_and_blinds(before)
        &&& self.same_outcome(before)
        &&& self.current_bet == before.current_bet
        &&& self.min_raise == before.min_raise
        &&& self.street == before.street
        &&& self.message == before.message
    }

    /// Seat `w`, the last one in the hand, took the pot without a showdown.
    pub open spec fn pot_taken(&self, before: &Game, w: int) -> bool {
        let ps = before.players@;
        let prize = before.pot;
        &&& self.players@.len() == ps.len()
        &&& forall|j: int|
            0 <= j < ps.len() ==> #[trigger] self.players@[j] == busted(
                if j == w {
                    Player { stack: (ps[w].stack + prize) as u32, ..ps[w] }
                } else {
                    ps[j]
                },
            )
        &&& self.last_payouts@ == before.last_payouts@.update(
            w,
            (before.last_payouts@[w] + prize) as u32,
        )
        &&& self.pot == 0
        &&& self.street == Street::Showdown
        &&& texts(self.hand_analysis@) == uncontested_lines(ps, before.community@, w, prize)
        &&& self.hand_closed(ps[w].name@ + " забирает банк "@ + decimal(prize as nat))
        &&& self.community == before.community
        &&& self.deck == before.deck
        &&& self.same_button_and_blinds(before)
        &&& self.current == before.current
        &&& self.current_bet == before.current_bet
        &&& self.min_raise == before.min_raise
        &&& self.reveal_all == before.reveal_all
        &&& self.highlighted_cards == before.highlighted_cards
        &&& self.kicker_cards == before.kicker_cards
    }

    /// Moving the game on from `before` after an action: the last seat in
    /// the hand takes the pot; a finished betting round closes the street;
    /// otherwise the next seat that owes an action is to act.
    pub open spec fn advanced(&self, before: &Game) -> bool {
        let ps = before.players@;
        if count_live(ps) == 1 {
            self.pot_taken(before, live_seat(ps))
        } else if betting_done(ps, before.current_bet) {
            self.street_closed(before)
        } else {
            match before.due_seat() {
                Some(j) => self.turn_passed(before, j),
                None => self.street_closed(before),
            }
        }
    }

    /// The only seat still in the hand.
    fn only_live_seat(&self) -> (w: usize)
        requires
            count_live(self.players@) == 1,
        ensures
            w == live_seat(self.players@),
            w < self.players@.len(),
            !self.players@[w as int].folded,
    {
        let ghost ps = self.players@;
        proof {
            let k = lemma_some_live(ps);
        }
        let mut i: usize = 0;
        while i < self.players.len()
            invariant
                i <= ps.len(),
                ps == self.players@,
                count_live(ps) == 1,
                forall|j: int| 0 <= j < i ==> #[trigger] ps[j].folded,
            decreases ps.len() - i,
        {
            if !self.players[i].folded {
                proof {
                    let w = live_seat(ps);
                    if w != i as int {
                        if w < i {
                            assert(ps[w].folded);
                        } else {
                            lemma_two_live(ps, i as int, w);
                        }
                    }
                }
                return i;
            }
            i = i + 1;
        }
        proof {
            let k = lemma_some_live(ps);
            assert(ps[k].folded);
        }
        0
    }

    /// How many seats are still in the hand.
    fn live_count(&self) -> (n: usize)
        ensures
            n == count_live(self.players@),
    {
        let mut n: usize = 0;
        let mut i: usize = 0;
        while i < self.players.len()
            invariant
                i <= self.players@.len(),
                n == count_live(self.players@.take(i as int)),
                n <= i,
            decreases self.players@.len() - i,
        {
            assert(self.players@.take(i + 1).drop_last() =~= self.players@.take(i as int));
            if !self.players[i].folded {
                n = n + 1;
            }
            i = i + 1;
        }
        assert(self.players@.take(self.players@.len() as int) =~= self.players@);
        n
    }

    /// Whether everyone who can still bet has acted and matched the bet.
    fn round_done(&self) -> (done: bool)
        ensures
            done == betting_done(self.players@, self.current_bet),
    {
        let mut i: usize = 0;
        while i < self.players.len()
            invariant
                i <= self.players@.len(),
                forall|j: int|
                    0 <= j < i && !(#[trigger] self.players@[j]).folded && !self.players@[j].all_in
                        ==> self.players@[j].acted && self.players@[j].street_bet
                        == self.current_bet,
            decreases self.players@.len() - i,
        {
            if !self.players[i].folded && !self.players[i].all_in && !(self.players[i].acted
                && self.players[i].street_bet == self.current_bet) {
                assert(!(self.players@[i as int].acted && self.players@[i as int].street_bet
                    == self.current_bet));
                return false;
            }
            i = i + 1;
        }
        true
    }

    /// The next seat after the current one that owes an action, if any.
    fn seat_due(&self) -> (seat: Option<usize>)
        requires
            self.current < self.players@.len() <= 5,
        ensures
            seat matches Some(j) ==> self.due_seat() == Some(j as int) && j < self.players@.len(),
            seat is None ==> self.due_seat() is None,
    {
        if self.street == Street::Showdown {
            return None;
        }
        let n = self.players.len();
        let mut k: usize = 1;
        while k <= n
            invariant
                1 <= k <= n + 1,
                n == self.players@.len(),
                self.current < n <= 5,
                self.street != Street::Showdown,
                self.due_seat() == next_owing_from(
                    self.players@,
                    self.current as int,
                    self.current_bet,
                    k as int,
                ),
            decreases n + 1 - k,
        {
            let j = (self.current + k) % n;
            if self.can_act(j) && (!self.players[j].acted || self.players[j].street_bet
                != self.current_bet) {
                return Some(j);
            }
            k = k + 1;
        }
        None
    }

    /// What the human is told when seat `w` took the pot uncontested.
    fn uncontested_analysis(&self, w: usize, prize: u32) -> (lines: Vec<String>)
        requires
            w < self.players@.len(),
            all_valid(self.community@),
            forall|i: int| 0 <= i < self.players@.len() ==> all_valid(#[trigger] self.players@[i].hole@),
        ensures
            texts(lines@) == uncontested_lines(self.players@, self.community@, w as int, prize),
    {
        let ghost ps = self.players@;
        let mut lines: Vec<String> = Vec::new();
        if w == 0 {
            lines.push(
                join2("Вы выиграли ", decimal_text(prize).as_str()).concat(
                    " без вскрытия: все соперники сбросили карты.",
                ),
            );
            lines.push(
                String::from_str(
                    "Второе место по силе определить нельзя — карты соперников не вскрывались.",
                ),
            );
        } else {
            lines.push(
                join2(self.players[w].name.as_str(), " выиграл банк ").concat(
                    decimal_text(prize).as_str(),
                ).concat(" без вскрытия."),
            );
            lines.push(
                String::from_str(
                    "Вы проиграли после паса: сброшенная рука больше не участвует в сравнении.",
                ),
            );
            let yours = self.hand_cards(0);
            if yours.len() >= 5 {
                proof {
                    lemma_valid_concat(self.community@, ps[0].hole@);
                }
                let score = evaluate(yours.as_slice());
                proof {
                    lemma_best_score_describable(yours@, score as int);
                    lemma_best_score_of(yours@, score as int);
                }
                lines.push(
                    join2(
                        "На открытых к этому моменту картах у вас могла получиться: ",
                        describe_hand(score).as_str(),
                    ).concat("."),
                );
            }
        }
        assert(texts(lines@) =~= uncontested_lines(ps, self.community@, w as int, prize));
        lines
    }

    /// Moves the game on after an action: pays an uncontested pot, closes a
    /// finished betting round, or passes the turn to the next seat that owes
    /// an action.
    pub fn advance(&mut self)
        requires
            old(self).seats_ok(),
            old(self).street != Street::Showdown ==> count_live(old(self).players@) >= 1,
        ensures
            final(self).advanced(&*old(self)),
            final(self).seats_ok(),
            old(self).pot_matches() ==> final(self).well_formed(),
            old(self).pot_matches() ==> final(self).chips() <= old(self).chips(),
            old(self).pot_matches() && old(self).fully_contested() ==> final(self).chips()
                == old(self).chips(),
            old(self).pot_matches() && !final(self).side_pot_unclaimed(&*old(self))
                ==> final(self).chips() == old(self).chips(),
    {
        let ghost before = *self;
        if self.live_count() == 1 {
            let w = self.only_live_seat();
            let prize = self.pot;
            proof {
                lemma_stack_le_sum(self.players@, w as int);
            }
            let lines = self.uncontested_analysis(w, prize);
            self.players[w].stack = self.players[w].stack + prize;
            let paid = self.last_payouts[w];
            self.last_payouts.set(w, paid + prize);
            self.message = join2(self.players[w].name.as_str(), " забирает банк ").concat(
                decimal_text(prize).as_str(),
            );
            self.hand_analysis = lines;
            self.pot = 0;
            self.street = Street::Showdown;
            let ghost paid_out = self.players@;
            proof {
                lemma_sums_update(
                    before.players@,
                    w as int,
                    Player { stack: (before.players@[w as int].stack + prize) as u32, ..before.players@[w as int] },
                );
                assert(paid_out =~= before.players@.update(
                    w as int,
                    Player { stack: (before.players@[w as int].stack + prize) as u32, ..before.players@[w as int] },
                ));
            }
            self.update_tournament_state();
            proof {
                lemma_busted_sums(paid_out, self.players@);
                let ps = before.players@;
                assert forall|j: int| 0 <= j < ps.len() implies all_valid(#[trigger] self.players@[j].hole@) by {
                    assert(self.players@[j] == busted(paid_out[j]));
                    assert(all_valid(ps[j].hole@));
                }
                assert forall|j: int| 0 <= j < ps.len() implies #[trigger] self.players@[j].street_bet
                    <= self.players@[j].contributed && self.players@[j].street_bet <= self.current_bet by {
                    assert(self.players@[j] == busted(paid_out[j]));
                    assert(ps[j].street_bet <= ps[j].contributed && ps[j].street_bet <= before.current_bet);
                }
                assert forall|j: int| 0 <= j < ps.len() implies #[trigger] self.last_payouts@[j]
                    <= self.players@[j].stack by {
                    assert(self.players@[j] == busted(paid_out[j]));
                    assert(before.last_payouts@[j] <= ps[j].stack);
                }
                assert forall|j: int| 0 <= j < ps.len() implies #[trigger] self.players@[j].hole@
                    == ps[j].hole@ by {
                    assert(self.players@[j] == busted(paid_out[j]));
                }
                lemma_hole_cards_same(ps, self.players@);
                assert(cards_in_play(self) == cards_in_play(&before));
                assert(self.seats_ok());
                assert(self.pot_taken(&before, live_seat(ps)));
                assert(self.chips() == before.chips());
            }
            return;
        }
        if self.round_done() {
            self.next_street();
            return;
        }
        match self.seat_due() {
            Some(j) => {
                self.current = j;
            },
            None => {
                self.next_street();
            },
        }
    }
}


/// Seat `p` after putting up to `amount` more chips into the pot: all of
/// its stack if that is less, which puts it all-in.
pub open spec fn committed(p: Player, amount: int) -> Player {
    let paid = paid_in(p, amount);
    Player {
        stack: (p.stack - paid) as u32,
        street_bet: (p.street_bet + paid) as u32,
        contributed: (p.contributed + paid) as u32,
        all_in: p.all_in || p.stack - paid == 0,
        ..p
    }
}

/// What seat `p` actually pays when asked for `amount`.
pub open spec fn paid_in(p: Player, amount: int) -> int {
    if amount <= p.stack { amount } else { p.stack as int }
}

/// Seat `p` after another seat raised: it owes an action again, unless it
/// can no longer bet.
pub open spec fn reopened(p: Player) -> Player {
    if !p.folded && !p.all_in {
        Player { acted: false, ..p }
    } else {
        p
    }
}

/// The total a raise to `requested` comes to for seat `p` facing `bet`: at
/// least a full raise of `min_raise`, at most everything the seat has.
pub open spec fn raise_target(requested: u32, bet: u32, min_raise: u32, p: Player) -> int {
    let wanted = if requested >= bet + min_raise { requested as int } else { bet + min_raise };
    let most = p.street_bet + p.stack;
    if wanted <= most { wanted } else { most }
}

/// A seat's chips and contribution fit within the table's totals.
pub(crate) proof fn lemma_seat_le_sums(ps: Seq<Player>, i: int)
    requires
        0 <= i < ps.len(),
    ensures
        ps[i].stack + ps[i].contributed <= sum_stacks(ps) + sum_contributed(ps),
    decreases ps.len(),
{
    lemma_sums_nonneg(ps);
    if i < ps.len() - 1 {
        lemma_seat_le_sums(ps.drop_last(), i);
    } else {
        lemma_sums_nonneg(ps.drop_last());
    }
}

/// Sums and counts over seats depend only on chips, contributions and status.
proof fn lemma_sums_same(ps: Seq<Player>, qs: Seq<Player>)
    requires
        ps.len() == qs.len(),
        forall|j: int|
            0 <= j < ps.len() ==> (#[trigger] qs[j]).stack == ps[j].stack && qs[j].contributed
                == ps[j].contributed && qs[j].folded == ps[j].folded && qs[j].all_in
                == ps[j].all_in && qs[j].eliminated == ps[j].eliminated,
    ensures
        sum_stacks(qs) == sum_stacks(ps),
        sum_contributed(qs) == sum_contributed(ps),
        count_active(qs) == count_active(ps),
        count_live(qs) == count_live(ps),
        count_ready(qs) == count_ready(ps),
    decreases ps.len(),
{
    if ps.len() > 0 {
        let n = ps.len() - 1;
        assert(qs[n as int].stack == ps[n as int].stack);
        assert forall|j: int| 0 <= j < ps.drop_last().len() implies (#[trigger] qs.drop_last()[j]).stack
            == ps.drop_last()[j].stack && qs.drop_last()[j].contributed
            == ps.drop_last()[j].contributed && qs.drop_last()[j].folded
            == ps.drop_last()[j].folded && qs.drop_last()[j].all_in == ps.drop_last()[j].all_in
            && qs.drop_last()[j].eliminated == ps.drop_last()[j].eliminated by {
            assert(qs[j].stack == ps[j].stack);
        }
        lemma_sums_same(ps.drop_last(), qs.drop_last());
    }
}

impl Game {
    /// `self` is `before` with the current seat's `action` applied, before
    /// the game moves on: the payouts of the last hand are cleared; a fold
    /// leaves the hand; a check or call matches the bet; a raise goes to the
    /// raise target and every other seat that can still bet owes an action
    /// again. A raise that cannot go above the bet is a call.
    pub open spec fn action_taken(&self, before: &Game, action: Action) -> bool {
        let ps = before.players@;
        let i = before.current as int;
        let p = ps[i];
        let call = if before.current_bet >= p.street_bet {
            before.current_bet - p.street_bet
        } else {
            0
        };
        &&& self.last_payouts@ == Seq::new(ps.len(), |j: int| 0u32)
        &&& self.community == before.community
        &&& self.deck == before.deck
        &&& self.same_button_and_blinds(before)
        &&& self.current == before.current
        &&& self.street == before.street
        &&& self.reveal_all == before.reveal_all
        &&& self.highlighted_cards == before.highlighted_cards
        &&& self.kicker_cards == before.kicker_cards
        &&& self.hand_analysis == before.hand_analysis
        &&& self.game_over == before.game_over
        &&& self.human_won == before.human_won
        &&& match action {
            Action::Fold => {
                &&& self.players@ == ps.update(i, Player { folded: true, acted: true, ..p })
                &&& self.pot == before.pot
                &&& self.current_bet == before.current_bet
                &&& self.min_raise == before.min_raise
                &&& self.message@ == p.name@ + " сбрасывает"@
            },
            Action::CheckCall => {
                &&& self.players@ == ps.update(i, Player { acted: true, ..committed(p, call) })
                &&& self.pot == before.pot + paid_in(p, call)
                &&& self.current_bet == before.current_bet
                &&& self.min_raise == before.min_raise
                &&& self.message@ == (if call == 0 {
                    p.name@ + " — чек"@
                } else {
                    p.name@ + " уравнивает "@ + decimal(call as nat)
                })
            },
            Action::Raise(requested) => {
                let target = raise_target(requested, before.current_bet, before.min_raise, p);
                if target <= before.current_bet {
                    &&& self.players@ == ps.update(i, Player { acted: true, ..committed(p, call) })
                    &&& self.pot == before.pot + paid_in(p, call)
                    &&& self.current_bet == before.current_bet
                    &&& self.min_raise == before.min_raise
                    &&& self.message == before.message
                } else {
                    &&& self.players@.len() == ps.len()
                    &&& forall|j: int|
                        0 <= j < ps.len() ==> #[trigger] self.players@[j] == (if j == i {
                            Player { acted: true, ..committed(p, target - p.street_bet) }
                        } else {
                            reopened(ps[j])
                        })
                    &&& self.pot == before.pot + (target - p.street_bet)
                    &&& self.current_bet == target
                    &&& self.min_raise == target - before.current_bet
                    &&& self.message@ == p.name@ + " повышает до "@ + decimal(target as nat)
                }
            },
        }
    }

    /// Zeroes the payouts of the last hand.
    fn clear_payouts(&mut self)
        ensures
            final(self).last_payouts@ == Seq::new(old(self).last_payouts@.len(), |j: int| 0u32),
            final(self).players == old(self).players,
            final(self).same_rest(&*old(self)),
    {
        let n = self.last_payouts.len();
        let mut k: usize = 0;
        while k < n
            invariant
                n == self.last_payouts@.len(),
                k <= n,
                forall|j: int| 0 <= j < k ==> #[trigger] self.last_payouts@[j] == 0,
                self.players == old(self).players,
                self.same_rest(&*old(self)),
            decreases n - k,
        {
            self.last_payouts.set(k, 0);
            k = k + 1;
        }
        assert(self.last_payouts@ =~= Seq::new(n as nat, |j: int| 0u32));
    }

    /// After seat `i` raised, every other seat that can still bet owes an
    /// action again.
    fn reopen_betting(&mut self, i: usize)
        ensures
            final(self).players@.len() == old(self).players@.len(),
            forall|j: int|
                0 <= j < old(self).players@.len() ==> #[trigger] final(self).players@[j] == (if j
                    == i {
                    old(self).players@[j]
                } else {
                    reopened(old(self).players@[j])
                }),
            final(self).same_rest(&*old(self)),
            final(self).last_payouts == old(self).last_payouts,
    {
        let ghost ps = self.players@;
        let n = self.players.len();
        let mut j: usize = 0;
        while j < n
            invariant
                n == ps.len() == self.players@.len(),
                j <= n,
                forall|k: int|
                    0 <= k < j ==> #[trigger] self.players@[k] == (if k == i {
                        ps[k]
                    } else {
                        reopened(ps[k])
                    }),
                forall|k: int| j <= k < n ==> #[trigger] self.players@[k] == ps[k],
                self.same_rest(&*old(self)),
                self.last_payouts == old(self).last_payouts,
            decreases n - j,
        {
            if j != i && !self.players[j].folded && !self.players[j].all_in {
                self.players[j].acted = false;
            }
            j = j + 1;
        }
    }

    /// `self` is `before` after the current seat played `action`: nothing
    /// changes when that seat cannot act; otherwise the action is taken and
    /// the game moves on, and no chip leaves the table unless a side pot
    /// was left without a seat that could win it.
    pub open spec fn played(&self, before: &Game, action: Action) -> bool {
        &&& !before.may_act(before.current as int) ==> *self == *before
        &&& before.may_act(before.current as int) ==> exists|mid: Game|
            #[trigger] mid.action_taken(before, action) && self.advanced(&mid) && (
            mid.fully_contested() ==> self.chips() == before.chips()) && (
            !self.side_pot_unclaimed(&mid) ==> self.chips() == before.chips())
    }

    /// Everything but the seats, the pot, the bets and the message agrees.
    pub open spec fn same_but_seats(&self, other: &Game) -> bool {
        &&& self.same_table(other)
        &&& self.current == other.current
        &&& self.street == other.street
        &&& self.last_payouts == other.last_payouts
        &&& self.game_over == other.game_over
        &&& self.human_won == other.human_won
    }

    /// Seat `i` folds.
    fn fold_seat(&mut self, i: usize)
        requires
            i < old(self).players@.len(),
        ensures
            final(self).players@ == old(self).players@.update(
                i as int,
                Player { folded: true, acted: true, ..old(self).players@[i as int] },
            ),
            final(self).message@ == old(self).players@[i as int].name@ + " сбрасывает"@,
            final(self).same_but_seats(&*old(self)),
            final(self).pot == old(self).pot,
            final(self).current_bet == old(self).current_bet,
            final(self).min_raise == old(self).min_raise,
            sum_stacks(final(self).players@) == sum_stacks(old(self).players@),
            sum_contributed(final(self).players@) == sum_contributed(old(self).players@),
            count_live(final(self).players@) == count_live(old(self).players@) - 1 + (if old(
                self,
            ).players@[i as int].folded {
                1int
            } else {
                0int
            }),
    {
        proof {
            lemma_sums_update(
                self.players@,
                i as int,
                Player { folded: true, acted: true, ..self.players@[i as int] },
            );
        }
        self.players[i].folded = true;
        self.players[i].acted = true;
        self.message = join2(self.players[i].name.as_str(), " сбрасывает");
        assert(self.players@ =~= old(self).players@.update(
            i as int,
            Player { folded: true, acted: true, ..old(self).players@[i as int] },
        ));
    }

    /// Seat `i` puts in up to `amount` more chips and has acted.
    fn pay_and_act(&mut self, i: usize, amount: u32)
        requires
            i < old(self).players@.len(),
            old(self).players@[i as int].street_bet <= old(self).players@[i as int].contributed,
            sum_stacks(old(self).players@) + old(self).pot <= u32::MAX,
            sum_stacks(old(self).players@) + sum_contributed(old(self).players@) <= u32::MAX,
        ensures
            final(self).players@ == old(self).players@.update(
                i as int,
                Player { acted: true, ..committed(old(self).players@[i as int], amount as int) },
            ),
            final(self).pot == old(self).pot + paid_in(old(self).players@[i as int], amount as int),
            final(self).same_but_seats(&*old(self)),
            final(self).current_bet == old(self).current_bet,
            final(self).min_raise == old(self).min_raise,
            final(self).message == old(self).message,
            sum_stacks(final(self).players@) + final(self).pot == sum_stacks(old(self).players@)
                + old(self).pot,
            sum_stacks(final(self).players@) + sum_contributed(final(self).players@) == sum_stacks(
                old(self).players@,
            ) + sum_contributed(old(self).players@),
            count_live(final(self).players@) == count_live(old(self).players@),
    {
        proof {
            lemma_seat_le_sums(self.players@, i as int);
            lemma_sums_nonneg(self.players@);
            lemma_stack_le_sum(self.players@, i as int);
        }
        self.commit(i, amount);
        let ghost paid_ps = self.players@;
        self.players[i].acted = true;
        proof {
            lemma_sums_same(paid_ps, self.players@);
        }
        assert(self.players@ =~= old(self).players@.update(
            i as int,
            Player { acted: true, ..committed(old(self).players@[i as int], amount as int) },
        ));
    }

    /// Seat `i` raises the bet to `target`; every other seat that can still
    /// bet owes an action again.
    fn raise_to(&mut self, i: usize, target: u32)
        requires
            i < old(self).players@.len(),
            old(self).current_bet < target,
            old(self).players@[i as int].street_bet <= old(self).current_bet,
            old(self).players@[i as int].street_bet <= old(self).players@[i as int].contributed,
            target <= old(self).players@[i as int].street_bet + old(self).players@[i as int].stack,
            sum_stacks(old(self).players@) + old(self).pot <= u32::MAX,
            sum_stacks(old(self).players@) + sum_contributed(old(self).players@) <= u32::MAX,
        ensures
            final(self).players@.len() == old(self).players@.len(),
            forall|j: int|
                0 <= j < old(self).players@.len() ==> #[trigger] final(self).players@[j] == (if j
                    == i {
                    Player {
                        acted: true,
                        ..committed(
                            old(self).players@[i as int],
                            target - old(self).players@[i as int].street_bet,
                        )
                    }
                } else {
                    reopened(old(self).players@[j])
                }),
            final(self).pot == old(self).pot + (target - old(self).players@[i as int].street_bet),
            final(self).current_bet == target,
            final(self).min_raise == target - old(self).current_bet,
            final(self).message@ == old(self).players@[i as int].name@ + " повышает до "@ + decimal(
                target as nat,
            ),
            final(self).same_but_seats(&*old(self)),
            sum_stacks(final(self).players@) + final(self).pot == sum_stacks(old(self).players@)
                + old(self).pot,
            sum_stacks(final(self).players@) + sum_contributed(final(self).players@) == sum_stacks(
                old(self).players@,
            ) + sum_contributed(old(self).players@),
            count_live(final(self).players@) == count_live(old(self).players@),
    {
        let ghost ps = self.players@;
        proof {
            lemma_seat_le_sums(ps, i as int);
            lemma_sums_nonneg(ps);
            lemma_stack_le_sum(ps, i as int);
        }
        let raise_size = target - self.current_bet;
        let add = target - self.players[i].street_bet;
        self.commit(i, add);
        let ghost paid_ps = self.players@;
        self.current_bet = target;
        self.min_raise = raise_size;
        self.reopen_betting(i);
        self.players[i].acted = true;
        self.message = join2(self.players[i].name.as_str(), " повышает до ").concat(
            decimal_text(target).as_str(),
        );
        proof {
            assert forall|j: int| 0 <= j < ps.len() implies #[trigger] self.players@[j] == (if j
                == i {
                Player { acted: true, ..committed(ps[i as int], target - ps[i as int].street_bet) }
            } else {
                reopened(ps[j])
            }) by {
                if j != i {
                    assert(paid_ps[j] == ps[j]);
                }
            }
            lemma_sums_same(paid_ps, self.players@);
        }
    }

    /// The current seat takes `action` (the payouts of the last hand are
    /// cleared first); the game does not move on yet.
    #[verifier::spinoff_prover]
    fn take_action(&mut self, action: Action)
        requires
            old(self).well_formed(),
            old(self).may_act(old(self).current as int),
            action matches Action::Raise(_) ==> old(self).current_bet + old(self).min_raise
                <= u32::MAX,
        ensures
            final(self).action_taken(&*old(self), action),
            final(self).seats_ok(),
            count_live(final(self).players@) >= 1,
            final(self).street != Street::Showdown,
            final(self).pot == sum_contributed(final(self).players@),
            final(self).chips() == old(self).chips(),
    {
        let ghost before = *self;
        let ghost ps = self.players@;
        self.clear_payouts();
        let i = self.current;
        proof {
            lemma_seat_le_sums(ps, i as int);
            assert(ps[i as int].street_bet <= ps[i as int].contributed);
        }
        match action {
            Action::Fold => {
                self.fold_seat(i);
            },
            Action::CheckCall => {
                let call = self.to_call(i);
                self.pay_and_act(i, call);
                self.message = if call == 0 {
                    join2(self.players[i].name.as_str(), " — чек")
                } else {
                    join2(self.players[i].name.as_str(), " уравнивает ").concat(
                        decimal_text(call).as_str(),
                    )
                };
            },
            Action::Raise(requested) => {
                let max_total = self.players[i].street_bet + self.players[i].stack;
                let floor = self.current_bet + self.min_raise;
                let wanted = if requested >= floor {
                    requested
                } else {
                    floor
                };
                let target = if wanted <= max_total {
                    wanted
                } else {
                    max_total
                };
                if target <= self.current_bet {
                    let call = self.to_call(i);
                    self.pay_and_act(i, call);
                } else {
                    self.raise_to(i, target);
                }
            },
        }
        proof {
            let qs = self.players@;
            assert forall|j: int| 0 <= j < qs.len() implies all_valid(#[trigger] qs[j].hole@) by {
                assert(all_valid(ps[j].hole@));
                assert(qs[j].hole == ps[j].hole);
            }
            assert forall|j: int| 0 <= j < qs.len() implies #[trigger] qs[j].street_bet
                <= qs[j].contributed && qs[j].street_bet <= self.current_bet by {
                assert(ps[j].street_bet <= ps[j].contributed && ps[j].street_bet <= before.current_bet);
                if j == i as int {
                    assert(ps[j].street_bet <= ps[j].contributed);
                }
            }
            assert forall|j: int| 0 <= j < qs.len() implies #[trigger] self.last_payouts@[j]
                <= qs[j].stack by {
                assert(self.last_payouts@[j] == 0);
            }
            assert forall|j: int| 0 <= j < qs.len() implies #[trigger] qs[j].hole@ == ps[j].hole@ by {
                assert(qs[j].hole == ps[j].hole);
            }
            lemma_hole_cards_same(ps, qs);
            assert(cards_in_play(self) == cards_in_play(&before));
        }
    }

    /// The current seat takes `action`, and the game moves on. A seat that
    /// cannot act (folded, all-in, out, or after the showdown) changes
    /// nothing.
    pub fn act(&mut self, action: Action)
        requires
            old(self).well_formed(),
            (old(self).may_act(old(self).current as int) && action is Raise) ==> old(self).current_bet + old(self).min_raise <= u32::MAX,
        ensures
            final(self).played(&*old(self), action),
            final(self).well_formed(),
            final(self).chips() <= old(self).chips(),
    {
        if !self.can_act(self.current) {
            return;
        }
        self.take_action(action);
        let ghost mid = *self;
        self.advance();
        assert(mid.action_taken(&*old(self), action) && self.advanced(&mid) && (
        mid.fully_contested() ==> self.chips() == old(self).chips()) && (
        !self.side_pot_unclaimed(&mid) ==> self.chips() == old(self).chips()));
    }
}

/// Counting `k` seats on from `from` wraps round the table.
proof fn lemma_seat_wraps(n: int, from: int, k: int)
    requires
        0 <= from < n,
        1 <= k <= n,
    ensures
        (from + k) % n == seat_after(n, from, k),
        0 <= seat_after(n, from, k) < n,
{
    if from + k < n {
        vstd::arithmetic::div_mod::lemma_small_mod((from + k) as nat, n as nat);
    } else {
        vstd::arithmetic::div_mod::lemma_small_mod((from + k - n) as nat, n as nat);
        vstd::arithmetic::div_mod::lemma_mod_add_multiples_vanish(from + k - n, n);
    }
}

/// The search for a seat owing an action, started `k` places after `from`,
/// finds the first such seat, no later than seat `t` places on.
proof fn lemma_next_owing_first(ps: Seq<Player>, from: int, bet: u32, k: int, t: int)
    requires
        0 <= from < ps.len(),
        1 <= k <= t <= ps.len(),
        owes_action(ps[seat_after(ps.len() as int, from, t)], bet),
    ensures
        next_owing_from(ps, from, bet, k) matches Some(x) && exists|o: int|
            #![trigger seat_after(ps.len() as int, from, o)]
            k <= o <= t && x == seat_after(ps.len() as int, from, o) && owes_action(ps[x], bet)
                && forall|m: int|
                k <= m < o ==> !owes_action(
                    ps[#[trigger] seat_after(ps.len() as int, from, m)],
                    bet,
                ),
    decreases ps.len() + 1 - k,
{
    let n = ps.len() as int;
    lemma_seat_wraps(n, from, k);
    if !owes_action(ps[seat_after(n, from, k)], bet) {
        lemma_next_owing_first(ps, from, bet, k + 1, t);
        let x = next_owing_from(ps, from, bet, k + 1)->0;
        let o = choose|o: int|
            #![trigger seat_after(n, from, o)]
            k + 1 <= o <= t && x == seat_after(n, from, o) && owes_action(ps[x], bet) && forall|
                m: int,
            |
                k + 1 <= m < o ==> !owes_action(ps[#[trigger] seat_after(n, from, m)], bet);
        assert forall|m: int| k <= m < o implies !owes_action(
            ps[#[trigger] seat_after(n, from, m)],
            bet,
        ) by {
            if m > k {
                assert(k + 1 <= m < o);
            }
        }
    } else {
        assert forall|m: int| k <= m < k implies !owes_action(
            ps[#[trigger] seat_after(n, from, m)],
            bet,
        ) by {}
        assert(seat_after(n, from, k) == seat_after(n, from, k));
    }
}

/// The search for a seat that can still bet, started `k` places after
/// `from`, finds the first such seat, no later than seat `t` places on.
proof fn lemma_next_ready_first(ps: Seq<Player>, from: int, k: int, t: int)
    requires
        0 <= from < ps.len(),
        1 <= k <= t <= ps.len(),
        can_bet(ps[seat_after(ps.len() as int, from, t)]),
    ensures
        next_ready_from(ps, from, k) matches Some(x) && exists|o: int|
            #![trigger seat_after(ps.len() as int, from, o)]
            k <= o <= t && x == seat_after(ps.len() as int, from, o) && can_bet(ps[x])
                && forall|m: int|
                k <= m < o ==> !can_bet(ps[#[trigger] seat_after(ps.len() as int, from, m)]),
    decreases ps.len() + 1 - k,
{
    let n = ps.len() as int;
    lemma_seat_wraps(n, from, k);
    if !can_bet(ps[seat_after(n, from, k)]) {
        lemma_next_ready_first(ps, from, k + 1, t);
        let x = next_ready_from(ps, from, k + 1)->0;
        let o = choose|o: int|
            #![trigger seat_after(n, from, o)]
            k + 1 <= o <= t && x == seat_after(n, from, o) && can_bet(ps[x]) && forall|m: int|
                k + 1 <= m < o ==> !can_bet(ps[#[trigger] seat_after(n, from, m)]);
        assert forall|m: int| k <= m < o implies !can_bet(
            ps[#[trigger] seat_after(n, from, m)],
        ) by {
            if m > k {
                assert(k + 1 <= m < o);
            }
        }
    } else {
        assert(seat_after(n, from, k) == seat_after(n, from, k));
    }
}

/// While someone still owes an action, the turn passes round the table to
/// the first seat after the current one that can still bet and has not yet
/// acted or not yet matched the bet; the seats, the pot, the bets, the
/// street and the board stay as they were.
pub proof fn lemma_turn_passes_round_the_table(after: Game, before: Game)
    requires
        after.advanced(&before),
        before.current < before.players@.len(),
        before.street != Street::Showdown,
        count_live(before.players@) >= 2,
        exists|i: int|
            0 <= i < before.players@.len() && #[trigger] owes_action(
                before.players@[i],
                before.current_bet,
            ),
    ensures
        exists|o: int|
            #![trigger seat_after(before.players@.len() as int, before.current as int, o)]
            {
                let n = before.players@.len() as int;
                let c = before.current as int;
                &&& 1 <= o <= n
                &&& after.current == seat_after(n, c, o)
                &&& seat_after(n, c, o) == (c + o) % n
                &&& owes_action(before.players@[after.current as int], before.current_bet)
                &&& forall|m: int|
                    1 <= m < o ==> !owes_action(
                        before.players@[#[trigger] seat_after(n, c, m)],
                        before.current_bet,
                    )
            },
        after.players == before.players,
        after.pot == before.pot,
        after.current_bet == before.current_bet,
        after.min_raise == before.min_raise,
        after.street == before.street,
        after.community == before.community,
        after.deck == before.deck,
{
    let ps = before.players@;
    let n = ps.len() as int;
    let c = before.current as int;
    let bet = before.current_bet;
    let i = choose|i: int| 0 <= i < n && #[trigger] owes_action(ps[i], bet);
    lemma_offset_in_range(n, c, i);
    let t = offset_of(n, c, i);
    lemma_next_owing_first(ps, c, bet, 1, t);
    assert(!betting_done(ps, bet)) by {
        assert(!ps[i].folded && !ps[i].all_in);
    }
    let x = next_owing_from(ps, c, bet, 1)->0;
    assert(before.due_seat() == Some(x));
    let o = choose|o: int|
        #![trigger seat_after(n, c, o)]
        1 <= o <= t && x == seat_after(n, c, o) && owes_action(ps[x], bet) && forall|m: int|
            1 <= m < o ==> !owes_action(ps[#[trigger] seat_after(n, c, m)], bet);
    lemma_seat_wraps(n, c, o);
}

/// Board and deck once the board is run out from street `s`: five cards on
/// the board, the cards already there still first.
proof fn lemma_run_out_board(s: Street, board: Seq<Card>, deck: Seq<Card>)
    requires
        s != Street::Showdown,
        street_cards(s, board.len(), deck.len()),
    ensures
        run_out(s, board, deck).0.len() == 5,
        run_out(s, board, deck).0.take(board.len() as int) == board,
    decreases rounds_left(s),
{
    if rounds_left(s) > 0 {
        let b2 = turned_up(s, board, deck);
        let d2 = deck_after(s, deck);
        lemma_run_out_board(following(s), b2, d2);
        let run = run_out(s, board, deck).0;
        assert(b2.take(board.len() as int) =~= board);
        assert(run.take(board.len() as int) =~= run.take(b2.len() as int).take(board.len() as int));
    } else {
        assert(board.take(board.len() as int) =~= board);
    }
}

impl Game {
    /// The next betting round opened from `before`: the flop turns up three
    /// cards and the turn and river one each, the board so far staying
    /// first; every bet is cleared, only seats that folded or are all-in
    /// count as having acted, the stacks and the pot are untouched, and the
    /// first seat after the button that can bet is to act.
    pub open spec fn next_round_opened(&self, before: &Game) -> bool {
        let ps = before.players@;
        let n = ps.len() as int;
        let d = before.dealer as int;
        &&& self.street == following(before.street)
        &&& self.community@.len() == before.community@.len() + (if before.street
            == Street::Preflop {
            3int
        } else {
            1int
        })
        &&& self.community@.take(before.community@.len() as int) == before.community@
        &&& self.players@.len() == ps.len()
        &&& forall|j: int|
            0 <= j < ps.len() ==> {
                &&& (#[trigger] self.players@[j]).street_bet == 0
                &&& self.players@[j].acted == (ps[j].folded || ps[j].all_in)
                &&& self.players@[j].stack == ps[j].stack
                &&& self.players@[j].contributed == ps[j].contributed
                &&& self.players@[j].folded == ps[j].folded
            }
        &&& self.pot == before.pot
        &&& self.current_bet == 0
        &&& self.min_raise == before.big_blind
        &&& (exists|i: int| 0 <= i < ps.len() && #[trigger] can_bet(ps[i])) ==> exists|o: int|
            #![trigger seat_after(n, d, o)]
            {
                &&& 1 <= o <= n
                &&& self.current == seat_after(n, d, o)
                &&& seat_after(n, d, o) == (d + o) % n
                &&& can_bet(ps[self.current as int])
                &&& forall|m: int| 1 <= m < o ==> !can_bet(ps[#[trigger] seat_after(n, d, m)])
            }
    }

    /// The board was run out from `before` to five cards, the cards already
    /// there staying first, and the showdown turned the cards over and paid
    /// out the whole pot.
    pub open spec fn board_ran_out(&self, before: &Game) -> bool {
        &&& self.community@.len() == 5
        &&& self.community@.take(before.community@.len() as int) == before.community@
        &&& self.street == Street::Showdown
        &&& self.reveal_all
        &&& self.pot == 0
    }
}

/// When a betting round before the river closes with two or more seats able
/// to bet, the next round opens: the flop turns up three cards and the turn
/// and river one each, the board so far staying first; every bet is
/// cleared, only seats that folded or are all-in count as having acted, the
/// stacks and the pot are untouched, and the first seat after the button
/// that can bet is to act.
pub proof fn lemma_next_round_opens(after: Game, before: Game)
    requires
        after.street_closed(&before),
        before.seats_ok(),
        before.street == Street::Preflop || before.street == Street::Flop || before.street
            == Street::Turn,
        count_ready(before.players@) >= 2,
    ensures
        after.next_round_opened(&before),
{
    let ps = before.players@;
    let n = ps.len() as int;
    let d = before.dealer as int;
    let board = before.community@;
    let deck = before.deck@;
    assert(turned_up(before.street, board, deck).take(board.len() as int) =~= board);
    lemma_next_ready_cleared(ps, d, 1);
    if exists|i: int| 0 <= i < n && #[trigger] can_bet(ps[i]) {
        let i = choose|i: int| 0 <= i < n && #[trigger] can_bet(ps[i]);
        lemma_offset_in_range(n, d, i);
        let t = offset_of(n, d, i);
        lemma_next_ready_first(ps, d, 1, t);
        let x = next_ready_from(ps, d, 1)->0;
        let o = choose|o: int|
            #![trigger seat_after(n, d, o)]
            1 <= o <= t && x == seat_after(n, d, o) && can_bet(ps[x]) && forall|m: int|
                1 <= m < o ==> !can_bet(ps[#[trigger] seat_after(n, d, m)]);
        lemma_seat_wraps(n, d, o);
    }
}

/// When a betting round closes with at most one seat still able to bet (or
/// on the river), the board is dealt out to five cards, the cards already
/// there staying first, and the showdown turns the cards over and pays out
/// the whole pot.
pub proof fn lemma_board_runs_out(after: Game, before: Game)
    requires
        after.street_closed(&before),
        before.seats_ok(),
        before.street != Street::Showdown,
        before.street == Street::River || count_ready(before.players@) < 2,
    ensures
        after.board_ran_out(&before),
{
    lemma_run_out_board(before.street, before.community@, before.deck@);
}

} // verus!
