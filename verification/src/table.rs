use vstd::prelude::*;

use crate::bots::BotStyle;
use crate::cards::shuffle_in_place;
use crate::game::{
    deals_next_hand, lemma_seat_le_sums, lemma_sums_nonneg, street_cards,
    Action, Game, GameConfig, Street,
};

verus! {

/// The choices of the settings window: who sits at the table, the chips
/// and the blinds.
#[derive(Clone)]
pub struct TableSettings {
    pub hide_personalities: bool,
    pub randomize_bots: bool,
    pub bot_count: usize,
    pub selected: [BotStyle; 4],
    pub starting_stack: u32,
    pub small_blind: u32,
    pub tournament_mode: bool,
    pub hands_per_level: u32,
}

impl Default for TableSettings {
    fn default() -> (settings: Self)
        ensures
            settings.hide_personalities,
            settings.randomize_bots,
            settings.bot_count == 4,
            settings.selected@ == BotStyle::ALL@,
            settings.starting_stack == 1500,
            settings.small_blind == 10,
            !settings.tournament_mode,
            settings.hands_per_level == 5,
    {
        TableSettings {
            hide_personalities: true,
            randomize_bots: true,
            bot_count: 4,
            selected: BotStyle::ALL,
            starting_stack: 1500,
            small_blind: 10,
            tournament_mode: false,
            hands_per_level: 5,
        }
    }
}

impl TableSettings {
    /// Keeps the small blind between one chip and half the starting stack.
    pub fn fit_small_blind(&mut self)
        ensures
            final(self).small_blind == (if old(self).small_blind < 1 {
                1
            } else if old(self).small_blind > half_stack(old(self).starting_stack) {
                half_stack(old(self).starting_stack)
            } else {
                old(self).small_blind
            }),
            final(self).starting_stack == old(self).starting_stack,
            final(self).bot_count == old(self).bot_count,
            final(self).selected == old(self).selected,
            final(self).randomize_bots == old(self).randomize_bots,
            final(self).hide_personalities == old(self).hide_personalities,
            final(self).tournament_mode == old(self).tournament_mode,
            final(self).hands_per_level == old(self).hands_per_level,
    {
        let most = if self.starting_stack / 2 > 1 {
            self.starting_stack / 2
        } else {
            1
        };
        if self.small_blind < 1 {
            self.small_blind = 1;
        } else if self.small_blind > most {
            self.small_blind = most;
        }
    }
}

/// Half the starting stack, and at least one chip.
pub open spec fn half_stack(stack: u32) -> u32 {
    if stack / 2 > 1 { stack / 2 } else { 1 }
}

/// How chips move across the table.
#[derive(Clone, Copy, Debug, PartialEq, Eq, Structural)]
pub enum ChipMotionKind {
    /// From a stack to its bet spot.
    Bet,
    /// From a bet spot into the pot.
    Gather,
    /// From the pot to a winner's stack.
    Award,
}

/// Chips in flight, on the table clock (milliseconds).
#[derive(Clone, Copy, Debug, PartialEq, Eq, Structural)]
pub struct ChipMotion {
    pub player: usize,
    pub amount: u32,
    pub started: u64,
    pub duration: u64,
    pub kind: ChipMotionKind,
}

/// A board card being turned over, on the table clock (milliseconds).
#[derive(Clone, Copy, Debug, PartialEq, Eq, Structural)]
pub struct CommunityReveal {
    pub index: usize,
    pub started: u64,
    pub duration: u64,
}

/// The state of the table screen: the game, the raise controls, the
/// settings and the chips and cards still moving. Times are milliseconds on
/// a clock of the caller's choosing.
pub struct PokerApp {
    pub game: Game,
    pub raise_to: u32,
    pub raise_cap: u32,
    pub raise_window_open: bool,
    pub raise_all_in_limit: bool,
    pub bot_due: u64,
    pub settings: TableSettings,
    pub settings_open: bool,
    pub chip_motions: Vec<ChipMotion>,
    pub community_reveals: Vec<CommunityReveal>,
    pub analysis_open: bool,
}

impl PokerApp {
    /// The raise controls, the settings and the open windows agree with
    /// `other`.
    pub open spec fn same_controls(&self, other: &PokerApp) -> bool {
        &&& self.raise_to == other.raise_to
        &&& self.raise_cap == other.raise_cap
        &&& self.raise_window_open == other.raise_window_open
        &&& self.raise_all_in_limit == other.raise_all_in_limit
        &&& self.settings == other.settings
        &&& self.settings_open == other.settings_open
        &&& self.analysis_open == other.analysis_open
    }
}

/// The smaller of two counts.
pub open spec fn at_most(n: int, cap: int) -> int {
    if n <= cap { n } else { cap }
}

/// The styles of the bots for a new game: as selected, or a shuffle of all
/// styles, keeping the first `bot_count`.
pub open spec fn styles_for(settings: TableSettings, styles: Seq<BotStyle>) -> bool {
    let n = at_most(settings.bot_count as int, 4);
    if settings.randomize_bots {
        exists|order: Seq<BotStyle>|
            #![trigger order.to_multiset()]
            order.len() == 4 && order.to_multiset() == BotStyle::ALL@.to_multiset() && styles
                == order.take(n)
    } else {
        styles == settings.selected@.take(n)
    }
}

/// Where the raise slider lands for `value`, between `minimum` and
/// `maximum` on steps of `step` (at least one) counted from `minimum`; within
/// half a step of the top it goes to `maximum`.
pub open spec fn snapped(value: u32, minimum: u32, maximum: u32, step: u32) -> int {
    if minimum >= maximum {
        maximum as int
    } else {
        let v = if value < minimum {
            minimum as int
        } else if value > maximum {
            maximum as int
        } else {
            value as int
        };
        let s = if step == 0 { 1int } else { step as int };
        let on_step = minimum + (v - minimum + s / 2) / s * s;
        let landed = if on_step > u32::MAX { u32::MAX as int } else { on_step };
        let below_top = if landed <= maximum { landed } else { maximum as int };
        if maximum - below_top < s / 2 + s % 2 {
            maximum as int
        } else if landed > maximum {
            maximum as int
        } else {
            landed
        }
    }
}

/// The chip denominations, largest first.
pub open spec fn denominations() -> Seq<u32> {
    seq![500u32, 100, 25, 5, 1]
}

/// `amount` in chips, largest denominations first, from the `k`-th
/// denomination on: each denomination used with how many chips of it.
pub open spec fn breakdown_from(amount: nat, k: int) -> Seq<(u32, usize)>
    decreases 5 - k,
{
    if k < 0 || k >= 5 {
        seq![]
    } else {
        let d = denominations()[k] as nat;
        let count = amount / d;
        if count > 0 {
            seq![(d as u32, count as usize)] + breakdown_from(amount % d, k + 1)
        } else {
            breakdown_from(amount, k + 1)
        }
    }
}

/// The value of chips given as denominations and counts.
pub open spec fn chips_value(piles: Seq<(u32, usize)>) -> int
    decreases piles.len(),
{
    if piles.len() == 0 {
        0
    } else {
        piles[0].0 * piles[0].1 + chips_value(piles.drop_first())
    }
}

proof fn lemma_breakdown_value(amount: nat, k: int)
    requires
        0 <= k <= 5,
        amount <= u32::MAX,
        k == 5 ==> amount == 0,
        k >= 1 ==> amount < denominations()[k - 1],
    ensures
        chips_value(breakdown_from(amount, k)) == amount,
    decreases 5 - k,
{
    if k < 5 {
        let d = denominations()[k] as nat;
        let count = amount / d;
        assert(amount == count * d + amount % d) by (nonlinear_arith)
            requires
                d > 0,
                count == amount / d,
        ;
        assert(amount % d < d) by (nonlinear_arith)
            requires
                d > 0,
        ;
        if k == 4 {
            assert(amount % d == 0);
        }
        if count > 0 {
            lemma_breakdown_value(amount % d, k + 1);
            let piles = seq![(d as u32, count as usize)] + breakdown_from(amount % d, k + 1);
            assert(piles.drop_first() =~= breakdown_from(amount % d, k + 1));
            assert(count <= amount) by (nonlinear_arith)
                requires
                    count == amount / d,
                    d >= 1,
            ;
            assert(count < 0xffff_ffff);
            assert(piles[0] == (d as u32, count as usize));
            assert((d as u32) as int == d);
            assert((count as usize) as int == count);
            assert(chips_value(piles) == d * count + chips_value(piles.drop_first()));
            assert(breakdown_from(amount, k) == piles);
            assert(d * count + amount % d == amount) by (nonlinear_arith)
                requires
                    amount == count * d + amount % d,
            ;
        } else {
            assert(amount < d) by (nonlinear_arith)
                requires
                    count == amount / d,
                    count == 0,
                    d > 0,
            ;
            vstd::arithmetic::div_mod::lemma_small_mod(amount, d);
            lemma_breakdown_value(amount, k + 1);
            assert(breakdown_from(amount, k) == breakdown_from(amount, k + 1));
        }
    }
}

/// One motion of chips starting at `started`.
pub open spec fn motion_of(
    player: int,
    amount: u32,
    started: int,
    duration: u64,
    kind: ChipMotionKind,
) -> ChipMotion {
    ChipMotion {
        player: player as usize,
        amount,
        started: started as u64,
        duration,
        kind,
    }
}

/// The chips of each non-empty bet spot gathered into the pot from `start`.
pub open spec fn gathers(bets: Seq<u32>, start: int) -> Seq<ChipMotion>
    decreases bets.len(),
{
    if bets.len() == 0 {
        seq![]
    } else {
        let rest = gathers(bets.drop_last(), start);
        if bets.last() > 0 {
            rest.push(
                motion_of(bets.len() - 1, bets.last(), start, 780, ChipMotionKind::Gather),
            )
        } else {
            rest
        }
    }
}

/// Each payout carried from the pot to its winner from `start`.
pub open spec fn awards(payouts: Seq<u32>, start: int) -> Seq<ChipMotion>
    decreases payouts.len(),
{
    if payouts.len() == 0 {
        seq![]
    } else {
        let rest = awards(payouts.drop_last(), start);
        if payouts.last() > 0 {
            rest.push(
                motion_of(payouts.len() - 1, payouts.last(), start, 980, ChipMotionKind::Award),
            )
        } else {
            rest
        }
    }
}

/// The board cards from `from` up to `to` turned over one after another,
/// the first at `start`.
pub open spec fn reveals_between(from: int, to: int, start: int) -> Seq<CommunityReveal> {
    if to <= from {
        seq![]
    } else {
        Seq::new(
            (to - from) as nat,
            |k: int|
                CommunityReveal {
                    index: (from + k) as usize,
                    started: (start + 180 * k) as u64,
                    duration: 500,
                },
        )
    }
}

/// What the table shows after the current seat of `before` played and the
/// game became `after`, at time `now`: the seat's chips to its bet spot, the
/// bets into the pot when the street changed, new board cards turned over
/// one by one, then the payouts to the winners.
pub open spec fn staged_motions(before: Game, after: Game, now: int) -> Seq<ChipMotion> {
    let i = before.current as int;
    let paid = if before.players@[i].stack > after.players@[i].stack {
        before.players@[i].stack - after.players@[i].stack
    } else {
        0
    };
    let gather_at = now + if paid > 0 { 760int } else { 250int };
    let bets = Seq::new(before.players@.len(), |j: int| before.players@[j].street_bet);
    let new_cards = if after.community@.len() > before.community@.len() {
        after.community@.len() - before.community@.len()
    } else {
        0
    };
    let award_at = gather_at + 820 + if new_cards > 0 {
        500 + (new_cards - 1) * 180
    } else {
        0
    };
    (if paid > 0 {
        seq![motion_of(i, paid as u32, now, 720, ChipMotionKind::Bet)]
    } else {
        seq![]
    }) + (if before.street != after.street {
        gathers(bets.update(i, (bets[i] + paid) as u32), gather_at)
    } else {
        seq![]
    }) + awards(after.last_payouts@, award_at)
}

/// The board cards turned over after the current seat of `before` played.
pub open spec fn staged_reveals(before: Game, after: Game, now: int) -> Seq<CommunityReveal> {
    let i = before.current as int;
    let paid = before.players@[i].stack > after.players@[i].stack;
    let reveal_at = now + (if paid { 760int } else { 250int }) + 820;
    reveals_between(before.community@.len() as int, after.community@.len() as int, reveal_at)
}

/// Latest time on the table clock that leaves room for every delay.
pub open spec fn clock_room(now: u64) -> bool {
    now + 10_000 <= u64::MAX
}

impl PokerApp {
    /// The rules of a new game taken from the settings.
    pub fn game_config(settings: &TableSettings) -> (config: GameConfig)
        ensures
            config.starting_stack == settings.starting_stack,
            config.small_blind == settings.small_blind,
            config.tournament_mode == settings.tournament_mode,
            config.hands_per_level == settings.hands_per_level,
    {
        GameConfig {
            starting_stack: settings.starting_stack,
            small_blind: settings.small_blind,
            tournament_mode: settings.tournament_mode,
            hands_per_level: settings.hands_per_level,
        }
    }

    /// The styles of the bots of a new game: the selected ones, or all styles
    /// in a random order when the table is to be a surprise; as many as
    /// `bot_count` asks for.
    pub fn resolved_styles(settings: &TableSettings) -> (styles: Vec<BotStyle>)
        ensures
            styles_for(*settings, styles@),
            styles@.len() == at_most(settings.bot_count as int, 4),
    {
        let mut styles: Vec<BotStyle> = Vec::new();
        if settings.randomize_bots {
            let all = BotStyle::ALL;
            let mut k: usize = 0;
            while k < 4
                invariant
                    k <= 4,
                    all@ == BotStyle::ALL@,
                    styles@ == all@.take(k as int),
                decreases 4 - k,
            {
                styles.push(all[k]);
                assert(styles@ =~= all@.take(k + 1));
                k = k + 1;
            }
            assert(styles@ =~= BotStyle::ALL@);
            let ghost before = styles@;
            shuffle_in_place(&mut styles);
            let ghost order = styles@;
            styles.truncate(settings.bot_count);
            proof {
                let n = at_most(settings.bot_count as int, 4);
                assert(styles@ =~= order.take(n));
                assert(order.len() == 4 && order.to_multiset() == BotStyle::ALL@.to_multiset());
            }
        } else {
            let mut k: usize = 0;
            while k < 4
                invariant
                    k <= 4,
                    styles@ == settings.selected@.take(k as int),
                decreases 4 - k,
            {
                styles.push(settings.selected[k]);
                assert(styles@ =~= settings.selected@.take(k + 1));
                k = k + 1;
            }
            let ghost all_selected = styles@;
            styles.truncate(settings.bot_count);
            assert(styles@ =~= settings.selected@.take(at_most(settings.bot_count as int, 4)));
        }
        styles
    }

    /// Puts a raise chosen on the slider onto the step grid.
    pub fn snap_raise(value: u32, minimum: u32, maximum: u32, step: u32) -> (raise: u32)
        requires
            minimum < maximum ==> (if value < minimum {
                minimum as int
            } else if value > maximum {
                maximum as int
            } else {
                value as int
            }) - minimum + (if step == 0 { 1int } else { step as int }) / 2 <= u32::MAX,
        ensures
            raise == snapped(value, minimum, maximum, step),
            minimum < maximum ==> minimum <= raise <= maximum,
            minimum >= maximum ==> raise == maximum,
            raise == maximum || (raise - minimum) % (if step == 0 { 1int } else { step as int })
                == 0,
    {
        if minimum >= maximum {
            return maximum;
        }
        let value = if value < minimum {
            minimum
        } else if value > maximum {
            maximum
        } else {
            value
        };
        let step = if step == 0 {
            1
        } else {
            step
        };
        let offset = value - minimum;
        let rounded = (offset + step / 2) / step;
        proof {
            let total: int = offset + step / 2;
            assert(rounded * step <= total) by (nonlinear_arith)
                requires
                    rounded as int == total / (step as int),
                    step > 0,
                    total >= 0,
            ;
        }
        let snapped_value = minimum.saturating_add(rounded * step);
        let below_top = if snapped_value <= maximum {
            snapped_value
        } else {
            maximum
        };
        if maximum - below_top < step / 2 + step % 2 {
            maximum
        } else if snapped_value > maximum {
            maximum
        } else {
            proof {
                vstd::arithmetic::div_mod::lemma_mod_multiples_basic(rounded as int, step as int);
            }
            snapped_value
        }
    }

    /// Splits `amount` into chips: 500, 100, 25, 5 and 1, largest first; each
    /// denomination used is listed with its number of chips.
    pub fn chip_breakdown(amount: u32) -> (piles: Vec<(u32, usize)>)
        ensures
            piles@ == breakdown_from(amount as nat, 0),
            chips_value(piles@) == amount,
    {
        let denominations_list: [u32; 5] = [500, 100, 25, 5, 1];
        let mut rest = amount;
        let mut piles: Vec<(u32, usize)> = Vec::new();
        let mut k: usize = 0;
        while k < 5
            invariant
                k <= 5,
                denominations_list@ == denominations(),
                piles@ + breakdown_from(rest as nat, k as int) == breakdown_from(amount as nat, 0),
                k >= 1 ==> rest < denominations()[k - 1],
            decreases 5 - k,
        {
            let denomination = denominations_list[k];
            let count = rest / denomination;
            let ghost before = piles@;
            if count > 0 {
                piles.push((denomination, count as usize));
                assert(piles@ + breakdown_from((rest % denomination) as nat, k + 1) =~= before
                    + breakdown_from(rest as nat, k as int));
                assert(rest % denomination < denomination) by (nonlinear_arith)
                    requires
                        denomination > 0,
                ;
                rest = rest % denomination;
            } else {
                assert(rest < denomination) by (nonlinear_arith)
                    requires
                        denomination > 0,
                        rest / denomination == 0,
                ;
            }
            k = k + 1;
        }
        assert(breakdown_from(rest as nat, 5) =~= Seq::<(u32, usize)>::empty());
        assert(piles@ =~= breakdown_from(amount as nat, 0));
        proof {
            lemma_breakdown_value(amount as nat, 0);
        }
        piles
    }

    /// A new table with the default settings, the first hand dealt; the
    /// first bot acts no sooner than 650 ms after `now`.
    pub fn new(now: u64) -> (app: Self)
        requires
            clock_room(now),
        ensures
            app.game.well_formed(),
            app.raise_to == 2 * app.game.big_blind,
            app.raise_cap == 1000,
            !app.raise_window_open,
            !app.raise_all_in_limit,
            app.bot_due == now + 650,
            !app.settings_open,
            app.chip_motions@.len() == 0,
            app.community_reveals@.len() == 0,
            !app.analysis_open,
            app.settings.hide_personalities,
            app.settings.randomize_bots,
            app.settings.bot_count == 4,
            app.settings.selected@ == BotStyle::ALL@,
            app.settings.starting_stack == 1500,
            app.settings.small_blind == 10,
            !app.settings.tournament_mode,
            app.settings.hands_per_level == 5,
            app.game.players@.len() == 5,
            exists|styles: Seq<BotStyle>|
                styles_for(app.settings, styles) && #[trigger] app.game.started_from(
                    styles,
                    game_config_of(app.settings),
                ),
    {
        let settings = TableSettings::default();
        let styles = Self::resolved_styles(&settings);
        let game = Game::with_bots(styles.as_slice(), Self::game_config(&settings));
        assert(game.started_from(styles@, game_config_of(settings)));
        let raise_to = game.big_blind * 2;
        PokerApp {
            game,
            raise_to,
            raise_cap: 1000,
            raise_window_open: false,
            raise_all_in_limit: false,
            bot_due: now + 650,
            settings,
            settings_open: false,
            chip_motions: Vec::new(),
            community_reveals: Vec::new(),
            analysis_open: false,
        }
    }

    /// Starts a new game from the settings, clearing the table.
    pub fn new_game(&mut self, now: u64)
        requires
            clock_room(now),
            old(self).settings.bot_count >= 1,
            old(self).settings.starting_stack * (at_most(old(self).settings.bot_count as int, 4)
                + 1) <= u32::MAX,
            4 * old(self).settings.small_blind <= u32::MAX,
        ensures
            final(self).game.well_formed(),
            final(self).game.config == game_config_of(old(self).settings),
            final(self).game.config.starting_stack == old(self).settings.starting_stack,
            final(self).game.config.small_blind == old(self).settings.small_blind,
            final(self).game.config.tournament_mode == old(self).settings.tournament_mode,
            final(self).game.config.hands_per_level == old(self).settings.hands_per_level,
            final(self).game.players@.len() == at_most(old(self).settings.bot_count as int, 4)
                + 1,
            final(self).raise_to == 2 * final(self).game.big_blind,
            final(self).raise_cap == at_most(old(self).settings.starting_stack as int, 1000),
            !final(self).raise_window_open,
            !final(self).raise_all_in_limit,
            final(self).chip_motions@.len() == 0,
            final(self).community_reveals@.len() == 0,
            !final(self).analysis_open,
            final(self).bot_due == now + 650,
            final(self).settings == old(self).settings,
            final(self).settings_open == old(self).settings_open,
            exists|styles: Seq<BotStyle>|
                styles_for(final(self).settings, styles) && #[trigger] final(self).game.started_from(
                    styles,
                    game_config_of(final(self).settings),
                ),
    {
        let styles = Self::resolved_styles(&self.settings);
        self.game = Game::with_bots(styles.as_slice(), Self::game_config(&self.settings));
        assert(self.game.started_from(styles@, game_config_of(self.settings)));
        self.raise_to = self.game.big_blind * 2;
        self.raise_cap = if self.settings.starting_stack < 1000 {
            self.settings.starting_stack
        } else {
            1000
        };
        self.raise_window_open = false;
        self.raise_all_in_limit = false;
        self.chip_motions.clear();
        self.community_reveals.clear();
        self.analysis_open = false;
        self.bot_due = now + 650;
        assert(styles_for(self.settings, styles@) && self.game.started_from(
            styles@,
            game_config_of(self.settings),
        ));
    }

    /// Deals the next hand and clears the table of moving chips; the first
    /// bot acts no sooner than 600 ms after `now`.
    pub fn next_hand(&mut self, now: u64)
        requires
            old(self).game.seats_ok(),
            deals_next_hand(old(self).game.players@) ==> old(self).game.hand_number < u32::MAX,
            clock_room(now),
        ensures
            final(self).game.well_formed(),
            final(self).game.players@.len() == old(self).game.players@.len(),
            final(self).game.game_over == !deals_next_hand(old(self).game.players@),
            final(self).game.last_payouts@ == Seq::new(old(self).game.players@.len(), |j: int| 0u32),
            final(self).game.game_over ==> final(self).game.hand_skipped(&old(self).game),
            !final(self).game.game_over ==> final(self).game.hand_dealt(&old(self).game),
            final(self).game.config == old(self).game.config,
            final(self).chip_motions@.len() == 0,
            final(self).community_reveals@.len() == 0,
            !final(self).analysis_open,
            final(self).bot_due == now + 600,
            final(self).settings == old(self).settings,
            final(self).settings_open == old(self).settings_open,
            final(self).raise_to == old(self).raise_to,
            final(self).raise_cap == old(self).raise_cap,
            final(self).raise_window_open == old(self).raise_window_open,
            final(self).raise_all_in_limit == old(self).raise_all_in_limit,
    {
        self.game.start_hand();
        self.chip_motions.clear();
        self.community_reveals.clear();
        self.analysis_open = false;
        self.bot_due = now + 600;
    }

    /// Whether a bot is to act at `now`: it is a bot's turn in a hand, the
    /// table is still, and the bot's delay has passed.
    pub fn bot_turn_due(&self, now: u64) -> (due: bool)
        requires
            self.game.players@.len() > 0,
        ensures
            due == (self.game.street != Street::Showdown && !(self.game.current == 0
                && self.game.may_act(0)) && self.chip_motions@.len() == 0
                && self.community_reveals@.len() == 0 && now >= self.bot_due),
    {
        self.game.street != Street::Showdown && !self.game.is_human_turn()
            && !self.table_animating() && now >= self.bot_due
    }

    /// The top of the raise slider: everything the human has when that limit
    /// is chosen, otherwise the raise cap kept between the bounds.
    pub fn raise_ceiling(&self, minimum: u32, all_in_total: u32) -> (upper: u32)
        requires
            minimum <= all_in_total,
        ensures
            upper == (if self.raise_all_in_limit {
                all_in_total
            } else if self.raise_cap < minimum {
                minimum
            } else if self.raise_cap > all_in_total {
                all_in_total
            } else {
                self.raise_cap
            }),
            minimum <= upper <= all_in_total,
    {
        if self.raise_all_in_limit {
            all_in_total
        } else if self.raise_cap < minimum {
            minimum
        } else if self.raise_cap > all_in_total {
            all_in_total
        } else {
            self.raise_cap
        }
    }

    /// Whether chips or cards are still moving.
    pub fn table_animating(&self) -> (moving: bool)
        ensures
            moving == (self.chip_motions@.len() > 0 || self.community_reveals@.len() > 0),
    {
        self.chip_motions.len() > 0 || self.community_reveals.len() > 0
    }

    /// The current seat plays `action` at time `now`; the moves that show it
    /// are queued: the seat's chips to its bet, the bets into the pot when
    /// the street changes, new board cards, then the payouts. The next bot
    /// acts no sooner than 700 ms later.
    #[verifier::rlimit(60)]
    #[verifier::spinoff_prover]
    pub fn perform_action(&mut self, action: Action, now: u64)
        requires
            old(self).game.well_formed(),
            (old(self).game.may_act(old(self).game.current as int) && action is Raise) ==> old(self).game.current_bet + old(self).game.min_raise <= u32::MAX,
            clock_room(now),
        ensures
            final(self).game.played(&old(self).game, action),
            final(self).game.well_formed(),
            final(self).chip_motions@ == old(self).chip_motions@ + staged_motions(
                old(self).game,
                final(self).game,
                now as int,
            ),
            final(self).community_reveals@ == old(self).community_reveals@ + staged_reveals(
                old(self).game,
                final(self).game,
                now as int,
            ),
            final(self).bot_due == now + 700,
            !final(self).raise_window_open,
            final(self).raise_to == old(self).raise_to,
            final(self).raise_cap == old(self).raise_cap,
            final(self).raise_all_in_limit == old(self).raise_all_in_limit,
            final(self).settings == old(self).settings,
            final(self).settings_open == old(self).settings_open,
            final(self).analysis_open == old(self).analysis_open,
    {
        self.raise_window_open = false;
        let ghost before = self.game;
        let player = self.game.current;
        let old_stack = self.game.players[player].stack;
        let mut old_bets = street_bets(&self.game);
        let old_street = self.game.street;
        let old_community_len = self.game.community.len();
        proof {
            lemma_seat_le_sums(before.players@, player as int);
            lemma_sums_nonneg(before.players@);
        }
        self.game.act(action);
        let ghost after = self.game;
        let paid = old_stack.saturating_sub(self.game.players[player].stack);
        if paid > 0 {
            self.chip_motions.push(ChipMotion {
                player,
                amount: paid,
                started: now,
                duration: 720,
                kind: ChipMotionKind::Bet,
            });
        }
        let gather_delay: u64 = if paid > 0 {
            760
        } else {
            250
        };
        if old_street != self.game.street {
            proof {
                assert(before.street != Street::Showdown);
            }
            old_bets.set(player, old_bets[player] + paid);
            queue_gathers(&mut self.chip_motions, &old_bets, now + gather_delay);
        }
        let reveal_base = gather_delay + 820;
        let new_len = self.game.community.len();
        proof {
            assert(street_cards(self.game.street, self.game.community@.len(), self.game.deck@.len()));
        }
        queue_reveals(&mut self.community_reveals, old_community_len, new_len, now + reveal_base);
        let new_cards = new_len.saturating_sub(old_community_len);
        let award_delay = reveal_base + if new_cards > 0 {
            500 + ((new_cards - 1) as u64) * 180
        } else {
            0
        };
        queue_awards(&mut self.chip_motions, &self.game.last_payouts, now + award_delay);
        self.bot_due = now + 700;
    }
}

/// The bet of each seat this street.
fn street_bets(game: &Game) -> (bets: Vec<u32>)
    ensures
        bets@ == Seq::new(game.players@.len(), |j: int| game.players@[j].street_bet),
{
    let mut bets: Vec<u32> = Vec::new();
    let mut k: usize = 0;
    while k < game.players.len()
        invariant
            k <= game.players@.len(),
            bets@ == Seq::new(game.players@.len(), |j: int| game.players@[j].street_bet).take(k as int),
        decreases game.players@.len() - k,
    {
        bets.push(game.players[k].street_bet);
        assert(bets@ =~= Seq::new(game.players@.len(), |j: int| game.players@[j].street_bet).take(k + 1));
        k = k + 1;
    }
    assert(bets@ =~= Seq::new(game.players@.len(), |j: int| game.players@[j].street_bet));
    bets
}

/// Queues the chips of each non-empty bet spot into the pot from `start`.
fn queue_gathers(motions: &mut Vec<ChipMotion>, bets: &Vec<u32>, start: u64)
    ensures
        final(motions)@ == old(motions)@ + gathers(bets@, start as int),
{
    let mut j: usize = 0;
    while j < bets.len()
        invariant
            j <= bets@.len(),
            motions@ == old(motions)@ + gathers(bets@.take(j as int), start as int),
        decreases bets@.len() - j,
    {
        assert(bets@.take(j + 1).drop_last() =~= bets@.take(j as int));
        let amount = bets[j];
        if amount > 0 {
            motions.push(ChipMotion {
                player: j,
                amount,
                started: start,
                duration: 780,
                kind: ChipMotionKind::Gather,
            });
        }
        j = j + 1;
    }
    assert(bets@.take(bets@.len() as int) =~= bets@);
}

/// Queues each payout from the pot to its winner from `start`.
fn queue_awards(motions: &mut Vec<ChipMotion>, payouts: &Vec<u32>, start: u64)
    ensures
        final(motions)@ == old(motions)@ + awards(payouts@, start as int),
{
    let mut w: usize = 0;
    while w < payouts.len()
        invariant
            w <= payouts@.len(),
            motions@ == old(motions)@ + awards(payouts@.take(w as int), start as int),
        decreases payouts@.len() - w,
    {
        assert(payouts@.take(w + 1).drop_last() =~= payouts@.take(w as int));
        let amount = payouts[w];
        if amount > 0 {
            motions.push(ChipMotion {
                player: w,
                amount,
                started: start,
                duration: 980,
                kind: ChipMotionKind::Award,
            });
        }
        w = w + 1;
    }
    assert(payouts@.take(payouts@.len() as int) =~= payouts@);
}

/// Queues the board cards from `from` up to `to`, turned over one every
/// 180 ms from `start`.
fn queue_reveals(reveals: &mut Vec<CommunityReveal>, from: usize, to: usize, start: u64)
    requires
        to <= 5,
        start + 1000 <= u64::MAX,
    ensures
        final(reveals)@ == old(reveals)@ + reveals_between(from as int, to as int, start as int),
{
    if to <= from {
        assert(old(reveals)@ + reveals_between(from as int, to as int, start as int) =~= old(reveals)@);
        return;
    }
    let mut index = from;
    while index < to
        invariant
            from <= index <= to <= 5,
            start + 1000 <= u64::MAX,
            reveals@ == old(reveals)@ + reveals_between(from as int, index as int, start as int),
        decreases to - index,
    {
        let offset = (index - from) as u64;
        reveals.push(CommunityReveal { index, started: start + offset * 180, duration: 500 });
        assert(reveals@ =~= old(reveals)@ + reveals_between(from as int, index + 1, start as int));
        index = index + 1;
    }
}

/// The rules a new game takes from the settings.
/// A new game is played under exactly the settings chosen on the table:
/// the same starting stack, small blind, tournament mode and hands per level.
pub proof fn lemma_game_config_follows_settings(settings: TableSettings)
    ensures
        game_config_of(settings).starting_stack == settings.starting_stack,
        game_config_of(settings).small_blind == settings.small_blind,
        game_config_of(settings).tournament_mode == settings.tournament_mode,
        game_config_of(settings).hands_per_level == settings.hands_per_level,
{
}

pub open spec fn game_config_of(settings: TableSettings) -> GameConfig {
    GameConfig {
        starting_stack: settings.starting_stack,
        small_blind: settings.small_blind,
        tournament_mode: settings.tournament_mode,
        hands_per_level: settings.hands_per_level,
    }
}

/// When, relative to `now`, a motion is counted.
#[derive(Clone, Copy, Debug, PartialEq, Eq, Structural)]
pub enum Timing {
    /// Not started yet.
    Waiting,
    /// Not started yet, or still moving.
    Unfinished,
    /// Started and still moving.
    Running,
}

/// Motion `m` is at the stage `timing` at time `now`.
pub open spec fn at_stage(m: ChipMotion, timing: Timing, now: u64) -> bool {
    match timing {
        Timing::Waiting => now < m.started,
        Timing::Unfinished => now < m.started || now - m.started < m.duration,
        Timing::Running => m.started <= now && now - m.started < m.duration,
    }
}

/// Motion `m` is of `kind`, for `player` if one is given, at stage `timing`.
pub open spec fn counted_motion(
    m: ChipMotion,
    kind: ChipMotionKind,
    player: Option<usize>,
    timing: Timing,
    now: u64,
) -> bool {
    &&& m.kind == kind
    &&& (player matches Some(p) ==> m.player == p)
    &&& at_stage(m, timing, now)
}

/// The chips in the motions of `ms` that count.
pub open spec fn moving_total(
    ms: Seq<ChipMotion>,
    kind: ChipMotionKind,
    player: Option<usize>,
    timing: Timing,
    now: u64,
) -> int
    decreases ms.len(),
{
    if ms.len() == 0 {
        0
    } else {
        moving_total(ms.drop_last(), kind, player, timing, now) + if counted_motion(
            ms.last(),
            kind,
            player,
            timing,
            now,
        ) {
            ms.last().amount as int
        } else {
            0
        }
    }
}

proof fn lemma_moving_total_bound(
    ms: Seq<ChipMotion>,
    kind: ChipMotionKind,
    player: Option<usize>,
    timing: Timing,
    now: u64,
)
    ensures
        0 <= moving_total(ms, kind, player, timing, now) <= ms.len() * 0xffff_ffff,
    decreases ms.len(),
{
    if ms.len() > 0 {
        lemma_moving_total_bound(ms.drop_last(), kind, player, timing, now);
    }
}

/// A board card still to be turned, or turning, at `now`.
pub open spec fn reveal_unfinished(r: CommunityReveal, now: u64) -> bool {
    now < r.started || now - r.started < r.duration
}

impl PokerApp {
    /// The chips in flight of the given kind (for one player, or all) that
    /// are at the given stage at `now`.
    pub fn moving_amount(
        &self,
        kind: ChipMotionKind,
        player: Option<usize>,
        timing: Timing,
        now: u64,
    ) -> (amount: u64)
        requires
            self.chip_motions@.len() <= u32::MAX,
        ensures
            amount == moving_total(self.chip_motions@, kind, player, timing, now),
    {
        let ghost ms = self.chip_motions@;
        let mut amount: u64 = 0;
        let mut i: usize = 0;
        while i < self.chip_motions.len()
            invariant
                i <= ms.len() <= u32::MAX,
                ms == self.chip_motions@,
                amount == moving_total(ms.take(i as int), kind, player, timing, now),
            decreases ms.len() - i,
        {
            assert(ms.take(i + 1).drop_last() =~= ms.take(i as int));
            proof {
                lemma_moving_total_bound(ms.take(i as int), kind, player, timing, now);
                assert(i * 0xffff_ffff + 0xffff_ffff <= u64::MAX) by (nonlinear_arith)
                    requires
                        i < 0xffff_ffff,
                ;
            }
            let m = self.chip_motions[i];
            let for_player = match player {
                Some(p) => m.player == p,
                None => true,
            };
            let staged = match timing {
                Timing::Waiting => now < m.started,
                Timing::Unfinished => now < m.started || now - m.started < m.duration,
                Timing::Running => m.started <= now && now - m.started < m.duration,
            };
            if m.kind == kind && for_player && staged {
                amount = amount + m.amount as u64;
            }
            i = i + 1;
        }
        assert(ms.take(ms.len() as int) =~= ms);
        amount
    }

    /// The pot without this street's bets, which still lie in front of the
    /// seats; nothing when the bets exceed it.
    pub fn settled_pot(&self) -> (pot: u32)
        requires
            self.game.players@.len() <= u32::MAX,
        ensures
            pot == (if self.game.pot >= sum_street_bets(self.game.players@) {
                self.game.pot - sum_street_bets(self.game.players@)
            } else {
                0
            }),
    {
        let ghost ps = self.game.players@;
        let mut bets: u64 = 0;
        let mut i: usize = 0;
        while i < self.game.players.len()
            invariant
                i <= ps.len(),
                ps == self.game.players@,
                bets == sum_street_bets(ps.take(i as int)),
                bets <= i * 0xffff_ffff,
                ps.len() <= u32::MAX,
            decreases ps.len() - i,
        {
            assert(ps.take(i + 1).drop_last() =~= ps.take(i as int));
            proof {
                assert(i * 0xffff_ffff + 0xffff_ffff <= u64::MAX) by (nonlinear_arith)
                    requires
                        i < 0xffff_ffff,
                ;
            }
            bets = bets + self.game.players[i].street_bet as u64;
            i = i + 1;
        }
        assert(ps.take(ps.len() as int) =~= ps);
        if (self.game.pot as u64) >= bets {
            self.game.pot - bets as u32
        } else {
            0
        }
    }

    /// The board card `index` being turned over, if it is.
    pub fn reveal_of(&self, index: usize) -> (reveal: Option<CommunityReveal>)
        ensures
            reveal matches Some(r) ==> exists|k: int|
                0 <= k < self.community_reveals@.len() && self.community_reveals@[k] == r
                    && r.index == index && forall|j: int|
                    0 <= j < k ==> #[trigger] self.community_reveals@[j].index != index,
            reveal is None ==> forall|k: int|
                0 <= k < self.community_reveals@.len() ==> #[trigger] self.community_reveals@[k].index
                    != index,
    {
        let mut k: usize = 0;
        while k < self.community_reveals.len()
            invariant
                k <= self.community_reveals@.len(),
                forall|j: int| 0 <= j < k ==> #[trigger] self.community_reveals@[j].index != index,
            decreases self.community_reveals@.len() - k,
        {
            let r = self.community_reveals[k];
            if r.index == index {
                assert(self.community_reveals@[k as int] == r);
                return Some(r);
            }
            k = k + 1;
        }
        None
    }

    /// Forgets the chip motions that are over at `now`.
    pub fn drop_finished_motions(&mut self, now: u64)
        ensures
            final(self).chip_motions@ == old(self).chip_motions@.filter(
                |m: ChipMotion| at_stage(m, Timing::Unfinished, now),
            ),
            final(self).game == old(self).game,
            final(self).community_reveals == old(self).community_reveals,
            final(self).bot_due == old(self).bot_due,
            final(self).same_controls(&*old(self)),
    {
        let ghost ms = self.chip_motions@;
        let ghost keep = |m: ChipMotion| at_stage(m, Timing::Unfinished, now);
        let mut kept: Vec<ChipMotion> = Vec::new();
        let mut i: usize = 0;
        while i < self.chip_motions.len()
            invariant
                i <= ms.len(),
                ms == self.chip_motions@,
                keep == (|m: ChipMotion| at_stage(m, Timing::Unfinished, now)),
                kept@ == ms.take(i as int).filter(keep),
            decreases ms.len() - i,
        {
            proof {
                assert(ms.take(i + 1).drop_last() =~= ms.take(i as int));
                ms.take(i as int).lemma_filter_push(ms[i as int], keep);
                assert(ms.take(i + 1) =~= ms.take(i as int).push(ms[i as int]));
            }
            let m = self.chip_motions[i];
            if now < m.started || now - m.started < m.duration {
                kept.push(m);
            }
            i = i + 1;
        }
        assert(ms.take(ms.len() as int) =~= ms);
        self.chip_motions = kept;
    }

    /// Forgets the board cards that are turned over by `now`.
    pub fn drop_finished_reveals(&mut self, now: u64)
        ensures
            final(self).community_reveals@ == old(self).community_reveals@.filter(
                |r: CommunityReveal| reveal_unfinished(r, now),
            ),
            final(self).game == old(self).game,
            final(self).chip_motions == old(self).chip_motions,
            final(self).bot_due == old(self).bot_due,
            final(self).same_controls(&*old(self)),
    {
        let ghost rs = self.community_reveals@;
        let ghost keep = |r: CommunityReveal| reveal_unfinished(r, now);
        let mut kept: Vec<CommunityReveal> = Vec::new();
        let mut i: usize = 0;
        while i < self.community_reveals.len()
            invariant
                i <= rs.len(),
                rs == self.community_reveals@,
                keep == (|r: CommunityReveal| reveal_unfinished(r, now)),
                kept@ == rs.take(i as int).filter(keep),
            decreases rs.len() - i,
        {
            proof {
                rs.take(i as int).lemma_filter_push(rs[i as int], keep);
                assert(rs.take(i + 1) =~= rs.take(i as int).push(rs[i as int]));
            }
            let r = self.community_reveals[i];
            if now < r.started || now - r.started < r.duration {
                kept.push(r);
            }
            i = i + 1;
        }
        assert(rs.take(rs.len() as int) =~= rs);
        self.community_reveals = kept;
    }
}

/// The bets of this street, over all seats.
pub open spec fn sum_street_bets(ps: Seq<crate::game::Player>) -> int
    decreases ps.len(),
{
    if ps.len() == 0 {
        0
    } else {
        sum_street_bets(ps.drop_last()) + ps.last().street_bet
    }
}

} // verus!
