use office_holdem::bots::BotStyle;
use office_holdem::game::{Action, Street};
use office_holdem::table::{
    ChipMotion, ChipMotionKind, CommunityReveal, PokerApp, TableSettings, Timing,
};
use std::collections::HashSet;

#[test]
fn default_settings_make_the_default_game() {
    let settings = TableSettings::default();
    assert!(settings.hide_personalities);
    assert!(settings.randomize_bots);
    assert_eq!(settings.bot_count, 4);
    assert_eq!(settings.selected, BotStyle::ALL);
    let config = PokerApp::game_config(&settings);
    assert_eq!(config.starting_stack, 1500);
    assert_eq!(config.small_blind, 10);
    assert!(!config.tournament_mode);
    assert_eq!(config.hands_per_level, 5);
}

#[test]
fn selected_styles_are_kept_in_order() {
    let mut settings = TableSettings::default();
    settings.randomize_bots = false;
    settings.selected = [
        BotStyle::Tricky,
        BotStyle::Careful,
        BotStyle::Analytical,
        BotStyle::Aggressive,
    ];
    settings.bot_count = 2;
    assert_eq!(
        PokerApp::resolved_styles(&settings),
        vec![BotStyle::Tricky, BotStyle::Careful]
    );
    settings.bot_count = 9;
    assert_eq!(PokerApp::resolved_styles(&settings).len(), 4);
}

#[test]
fn random_styles_are_distinct() {
    let mut settings = TableSettings::default();
    settings.bot_count = 3;
    let styles = PokerApp::resolved_styles(&settings);
    assert_eq!(styles.len(), 3);
    let distinct: HashSet<_> = styles.iter().map(|s| s.label()).collect();
    assert_eq!(distinct.len(), 3);
    let mut orders = HashSet::new();
    settings.bot_count = 4;
    for _ in 0..40 {
        orders.insert(
            PokerApp::resolved_styles(&settings)
                .iter()
                .map(|s| s.label())
                .collect::<Vec<_>>(),
        );
    }
    assert!(orders.len() > 1);
}

#[test]
fn raises_snap_to_the_step_grid() {
    assert_eq!(PokerApp::snap_raise(57, 40, 200, 10), 60);
    assert_eq!(PokerApp::snap_raise(194, 40, 200, 10), 190);
    assert_eq!(PokerApp::snap_raise(196, 40, 200, 10), 200);
    assert_eq!(PokerApp::snap_raise(199, 40, 203, 10), 203);
    assert_eq!(PokerApp::snap_raise(193, 40, 200, 0), 193);
    assert_eq!(PokerApp::snap_raise(5, 40, 200, 10), 40);
    assert_eq!(PokerApp::snap_raise(900, 40, 200, 10), 200);
    assert_eq!(PokerApp::snap_raise(5, 40, 40, 10), 40);
    assert_eq!(PokerApp::snap_raise(5, 50, 40, 10), 40);
}

#[test]
fn chips_break_down_largest_first() {
    assert_eq!(
        PokerApp::chip_breakdown(1234),
        vec![(500, 2), (100, 2), (25, 1), (5, 1), (1, 4)]
    );
    assert_eq!(PokerApp::chip_breakdown(30), vec![(25, 1), (5, 1)]);
    assert!(PokerApp::chip_breakdown(0).is_empty());
}

#[test]
fn new_table_deals_the_first_hand() {
    let app = PokerApp::new(0);
    assert_eq!(app.game.players.len(), 5);
    assert_eq!(app.raise_to, 40);
    assert_eq!(app.raise_cap, 1000);
    assert_eq!(app.bot_due, 650);
    assert!(!app.table_animating());
    assert_eq!(app.game.street, Street::Preflop);
}

#[test]
fn new_game_follows_the_settings() {
    let mut app = PokerApp::new(0);
    app.settings.randomize_bots = false;
    app.settings.bot_count = 1;
    app.settings.starting_stack = 600;
    app.settings.small_blind = 25;
    app.chip_motions.push(ChipMotion {
        player: 0,
        amount: 5,
        started: 0,
        duration: 10,
        kind: ChipMotionKind::Bet,
    });
    app.new_game(5000);
    assert_eq!(app.game.players.len(), 2);
    assert_eq!(app.game.players[1].bot, Some(BotStyle::Careful));
    assert_eq!(app.game.big_blind, 50);
    assert_eq!(app.raise_to, 100);
    assert_eq!(app.raise_cap, 600);
    assert_eq!(app.bot_due, 5650);
    assert!(app.chip_motions.is_empty());
}

#[test]
fn a_call_queues_the_chips_to_the_bet() {
    let mut app = PokerApp::new(0);
    assert_eq!(app.game.current, 4);
    app.perform_action(Action::CheckCall, 1000);
    assert_eq!(
        app.chip_motions,
        vec![ChipMotion {
            player: 4,
            amount: 20,
            started: 1000,
            duration: 720,
            kind: ChipMotionKind::Bet,
        }]
    );
    assert!(app.community_reveals.is_empty());
    assert_eq!(app.bot_due, 1700);
    assert!(app.table_animating());
}

#[test]
fn closing_a_street_gathers_bets_and_turns_the_flop() {
    let mut app = PokerApp::new(0);
    app.settings.randomize_bots = false;
    app.settings.bot_count = 1;
    app.new_game(0);
    app.perform_action(Action::CheckCall, 100);
    app.chip_motions.clear();
    app.perform_action(Action::CheckCall, 2000);
    assert_eq!(app.game.street, Street::Flop);
    assert_eq!(
        app.chip_motions,
        vec![
            ChipMotion {
                player: 0,
                amount: 20,
                started: 2250,
                duration: 780,
                kind: ChipMotionKind::Gather,
            },
            ChipMotion {
                player: 1,
                amount: 20,
                started: 2250,
                duration: 780,
                kind: ChipMotionKind::Gather,
            },
        ]
    );
    assert_eq!(
        app.community_reveals,
        vec![
            CommunityReveal {
                index: 0,
                started: 3070,
                duration: 500,
            },
            CommunityReveal {
                index: 1,
                started: 3250,
                duration: 500,
            },
            CommunityReveal {
                index: 2,
                started: 3430,
                duration: 500,
            },
        ]
    );
}

#[test]
fn a_won_pot_is_carried_to_the_winner() {
    let mut app = PokerApp::new(0);
    app.settings.randomize_bots = false;
    app.settings.bot_count = 1;
    app.new_game(0);
    app.perform_action(Action::Fold, 10);
    assert_eq!(
        app.chip_motions,
        vec![
            ChipMotion {
                player: 0,
                amount: 20,
                started: 260,
                duration: 780,
                kind: ChipMotionKind::Gather,
            },
            ChipMotion {
                player: 1,
                amount: 10,
                started: 260,
                duration: 780,
                kind: ChipMotionKind::Gather,
            },
            ChipMotion {
                player: 0,
                amount: 30,
                started: 1080,
                duration: 980,
                kind: ChipMotionKind::Award,
            },
        ]
    );
}


#[test]
fn moving_chips_are_counted_by_stage() {
    let mut app = PokerApp::new(0);
    app.chip_motions = vec![
        ChipMotion {
            player: 1,
            amount: 40,
            started: 100,
            duration: 500,
            kind: ChipMotionKind::Award,
        },
        ChipMotion {
            player: 2,
            amount: 7,
            started: 900,
            duration: 500,
            kind: ChipMotionKind::Award,
        },
        ChipMotion {
            player: 1,
            amount: 15,
            started: 700,
            duration: 300,
            kind: ChipMotionKind::Gather,
        },
    ];
    assert_eq!(
        app.moving_amount(ChipMotionKind::Award, Some(1), Timing::Unfinished, 300),
        40
    );
    assert_eq!(
        app.moving_amount(ChipMotionKind::Award, Some(1), Timing::Unfinished, 600),
        0
    );
    assert_eq!(
        app.moving_amount(ChipMotionKind::Award, None, Timing::Running, 300),
        40
    );
    assert_eq!(
        app.moving_amount(ChipMotionKind::Award, None, Timing::Unfinished, 300),
        47
    );
    assert_eq!(
        app.moving_amount(ChipMotionKind::Gather, Some(1), Timing::Waiting, 300),
        15
    );
    assert_eq!(
        app.moving_amount(ChipMotionKind::Gather, Some(1), Timing::Waiting, 700),
        0
    );
    app.drop_finished_motions(650);
    assert_eq!(app.chip_motions.len(), 2);
    assert_eq!(app.chip_motions[0].amount, 7);
    app.drop_finished_motions(2000);
    assert!(app.chip_motions.is_empty());
}

#[test]
fn settled_pot_leaves_out_the_bets_of_this_street() {
    let mut app = PokerApp::new(0);
    assert_eq!(app.settled_pot(), 0);
    app.game.pot = 100;
    assert_eq!(app.settled_pot(), 70);
    app.game.pot = 10;
    assert_eq!(app.settled_pot(), 0);
}

#[test]
fn board_reveals_are_found_and_dropped() {
    let mut app = PokerApp::new(0);
    app.community_reveals = vec![
        CommunityReveal {
            index: 0,
            started: 100,
            duration: 500,
        },
        CommunityReveal {
            index: 3,
            started: 400,
            duration: 500,
        },
    ];
    assert_eq!(app.reveal_of(3).map(|r| r.started), Some(400));
    assert!(app.reveal_of(1).is_none());
    app.drop_finished_reveals(700);
    assert_eq!(app.community_reveals.len(), 1);
    assert_eq!(app.community_reveals[0].index, 3);
}

#[test]
fn next_hand_clears_the_table() {
    let mut app = PokerApp::new(0);
    app.perform_action(Action::CheckCall, 10);
    assert!(app.table_animating());
    app.analysis_open = true;
    app.next_hand(5000);
    assert!(!app.table_animating());
    assert!(!app.analysis_open);
    assert_eq!(app.bot_due, 5600);
    assert_eq!(app.game.hand_number, 2);
    assert_eq!(app.game.street, Street::Preflop);
}

#[test]
fn bots_wait_for_their_delay_and_a_still_table() {
    let mut app = PokerApp::new(0);
    assert_eq!(app.game.current, 4);
    assert!(!app.bot_turn_due(100));
    assert!(app.bot_turn_due(650));
    app.perform_action(Action::CheckCall, 700);
    assert_eq!(app.game.current, 0);
    assert!(!app.bot_turn_due(5000));
    app.perform_action(Action::CheckCall, 800);
    assert_eq!(app.game.current, 1);
    assert!(!app.bot_turn_due(5000));
    app.chip_motions.clear();
    assert!(!app.bot_turn_due(1000));
    assert!(app.bot_turn_due(5000));
}

#[test]
fn raise_ceiling_follows_the_chosen_limit() {
    let mut app = PokerApp::new(0);
    app.raise_cap = 1000;
    assert_eq!(app.raise_ceiling(40, 1500), 1000);
    assert_eq!(app.raise_ceiling(40, 600), 600);
    app.raise_cap = 10;
    assert_eq!(app.raise_ceiling(40, 600), 40);
    app.raise_all_in_limit = true;
    assert_eq!(app.raise_ceiling(40, 600), 600);
}

#[test]
fn small_blind_is_kept_within_half_the_stack() {
    let mut settings = TableSettings::default();
    settings.starting_stack = 100;
    settings.small_blind = 80;
    settings.fit_small_blind();
    assert_eq!(settings.small_blind, 50);
    settings.small_blind = 0;
    settings.fit_small_blind();
    assert_eq!(settings.small_blind, 1);
    settings.starting_stack = 1;
    settings.small_blind = 7;
    settings.fit_small_blind();
    assert_eq!(settings.small_blind, 1);
}
