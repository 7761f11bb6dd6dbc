use office_holdem::bots::{raise_amount, BotStyle};
use office_holdem::game::{Action, Game, GameConfig, Street, BIG_BLIND, SMALL_BLIND};
use office_holdem::cards::{evaluate, Card, Suit};
use office_holdem::pots::side_pot_payouts;
use std::collections::HashSet;

fn chips(game: &Game) -> u64 {
    game.players.iter().map(|p| p.stack as u64).sum::<u64>() + game.pot as u64
}

#[test]
fn heads_up_dealer_posts_small_blind_and_acts_first_preflop() {
    let game = Game::with_bots(&[BotStyle::Careful], GameConfig::default());
    assert_eq!(game.players.len(), 2);
    assert_eq!(game.players[game.dealer].street_bet, SMALL_BLIND);
    assert_eq!(game.current, game.dealer);
    assert_eq!(game.players[(game.dealer + 1) % 2].street_bet, BIG_BLIND);
}

#[test]
fn human_with_zero_stack_ends_the_tournament() {
    let mut game = Game::with_bots(
        &[BotStyle::Careful, BotStyle::Aggressive],
        GameConfig::default(),
    );
    game.players[0].stack = 0;
    assert!(game.update_tournament_state());
    assert!(game.game_over);
    assert!(!game.human_won);
    assert!(game.players[0].eliminated);
}

#[test]
fn busted_bot_is_skipped_in_the_next_hand() {
    let mut game = Game::with_bots(
        &[BotStyle::Careful, BotStyle::Aggressive],
        GameConfig::default(),
    );
    game.players[1].stack = 0;
    assert!(!game.update_tournament_state());
    game.start_hand();
    assert!(game.players[1].eliminated);
    assert!(game.players[1].hole.is_empty());
    assert!(!game.game_over);
}

#[test]
fn uncontested_pot_records_the_winners_payout() {
    let mut game = Game::with_bots(
        &[BotStyle::Careful, BotStyle::Aggressive],
        GameConfig::default(),
    );
    game.pot = 120;
    for player in game.players.iter_mut().skip(1) {
        player.folded = true;
    }
    let before = game.players[0].stack;
    game.advance();
    assert_eq!(game.last_payouts[0], 120);
    assert_eq!(game.players[0].stack, before + 120);
    assert_eq!(game.pot, 0);
}

#[test]
fn tournament_blinds_double_after_configured_number_of_hands() {
    let config = GameConfig {
        tournament_mode: true,
        hands_per_level: 2,
        ..GameConfig::default()
    };
    let mut game = Game::with_bots(&[BotStyle::Careful, BotStyle::Aggressive], config);
    assert_eq!(game.hand_number, 1);
    assert_eq!((game.small_blind, game.big_blind), (10, 20));
    game.start_hand();
    assert_eq!(game.hand_number, 2);
    assert_eq!((game.small_blind, game.big_blind), (10, 20));
    game.start_hand();
    assert_eq!(game.hand_number, 3);
    assert_eq!((game.small_blind, game.big_blind), (20, 40));
}

#[test]
fn raise_bounds_include_full_minimum_and_short_all_in() {
    let mut game = Game::with_bots(&[BotStyle::Careful], GameConfig::default());
    let player = game.current;
    game.current_bet = 100;
    game.min_raise = 40;
    game.players[player].street_bet = 20;
    game.players[player].stack = 500;
    assert_eq!(game.raise_bounds(player), Some((140, 520)));
    game.players[player].stack = 100;
    assert_eq!(game.raise_bounds(player), Some((120, 120)));
}

#[test]
fn raise_bounds_are_empty_without_chips_above_the_bet() {
    let mut game = Game::with_bots(&[BotStyle::Careful], GameConfig::default());
    let player = game.current;
    game.current_bet = 100;
    game.players[player].street_bet = 20;
    game.players[player].stack = 80;
    assert_eq!(game.raise_bounds(player), None);
}

#[test]
fn first_hand_opens_with_a_banner_and_two_cards_each() {
    let game = Game::with_bots(
        &[
            BotStyle::Careful,
            BotStyle::Aggressive,
            BotStyle::Tricky,
            BotStyle::Analytical,
        ],
        GameConfig::default(),
    );
    assert_eq!(game.message, "Раздача 1 · уровень 1 · блайнды 10/20");
    let names: Vec<&str> = game.players.iter().map(|p| p.name.as_str()).collect();
    assert_eq!(names, vec!["Вы", "Марина", "Борис", "Лис", "Профессор"]);
    assert_eq!(game.dealer, 1);
    assert_eq!(game.players[2].street_bet, 10);
    assert_eq!(game.players[3].street_bet, 20);
    assert_eq!(game.current, 4);
    assert_eq!(game.pot, 30);
    assert_eq!(game.street, Street::Preflop);
    let mut seen = HashSet::new();
    for player in &game.players {
        assert_eq!(player.hole.len(), 2);
        for card in &player.hole {
            assert!(seen.insert(*card));
        }
    }
    assert_eq!(game.players[1].bot, Some(BotStyle::Careful));
    assert_eq!(game.players[0].bot, None);
}

#[test]
fn fold_heads_up_gives_the_pot_to_the_other_seat() {
    let mut game = Game::with_bots(&[BotStyle::Careful], GameConfig::default());
    assert_eq!(game.current, 1);
    game.act(Action::Fold);
    assert_eq!(game.street, Street::Showdown);
    assert_eq!(game.message, "Вы забирает банк 30");
    assert_eq!(game.players[0].stack, 1510);
    assert_eq!(game.players[1].stack, 1490);
    assert_eq!(game.last_payouts, vec![30, 0]);
    assert_eq!(game.pot, 0);
    assert_eq!(
        game.hand_analysis,
        vec![
            "Вы выиграли 30 без вскрытия: все соперники сбросили карты.".to_string(),
            "Второе место по силе определить нельзя — карты соперников не вскрывались."
                .to_string(),
        ]
    );
}

#[test]
fn human_fold_explains_the_loss() {
    let mut game = Game::with_bots(&[BotStyle::Careful], GameConfig::default());
    game.act(Action::CheckCall);
    assert_eq!(game.current, 0);
    game.act(Action::Fold);
    assert_eq!(game.message, "Марина забирает банк 40");
    assert_eq!(game.players[1].stack, 1520);
    assert_eq!(game.hand_analysis.len(), 2);
    assert_eq!(game.hand_analysis[0], "Марина выиграл банк 40 без вскрытия.");
}

#[test]
fn calling_and_checking_opens_the_flop() {
    let mut game = Game::with_bots(&[BotStyle::Careful], GameConfig::default());
    game.act(Action::CheckCall);
    assert_eq!(game.message, "Марина уравнивает 10");
    assert_eq!(game.current, 0);
    assert_eq!(game.street, Street::Preflop);
    game.act(Action::CheckCall);
    assert_eq!(game.street, Street::Flop);
    assert_eq!(game.message, "Флоп");
    assert_eq!(game.community.len(), 3);
    assert_eq!(game.current_bet, 0);
    assert_eq!(game.min_raise, 20);
    assert_eq!(game.current, 0);
    assert_eq!(game.pot, 40);
    assert!(game.players.iter().all(|p| p.street_bet == 0 && !p.acted));
    game.act(Action::CheckCall);
    assert_eq!(game.message, "Вы — чек");
    assert_eq!(game.current, 1);
}

#[test]
fn raise_reopens_the_betting() {
    let mut game = Game::with_bots(&[BotStyle::Careful], GameConfig::default());
    game.act(Action::Raise(60));
    assert_eq!(game.message, "Марина повышает до 60");
    assert_eq!(game.current_bet, 60);
    assert_eq!(game.min_raise, 40);
    assert_eq!(game.players[1].street_bet, 60);
    assert_eq!(game.players[1].stack, 1440);
    assert_eq!(game.pot, 80);
    assert_eq!(game.current, 0);
    assert!(!game.players[0].acted);
    assert_eq!(game.to_call(0), 40);
}

#[test]
fn small_raise_is_lifted_to_a_full_raise() {
    let mut game = Game::with_bots(&[BotStyle::Careful], GameConfig::default());
    game.act(Action::Raise(25));
    assert_eq!(game.current_bet, 40);
    assert_eq!(game.min_raise, 20);
    assert_eq!(game.message, "Марина повышает до 40");
}

#[test]
fn raise_that_cannot_top_the_bet_is_a_call() {
    let mut game = Game::with_bots(&[BotStyle::Careful], GameConfig::default());
    let seat = game.current;
    game.players[seat].stack = 5;
    let banner = game.message.clone();
    game.act(Action::Raise(500));
    assert_eq!(game.players[seat].stack, 0);
    assert!(game.players[seat].all_in);
    assert_eq!(game.players[seat].street_bet, 15);
    assert_eq!(game.message, banner);
}

#[test]
fn a_full_hand_of_calls_keeps_every_chip() {
    let mut game = Game::with_bots(
        &[BotStyle::Careful, BotStyle::Aggressive],
        GameConfig::default(),
    );
    let start = chips(&game);
    let mut steps = 0;
    while game.street != Street::Showdown {
        game.act(Action::CheckCall);
        steps += 1;
        assert!(steps < 100);
        assert_eq!(chips(&game), start);
    }
    assert_eq!(chips(&game), start);
    assert_eq!(game.pot, 0);
    assert!(game.reveal_all);
    assert_eq!(game.community.len(), 5);
    assert!(game.message.contains(" выигрывает шоудаун 60 — "));
    assert!(game.hand_analysis.len() >= 2);
    assert!(game.highlighted_cards.len() >= 5);
    assert_eq!(game.last_payouts.iter().map(|&p| p as u64).sum::<u64>(), 60);
}

#[test]
fn acting_after_the_showdown_changes_nothing() {
    let mut game = Game::with_bots(&[BotStyle::Careful], GameConfig::default());
    game.act(Action::Fold);
    let message = game.message.clone();
    let stacks: Vec<u32> = game.players.iter().map(|p| p.stack).collect();
    assert!(!game.can_act(game.current));
    game.act(Action::Raise(100));
    assert_eq!(game.message, message);
    assert_eq!(
        game.players.iter().map(|p| p.stack).collect::<Vec<_>>(),
        stacks
    );
    assert_eq!(game.street, Street::Showdown);
}

#[test]
fn all_in_players_run_the_board_out() {
    let mut game = Game::with_bots(&[BotStyle::Careful], GameConfig::default());
    let start = chips(&game);
    game.act(Action::Raise(1500));
    assert!(game.players[1].all_in);
    game.act(Action::CheckCall);
    assert_eq!(game.street, Street::Showdown);
    assert_eq!(game.community.len(), 5);
    assert_eq!(chips(&game), start);
    assert!(game.reveal_all);
}

#[test]
fn to_call_never_goes_below_zero() {
    let mut game = Game::with_bots(&[BotStyle::Careful], GameConfig::default());
    game.players[0].street_bet = 50;
    assert_eq!(game.to_call(0), 0);
    assert_eq!(game.to_call(1), 10);
}

#[test]
fn human_turn_follows_the_current_seat() {
    let mut game = Game::with_bots(&[BotStyle::Careful], GameConfig::default());
    assert!(!game.is_human_turn());
    game.act(Action::CheckCall);
    assert!(game.is_human_turn());
    game.players[0].folded = true;
    assert!(!game.is_human_turn());
}

#[test]
fn last_bot_out_wins_the_tournament_for_the_human() {
    let mut game = Game::with_bots(&[BotStyle::Careful], GameConfig::default());
    game.players[1].stack = 0;
    assert!(game.update_tournament_state());
    assert!(game.human_won);
    assert_eq!(game.message, "Вы выиграли турнир! Все соперники выбыли.");
    assert_eq!(game.street, Street::Showdown);
    game.players[0].stack = 0;
    game.update_tournament_state();
    assert!(!game.human_won);
    assert_eq!(game.message, "Фишки закончились — вы выбыли из игры.");
}

#[test]
fn side_pots_pay_each_level_to_its_best_eligible_hand() {
    let payouts = side_pot_payouts(&vec![100, 50, 100], &vec![false, false, true], &vec![5, 9, 0]);
    assert_eq!(payouts, vec![100, 150, 0]);
    let split = side_pot_payouts(&vec![35, 35, 35], &vec![false, false, false], &vec![7, 7, 3]);
    assert_eq!(split, vec![53, 52, 0]);
    let abandoned = side_pot_payouts(&vec![10, 30], &vec![false, true], &vec![4, 9]);
    assert_eq!(abandoned, vec![20, 0]);
}

#[test]
fn bot_raise_builds_on_the_larger_of_the_last_raise_and_the_big_blind() {
    let mut game = Game::with_bots(&[BotStyle::Careful], GameConfig::default());
    assert_eq!(raise_amount(&game, 3), 20 + 20 * 3 / 2);
    game.min_raise = 100;
    game.current_bet = 200;
    assert_eq!(raise_amount(&game, 5), 450);
    assert_eq!(BotStyle::Tricky.label(), "непредсказуемый");
    assert_eq!(BotStyle::ALL.len(), 4);
}

#[test]
fn short_all_in_wins_only_what_was_matched() {
    let payouts = side_pot_payouts(&vec![50, 200, 200], &vec![false, false, false], &vec![9, 5, 7]);
    assert_eq!(payouts, vec![150, 0, 300]);
    let folded = side_pot_payouts(&vec![50, 200, 200], &vec![false, true, false], &vec![1, 9, 7]);
    assert_eq!(folded, vec![0, 0, 450]);
}

fn card(rank: u8, suit: Suit) -> Card {
    Card { rank, suit }
}

fn shown_score(board: &[Card], hole: [Card; 2]) -> u64 {
    let mut cards = board.to_vec();
    cards.extend_from_slice(&hole);
    evaluate(&cards)
}

#[test]
fn three_way_all_in_pays_each_side_pot_to_its_best_hand() {
    let board = [
        card(2, Suit::Clubs),
        card(7, Suit::Diamonds),
        card(9, Suit::Hearts),
        card(11, Suit::Spades),
        card(13, Suit::Clubs),
    ];
    let aces = shown_score(&board, [card(14, Suit::Spades), card(14, Suit::Diamonds)]);
    let kings = shown_score(&board, [card(13, Suit::Diamonds), card(13, Suit::Hearts)]);
    let queens = shown_score(&board, [card(12, Suit::Spades), card(12, Suit::Diamonds)]);
    assert!(kings > aces && aces > queens);
    let payouts = side_pot_payouts(
        &vec![300, 100, 300],
        &vec![false, false, false],
        &vec![aces, kings, queens],
    );
    assert_eq!(payouts, vec![400, 300, 0]);
    assert_eq!(payouts.iter().sum::<u32>(), 700);
}

#[test]
fn tied_board_splits_with_the_odd_chip_to_the_lowest_seat() {
    let board = [
        card(10, Suit::Hearts),
        card(11, Suit::Hearts),
        card(12, Suit::Hearts),
        card(13, Suit::Hearts),
        card(14, Suit::Hearts),
    ];
    let first = shown_score(&board, [card(2, Suit::Clubs), card(3, Suit::Clubs)]);
    let second = shown_score(&board, [card(4, Suit::Spades), card(5, Suit::Spades)]);
    assert_eq!(first, second);
    let payouts = side_pot_payouts(&vec![7, 7, 7], &vec![false, false, true], &vec![first, second, 0]);
    assert_eq!(payouts, vec![11, 10, 0]);
}

#[test]
fn chips_above_every_caller_stay_unclaimed_when_their_owner_folds() {
    let mut game = Game::with_bots(
        &[BotStyle::Careful, BotStyle::Aggressive, BotStyle::Tricky],
        GameConfig::default(),
    );
    let dealer = (game.dealer + 1) % 4;
    let small = (dealer + 1) % 4;
    let big = (dealer + 2) % 4;
    let first = (dealer + 3) % 4;
    game.players[dealer].stack = 8;
    game.players[small].stack = SMALL_BLIND;
    game.players[big].stack = 1500;
    game.players[first].stack = 5;
    game.pot = 0;
    game.start_hand();
    assert_eq!(game.dealer, dealer);
    assert_eq!(game.current, first);
    let before = chips(&game);
    game.act(Action::CheckCall);
    assert_eq!(game.current, dealer);
    game.act(Action::CheckCall);
    assert_eq!(game.current, big);
    assert!(game.players[small].all_in);
    game.act(Action::Fold);
    assert_eq!(game.street, Street::Showdown);
    assert_eq!(game.community.len(), 5);
    assert_eq!(game.pot, 0);
    assert_eq!(game.last_payouts[big], 0);
    assert_eq!(game.last_payouts.iter().sum::<u32>(), 5 * 4 + 3 * 3 + 2 * 2);
    assert_eq!(chips(&game), before - (BIG_BLIND - SMALL_BLIND) as u64);
}

#[test]
fn hole_cards_face_up_for_the_human_and_at_the_showdown() {
    let mut game = Game::with_bots(&[BotStyle::Careful, BotStyle::Aggressive], GameConfig::default());
    assert!(game.shows_hole_cards(0));
    assert!(!game.shows_hole_cards(1));
    game.reveal_all = true;
    assert!(game.shows_hole_cards(1));
    game.players[2].folded = true;
    assert!(!game.shows_hole_cards(2));
    game.players[0].eliminated = true;
    assert!(!game.shows_hole_cards(0));
}

#[test]
fn a_finished_game_starts_no_hand_even_at_the_last_hand_number() {
    let mut game = Game::with_bots(&[BotStyle::Careful], GameConfig::default());
    game.players[0].stack = 0;
    game.hand_number = u32::MAX;
    assert!(!game.next_hand_is_dealt());
    game.start_hand();
    assert!(game.game_over);
    assert_eq!(game.hand_number, u32::MAX);
    assert_eq!(game.street, Street::Showdown);
}

#[test]
fn the_next_hand_is_dealt_while_the_human_and_a_bot_have_chips() {
    let mut game = Game::with_bots(&[BotStyle::Careful, BotStyle::Tricky], GameConfig::default());
    assert!(game.next_hand_is_dealt());
    game.players[1].stack = 0;
    assert!(game.next_hand_is_dealt());
    game.players[2].stack = 0;
    assert!(!game.next_hand_is_dealt());
}
