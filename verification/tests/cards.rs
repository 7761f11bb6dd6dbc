use office_holdem::cards::{
    best_five, describe_hand, evaluate, explain_loss, hand_name, kicker_cards, Card, Deck, Suit,
};
use std::collections::HashSet;

fn c(rank: u8, suit: Suit) -> Card {
    Card { rank, suit }
}

#[test]
fn categories_are_ordered() {
    let sf = [
        c(10, Suit::Hearts),
        c(11, Suit::Hearts),
        c(12, Suit::Hearts),
        c(13, Suit::Hearts),
        c(14, Suit::Hearts),
    ];
    let quads = [
        c(9, Suit::Hearts),
        c(9, Suit::Clubs),
        c(9, Suit::Spades),
        c(9, Suit::Diamonds),
        c(2, Suit::Hearts),
    ];
    assert!(evaluate(&sf) > evaluate(&quads));
}

#[test]
fn wheel_straight_works() {
    let wheel = [
        c(14, Suit::Hearts),
        c(2, Suit::Clubs),
        c(3, Suit::Spades),
        c(4, Suit::Diamonds),
        c(5, Suit::Hearts),
    ];
    assert_eq!((evaluate(&wheel) >> 24) as u8, 4);
}

#[test]
fn best_five_returns_only_winning_cards() {
    let cards = [
        c(10, Suit::Hearts),
        c(11, Suit::Hearts),
        c(12, Suit::Hearts),
        c(13, Suit::Hearts),
        c(14, Suit::Hearts),
        c(14, Suit::Clubs),
        c(2, Suit::Spades),
    ];
    let (score, winning) = best_five(&cards);
    assert_eq!((score >> 24) as u8, 8);
    assert_eq!(winning.len(), 5);
    assert!(winning.iter().all(|card| card.suit == Suit::Hearts));
}

#[test]
fn pair_has_three_kickers() {
    let five = [
        c(12, Suit::Spades),
        c(12, Suit::Clubs),
        c(13, Suit::Clubs),
        c(11, Suit::Spades),
        c(10, Suit::Clubs),
    ];
    let score = evaluate(&five);
    let kickers = kicker_cards(&five, score);
    assert_eq!(kickers.len(), 3);
    assert!(kickers.iter().all(|card| [10, 11, 13].contains(&card.rank)));
}

#[test]
fn same_pair_is_explained_by_the_deciding_kicker() {
    let winner = evaluate(&[
        c(12, Suit::Spades),
        c(12, Suit::Clubs),
        c(13, Suit::Hearts),
        c(8, Suit::Diamonds),
        c(7, Suit::Clubs),
    ]);
    let loser = evaluate(&[
        c(12, Suit::Hearts),
        c(12, Suit::Diamonds),
        c(10, Suit::Spades),
        c(8, Suit::Clubs),
        c(7, Suit::Hearts),
    ]);
    let explanation = explain_loss(winner, loser);
    assert!(explanation.contains("кикер"));
    assert!(explanation.contains('K'));
    assert!(explanation.contains("10"));
}

#[test]
fn pair_score_packs_category_and_ranks() {
    let score = evaluate(&[
        c(12, Suit::Spades),
        c(12, Suit::Clubs),
        c(13, Suit::Hearts),
        c(8, Suit::Diamonds),
        c(7, Suit::Clubs),
    ]);
    assert_eq!(score, (1 << 24) | (12 << 20) | (13 << 16) | (8 << 12) | (7 << 8));
    assert_eq!(describe_hand(score), "пара Q, кикеры K–8–7");
    assert_eq!(hand_name(score), "пара");
}

#[test]
fn explanation_of_a_same_kicker_loss_names_both_ranks() {
    let winner = evaluate(&[
        c(12, Suit::Spades),
        c(12, Suit::Clubs),
        c(13, Suit::Hearts),
        c(8, Suit::Diamonds),
        c(7, Suit::Clubs),
    ]);
    let loser = evaluate(&[
        c(12, Suit::Hearts),
        c(12, Suit::Diamonds),
        c(10, Suit::Spades),
        c(8, Suit::Clubs),
        c(7, Suit::Hearts),
    ]);
    assert_eq!(explain_loss(winner, loser), "Решил кикер: K против 10.");
}

#[test]
fn different_categories_are_explained_by_name() {
    let flush = evaluate(&[
        c(2, Suit::Clubs),
        c(5, Suit::Clubs),
        c(9, Suit::Clubs),
        c(11, Suit::Clubs),
        c(13, Suit::Clubs),
    ]);
    let straight = evaluate(&[
        c(5, Suit::Clubs),
        c(6, Suit::Hearts),
        c(7, Suit::Spades),
        c(8, Suit::Diamonds),
        c(9, Suit::Clubs),
    ]);
    assert_eq!(explain_loss(flush, straight), "флеш сильнее, чем стрит.");
    assert_eq!(describe_hand(flush), "флеш K–J–9–5–2");
    assert_eq!(describe_hand(straight), "стрит до 9");
}

#[test]
fn equal_hands_split_the_pot() {
    let one = evaluate(&[
        c(2, Suit::Clubs),
        c(2, Suit::Hearts),
        c(9, Suit::Clubs),
        c(11, Suit::Spades),
        c(13, Suit::Clubs),
    ]);
    let other = evaluate(&[
        c(2, Suit::Spades),
        c(2, Suit::Diamonds),
        c(9, Suit::Hearts),
        c(11, Suit::Clubs),
        c(13, Suit::Diamonds),
    ]);
    assert_eq!(one, other);
    assert_eq!(
        explain_loss(one, other),
        "Пять лучших карт равны — банк должен быть разделён."
    );
}

#[test]
fn descriptions_of_every_category() {
    let full_house = evaluate(&[
        c(3, Suit::Clubs),
        c(3, Suit::Hearts),
        c(3, Suit::Spades),
        c(11, Suit::Spades),
        c(11, Suit::Clubs),
    ]);
    assert_eq!(describe_hand(full_house), "фулл-хаус: 3 поверх J");
    let quads = evaluate(&[
        c(9, Suit::Hearts),
        c(9, Suit::Clubs),
        c(9, Suit::Spades),
        c(9, Suit::Diamonds),
        c(2, Suit::Hearts),
    ]);
    assert_eq!(describe_hand(quads), "каре 9, кикер 2");
    let two_pair = evaluate(&[
        c(4, Suit::Hearts),
        c(4, Suit::Clubs),
        c(10, Suit::Spades),
        c(10, Suit::Diamonds),
        c(14, Suit::Hearts),
    ]);
    assert_eq!(describe_hand(two_pair), "две пары 10 и 4, кикер A");
    let set = evaluate(&[
        c(6, Suit::Hearts),
        c(6, Suit::Clubs),
        c(6, Suit::Spades),
        c(10, Suit::Diamonds),
        c(14, Suit::Hearts),
    ]);
    assert_eq!(describe_hand(set), "сет 6, кикеры A–10");
    let high = evaluate(&[
        c(2, Suit::Hearts),
        c(4, Suit::Clubs),
        c(6, Suit::Spades),
        c(10, Suit::Diamonds),
        c(14, Suit::Hearts),
    ]);
    assert_eq!(describe_hand(high), "старшая A, далее 10–6–4–2");
    assert_eq!(hand_name(high), "старшая карта");
    let wheel = evaluate(&[
        c(14, Suit::Hearts),
        c(2, Suit::Clubs),
        c(3, Suit::Spades),
        c(4, Suit::Diamonds),
        c(5, Suit::Hearts),
    ]);
    assert_eq!(describe_hand(wheel), "стрит до 5");
    let royal = evaluate(&[
        c(10, Suit::Hearts),
        c(11, Suit::Hearts),
        c(12, Suit::Hearts),
        c(13, Suit::Hearts),
        c(14, Suit::Hearts),
    ]);
    assert_eq!(describe_hand(royal), "стрит-флеш до A");
    assert_eq!(hand_name(royal), "стрит-флеш");
}

#[test]
fn kickers_of_each_category() {
    let high = [
        c(2, Suit::Hearts),
        c(4, Suit::Clubs),
        c(6, Suit::Spades),
        c(10, Suit::Diamonds),
        c(14, Suit::Hearts),
    ];
    let kickers = kicker_cards(&high, evaluate(&high));
    assert_eq!(kickers, vec![high[0], high[1], high[2], high[3]]);
    let two_pair = [
        c(4, Suit::Hearts),
        c(4, Suit::Clubs),
        c(10, Suit::Spades),
        c(10, Suit::Diamonds),
        c(14, Suit::Hearts),
    ];
    assert_eq!(kicker_cards(&two_pair, evaluate(&two_pair)), vec![two_pair[4]]);
    let straight = [
        c(5, Suit::Clubs),
        c(6, Suit::Hearts),
        c(7, Suit::Spades),
        c(8, Suit::Diamonds),
        c(9, Suit::Clubs),
    ];
    assert!(kicker_cards(&straight, evaluate(&straight)).is_empty());
}

#[test]
fn best_five_picks_the_first_of_equal_choices() {
    let cards = [
        c(14, Suit::Hearts),
        c(14, Suit::Clubs),
        c(13, Suit::Spades),
        c(13, Suit::Diamonds),
        c(12, Suit::Hearts),
        c(12, Suit::Clubs),
        c(2, Suit::Spades),
    ];
    let (score, winning) = best_five(&cards);
    assert_eq!(score, (2 << 24) | (14 << 20) | (13 << 16) | (12 << 12));
    assert_eq!(winning, cards[0..5].to_vec());
    assert_eq!(evaluate(&cards), score);
}

#[test]
fn card_faces() {
    let queen = c(12, Suit::Hearts);
    assert_eq!(queen.rank_text(), "Q");
    assert_eq!(queen.suit_text(), "♥");
    assert!(queen.is_red());
    let ten = c(10, Suit::Spades);
    assert_eq!(ten.rank_text(), "10");
    assert_eq!(ten.suit_text(), "♠");
    assert!(!ten.is_red());
    assert!(c(2, Suit::Diamonds).is_red());
    assert!(!c(2, Suit::Clubs).is_red());
}

#[test]
fn shuffled_deck_holds_every_card_once() {
    let mut deck = Deck::shuffled();
    assert_eq!(deck.len(), 52);
    let mut seen = HashSet::new();
    let mut order = Vec::new();
    for _ in 0..52 {
        let card = deck.draw();
        assert!((2..=14).contains(&card.rank));
        assert!(seen.insert(card));
        order.push(card);
    }
    assert_eq!(deck.len(), 0);
    let mut standard = Vec::new();
    for suit in [Suit::Clubs, Suit::Diamonds, Suit::Hearts, Suit::Spades] {
        for rank in 2..=14 {
            standard.push(Card { rank, suit });
        }
    }
    standard.reverse();
    assert_ne!(order, standard);
}

#[test]
fn a_set_keeps_two_kickers_and_four_of_a_kind_one() {
    let set = [
        c(7, Suit::Hearts),
        c(7, Suit::Clubs),
        c(7, Suit::Spades),
        c(10, Suit::Diamonds),
        c(3, Suit::Hearts),
    ];
    assert_eq!(kicker_cards(&set, evaluate(&set)), vec![set[3], set[4]]);
    let quads = [
        c(9, Suit::Hearts),
        c(9, Suit::Clubs),
        c(9, Suit::Spades),
        c(9, Suit::Diamonds),
        c(2, Suit::Hearts),
    ];
    assert_eq!(kicker_cards(&quads, evaluate(&quads)), vec![quads[4]]);
    let full = [
        c(9, Suit::Hearts),
        c(9, Suit::Clubs),
        c(9, Suit::Spades),
        c(2, Suit::Diamonds),
        c(2, Suit::Hearts),
    ];
    assert!(kicker_cards(&full, evaluate(&full)).is_empty());
}

#[test]
fn order_of_cards_does_not_change_the_score() {
    let cards = [
        c(14, Suit::Spades),
        c(9, Suit::Hearts),
        c(14, Suit::Hearts),
        c(2, Suit::Clubs),
        c(9, Suit::Diamonds),
        c(13, Suit::Clubs),
        c(5, Suit::Spades),
    ];
    let mut reversed = cards.to_vec();
    reversed.reverse();
    let mut rotated = cards.to_vec();
    rotated.rotate_left(3);
    assert_eq!(evaluate(&reversed), evaluate(&cards));
    assert_eq!(evaluate(&rotated), evaluate(&cards));
}

#[test]
fn score_layout_holds_the_category_then_the_ranks() {
    let two_pair = [
        c(14, Suit::Spades),
        c(9, Suit::Hearts),
        c(14, Suit::Hearts),
        c(9, Suit::Diamonds),
        c(13, Suit::Clubs),
    ];
    let score = evaluate(&two_pair);
    assert_eq!(score >> 24, 2);
    assert_eq!(score & 0xf, 0);
    assert_eq!((score >> 20) & 0xf, 14);
    assert_eq!((score >> 16) & 0xf, 9);
    assert_eq!((score >> 12) & 0xf, 13);
    assert_eq!((score >> 8) & 0xf, 0);
    assert_eq!((score >> 4) & 0xf, 0);
}
