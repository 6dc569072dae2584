use std::sync::mpsc::channel;
use std::sync::mpsc::{Receiver, Sender};

use card_game::game::{create_deck, deal, shuffle_deck, Card, Deck};
use card_game::host::{random_round_mode, HostState, RoundMode};
use card_game::player::{draw_play, play, PlayError};
use card_game::scorer::{rustic_round_players, tally_round};
use card_game::validator::{parse_i32, validate_arguments, ArgumentError, IntErrorKind};

fn card(suit: &str, value: i32) -> Card {
    Card { suit: suit.to_string(), value }
}

fn table(values: &[i32]) -> Vec<(i32, usize, Card)> {
    let mut plays = Vec::new();
    for (i, v) in values.iter().enumerate() {
        plays.push(((i + 1) as i32, 3, card("Clubs", *v)));
    }
    plays
}

fn args(list: &[&str]) -> Vec<String> {
    list.iter().map(|s| s.to_string()).collect()
}

#[test]
fn new_deck_layout_is_suits_then_values() {
    let deck = create_deck();
    let suits = ["Spades", "Diamonds", "Clubs", "Hearts"];
    assert_eq!(deck.cards.len(), 48);
    for (i, c) in deck.cards.iter().enumerate() {
        assert_eq!(c.suit, suits[i / 12]);
        assert_eq!(c.value, (i % 12 + 1) as i32);
    }
    assert_eq!(deck.cards[47].suit, "Hearts");
    assert_eq!(deck.cards[47].value, 12);
}

#[test]
fn new_deck_cards_are_all_different() {
    let deck = create_deck();
    for i in 0..48 {
        for j in 0..48 {
            if i != j {
                let a = &deck.cards[i];
                let b = &deck.cards[j];
                assert!(a.suit != b.suit || a.value != b.value);
            }
        }
    }
}

#[test]
fn shuffle_keeps_the_same_cards() {
    let mut deck = create_deck();
    shuffle_deck(&mut deck);
    let mut seen: Vec<(String, i32)> = deck.cards.iter().map(|c| (c.suit.clone(), c.value)).collect();
    let mut fresh: Vec<(String, i32)> = create_deck().cards.iter().map(|c| (c.suit.clone(), c.value)).collect();
    seen.sort();
    fresh.sort();
    assert_eq!(seen, fresh);
}

#[test]
fn deck_new_keeps_the_cards() {
    let deck = Deck::new(vec![card("Spades", 3), card("Hearts", 9)]);
    assert_eq!(deck.cards.len(), 2);
    assert_eq!(deck.cards[1].suit, "Hearts");
    assert_eq!(deck.cards[1].value, 9);
}

#[test]
fn deal_hands_out_cards_in_turn_from_the_top() {
    let mut deck = Deck::new((1..=10).map(|v| card("Clubs", v)).collect());
    let stacks = deal(&mut deck, 3);
    assert_eq!(stacks.len(), 3);
    let values: Vec<Vec<i32>> = stacks.iter().map(|s| s.iter().map(|c| c.value).collect()).collect();
    assert_eq!(values, vec![vec![10, 7, 4], vec![9, 6, 3], vec![8, 5, 2]]);
    assert_eq!(deck.cards.len(), 1);
    assert_eq!(deck.cards[0].value, 1);
}

#[test]
fn deal_full_deck_among_four_players() {
    let mut deck = create_deck();
    let stacks = deal(&mut deck, 4);
    assert!(stacks.iter().all(|s| s.len() == 12));
    assert!(deck.cards.is_empty());
    assert_eq!(stacks[0][0].value, 12);
    assert_eq!(stacks[0][0].suit, "Hearts");
}

#[test]
fn draw_play_takes_the_top_card() {
    let mut stack = vec![card("Spades", 4), card("Diamonds", 7)];
    let p = draw_play(&mut stack, 2, "None");
    assert_eq!(p.0, 2);
    assert_eq!(p.1, 1);
    assert_eq!(p.2.suit, "Diamonds");
    assert_eq!(p.2.value, 7);
    assert_eq!(stack.len(), 1);
}

#[test]
fn draw_play_from_an_empty_stack_plays_a_zero() {
    let mut stack: Vec<Card> = Vec::new();
    let p = draw_play(&mut stack, 5, "none");
    assert_eq!(p.0, 5);
    assert_eq!(p.1, 0);
    assert_eq!(p.2.suit, "none");
    assert_eq!(p.2.value, 0);
}

#[test]
fn play_from_an_empty_stack_sends_the_none_card() {
    let (mut tx, rx): (Sender<(i32, usize, Card)>, Receiver<(i32, usize, Card)>) = channel();
    let mut stack: Vec<Card> = Vec::new();
    play(&mut stack, &mut tx, 3).unwrap();
    let got = rx.recv().unwrap();
    assert_eq!(got.0, 3);
    assert_eq!(got.1, 0);
    assert_eq!(got.2.suit, "None");
    assert_eq!(got.2.value, 0);
}

#[test]
fn play_reports_a_closed_channel() {
    let (mut tx, rx): (Sender<(i32, usize, Card)>, Receiver<(i32, usize, Card)>) = channel();
    drop(rx);
    let mut stack = vec![card("Spades", 4)];
    assert_eq!(play(&mut stack, &mut tx, 1), Err(PlayError::ChannelClosed));
    assert!(stack.is_empty());
}

#[test]
fn tally_splits_among_the_highest_cards() {
    let t = tally_round(&table(&[3, 9, 2, 9]));
    assert_eq!(t.highest, 9);
    assert_eq!(t.divisor, 2);
    assert_eq!(t.winners, vec![2, 4]);
}

#[test]
fn tally_with_only_zero_cards_counts_one_more() {
    let t = tally_round(&table(&[0, 0, -2]));
    assert_eq!(t.highest, 0);
    assert_eq!(t.divisor, 3);
    assert_eq!(t.winners, vec![1, 2]);
}

#[test]
fn tally_of_an_empty_table() {
    let t = tally_round(&Vec::new());
    assert_eq!(t.highest, 0);
    assert_eq!(t.divisor, 1);
    assert!(t.winners.is_empty());
}

#[test]
fn rustic_players_are_first_and_last_of_the_round() {
    let mut plays = table(&[1, 2, 3, 4]);
    plays.swap(0, 2);
    assert_eq!(rustic_round_players(&plays, 4), (3, 4));
    assert_eq!(rustic_round_players(&plays, 3), (3, 1));
}

#[test]
fn parse_i32_matches_the_standard_library() {
    let cases = [
        "", "+", "-", "0", "4", "48", "+16", "-16", "007", "12a", "a12", " 4", "4 ",
        "2147483647", "2147483648", "-2147483648", "-2147483649", "99999999999x", "-99999999999x",
        "1_0", "١٢", "--1", "+-1", "-0",
    ];
    for s in cases.iter() {
        let ours = parse_i32(s);
        let std = s.parse::<i32>();
        match (ours, std) {
            (Ok(a), Ok(b)) => assert_eq!(a, b, "{}", s),
            (Err(kind), Err(e)) => {
                let expected = match e.kind() {
                    std::num::IntErrorKind::Empty => IntErrorKind::Empty,
                    std::num::IntErrorKind::InvalidDigit => IntErrorKind::InvalidDigit,
                    std::num::IntErrorKind::PosOverflow => IntErrorKind::PosOverflow,
                    std::num::IntErrorKind::NegOverflow => IntErrorKind::NegOverflow,
                    _ => panic!("unexpected kind for {}", s),
                };
                assert_eq!(kind, expected, "{}", s);
            }
            (a, b) => panic!("{}: {:?} vs {:?}", s, a, b),
        }
    }
}

#[test]
fn validate_accepts_even_counts_from_4_to_48() {
    assert_eq!(validate_arguments(&args(&["game", "4"])), Ok((4, false)));
    assert_eq!(validate_arguments(&args(&["game", "48", "debug"])), Ok((48, true)));
    assert_eq!(validate_arguments(&args(&["game", "16", "verbose"])), Ok((16, false)));
    assert_eq!(validate_arguments(&args(&["game", "16", "debug", "x"])), Ok((16, false)));
}

#[test]
fn validate_refuses_each_bad_command_line() {
    assert_eq!(validate_arguments(&args(&["game"])), Err(ArgumentError::MissingPlayerCount));
    assert_eq!(
        validate_arguments(&args(&["game", "four"])),
        Err(ArgumentError::InvalidPlayerCount(IntErrorKind::InvalidDigit))
    );
    assert_eq!(
        validate_arguments(&args(&["game", ""])),
        Err(ArgumentError::InvalidPlayerCount(IntErrorKind::Empty))
    );
    assert_eq!(
        validate_arguments(&args(&["game", "3000000000"])),
        Err(ArgumentError::InvalidPlayerCount(IntErrorKind::PosOverflow))
    );
    for bad in ["2", "5", "50", "-4", "0"].iter() {
        assert_eq!(validate_arguments(&args(&["game", bad])), Err(ArgumentError::PlayerCountOutOfRange));
    }
    assert_eq!(
        ArgumentError::PlayerCountOutOfRange.message(),
        "Number of players must be even and between 4 and 48"
    );
    assert_eq!(ArgumentError::MissingPlayerCount.message(), "Number of players must be specified");
}

#[test]
fn new_host_state_lets_everyone_play() {
    let h = HostState::new(4);
    assert_eq!(h.players, 4);
    assert_eq!(h.scores, vec![0, 0, 0, 0]);
    assert_eq!(h.plays_round, vec![true; 4]);
    assert_eq!(h.players_this_round, 4);
    assert_eq!(h.first_turn, 0);
}

#[test]
fn normal_turn_order_rotates_and_skips() {
    let mut h = HostState::new(4);
    assert_eq!(h.normal_turn_order(), vec![0, 1, 2, 3]);
    h.first_turn = 2;
    assert_eq!(h.normal_turn_order(), vec![2, 3, 0, 1]);
    h.plays_round[3] = false;
    h.players_this_round = 3;
    assert_eq!(h.normal_turn_order(), vec![2, 0, 1]);
}

#[test]
fn normal_round_scores_and_moves_the_start() {
    let mut h = HostState::new(4);
    let done = h.finish_round(RoundMode::Normal, &table(&[5, 8, 8, 1]));
    assert!(!done);
    assert_eq!(h.scores, vec![0, 5, 5, 0]);
    assert_eq!(h.first_turn, 1);
    assert_eq!(h.players_this_round, 4);
    let done = h.finish_round(RoundMode::Normal, &table(&[9, 8, 9, 9]));
    assert!(!done);
    // 10 / 3 rounds down to 3.
    assert_eq!(h.scores, vec![3, 5, 8, 3]);
    assert_eq!(h.first_turn, 2);
}

#[test]
fn rustic_round_rewards_first_punishes_and_benches_last() {
    let mut h = HostState::new(4);
    let mut plays = table(&[2, 7, 3, 4]);
    plays.swap(0, 3);
    // Table order: players 4, 2, 3, 1.
    let done = h.finish_round(RoundMode::Rustic, &plays);
    assert!(!done);
    assert_eq!(h.scores, vec![-5, 10, 0, 1]);
    assert_eq!(h.plays_round, vec![false, true, true, true]);
    assert_eq!(h.players_this_round, 3);
    assert_eq!(h.first_turn, 0);
    assert_eq!(h.normal_turn_order(), vec![1, 2, 3]);
    // Next normal round: everyone is back.
    let done = h.finish_round(RoundMode::Normal, &table(&[1, 1, 1, 1]).into_iter().skip(1).collect());
    assert!(!done);
    assert_eq!(h.plays_round, vec![true; 4]);
    assert_eq!(h.players_this_round, 4);
}

#[test]
fn a_last_card_ends_the_game() {
    let mut h = HostState::new(4);
    let mut plays = table(&[2, 7, 3, 4]);
    plays[2].1 = 0;
    assert!(h.finish_round(RoundMode::Normal, &plays));
}

#[test]
fn plays_of_benched_seats_are_not_scored() {
    let mut h = HostState::new(4);
    h.plays_round[1] = false;
    h.players_this_round = 3;
    let mut plays = table(&[2, 9, 3, 4]);
    plays[1].1 = 0;
    let done = h.finish_round(RoundMode::Normal, &plays);
    assert!(!done);
    assert_eq!(h.scores, vec![0, 0, 0, 10]);
}

#[test]
fn random_round_mode_is_normal_or_rustic() {
    for _ in 0..50 {
        let m = random_round_mode();
        assert!(m == RoundMode::Normal || m == RoundMode::Rustic);
    }
}

#[test]
fn tally_does_not_depend_on_play_order() {
    let plays = table(&[3, 9, 2, 9, 5]);
    let mut reordered = plays.clone();
    reordered.reverse();
    reordered.swap(1, 3);
    let a = tally_round(&plays);
    let b = tally_round(&reordered);
    assert_eq!(a.highest, b.highest);
    assert_eq!(a.divisor, b.divisor);
    let mut wa = a.winners.clone();
    let mut wb = b.winners.clone();
    wa.sort();
    wb.sort();
    assert_eq!(wa, wb);
}

#[test]
fn repeated_plays_send_cards_last_in_first_out() {
    let (mut tx, rx): (Sender<(i32, usize, Card)>, Receiver<(i32, usize, Card)>) = channel();
    let mut stack = vec![card("Spades", 1), card("Clubs", 2), card("Hearts", 3), card("Diamonds", 4)];
    for _ in 0..3 {
        play(&mut stack, &mut tx, 7).unwrap();
    }
    let got: Vec<(i32, usize, i32)> = (0..3).map(|_| rx.recv().unwrap()).map(|p| (p.0, p.1, p.2.value)).collect();
    assert_eq!(got, vec![(7, 3, 4), (7, 2, 3), (7, 1, 2)]);
    assert_eq!(stack.len(), 1);
    assert_eq!(stack[0].value, 1);
}
