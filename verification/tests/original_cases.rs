use std::sync::mpsc::channel;
use std::sync::mpsc::{Receiver, Sender};

use card_game::game::{create_deck, shuffle_deck, Card};
use card_game::player::play;
use card_game::scorer::{rustic_round_players, tally_round};

/// Adds a round's points to the scores the way the normal-round scorer does:
/// each winner earns 10 divided by the tally's divisor.
fn apply_tally(plays: &Vec<(i32, usize, Card)>, scores: &mut Vec<f64>) {
    let t = tally_round(plays);
    for player in &t.winners {
        scores[(player - 1) as usize] += 10.0 / t.divisor as f64;
    }
}

/// Adds a rustic round's extra points: one for the first player, minus five
/// for the last one.
fn apply_rustic(plays: &Vec<(i32, usize, Card)>, scores: &mut Vec<f64>, players_this_round: i32) {
    let (first_player, last_player) = rustic_round_players(plays, players_this_round);
    scores[(first_player - 1) as usize] += 1.0;
    scores[(last_player - 1) as usize] -= 5.0;
}

#[test]
fn it_works() {
    assert_eq!(2 + 2, 4);
}

#[test]
fn player_play_queues_first_card_in_deck() {
    let (mut tx_play, rx_play): (Sender<(i32, usize, Card)>, Receiver<(i32, usize, Card)>) = channel();
    let mut stack = Vec::with_capacity(1);
    let popped_card = Card { suit: "Spades".to_string(), value: 1 };
    stack.push(popped_card.clone());

    play(&mut stack, &mut tx_play, 1).unwrap();

    let recv_card;
    match rx_play.recv() {
        Ok(play) => recv_card = play,
        Err(e) => panic!("Error receiving from channel! {:?}", e),
    }
    assert_eq!(popped_card.value, recv_card.2.value);
}

#[test]
fn create_deck_returns_a_48_card_deck() {
    let mut cards_in_deck = 0;
    let mut deck = create_deck();

    for _i in 0..100 as usize {
        match deck.cards.pop() {
            Some(_card) => cards_in_deck += 1,
            None => (),
        }
    }
    assert_eq!(cards_in_deck, 48);
}

#[test]
fn shuffled_deck_returns_a_48_card_deck() {
    let mut cards_in_deck = 0;
    let mut deck = create_deck();
    shuffle_deck(&mut deck);

    for _i in 0..100 as usize {
        match deck.cards.pop() {
            Some(_card) => cards_in_deck += 1,
            None => (),
        }
    }
    assert_eq!(cards_in_deck, 48);
}

#[test]
fn score_round_gives_10_points_to_normal_round_unique_winner() {
    let mut plays = Vec::with_capacity(4 as usize);
    let mut scores = vec![0.0; 4 as usize];
    for i in 0..4 {
        let play: (i32, usize, Card) = (i + 1, 1, Card { suit: "Spades".to_string(), value: i });
        plays.push(play)
    }
    apply_tally(&plays, &mut scores);

    assert_eq!(scores[3], 10.0);
}

#[test]
fn score_round_gives_5_points_to_normal_round_two_winners() {
    let mut plays = Vec::with_capacity(4 as usize);
    let mut scores = vec![0.0; 4 as usize];
    for i in 0..4 {
        let play: (i32, usize, Card) = (i + 1, 1, Card { suit: "Spades".to_string(), value: i / 2 });
        plays.push(play)
    }
    apply_tally(&plays, &mut scores);

    assert_eq!(scores[3], 5.0);
    assert_eq!(scores[2], 5.0);
}

#[test]
fn score_round_gives_2_and_half_points_to_normal_round_four_winners() {
    let mut plays = Vec::with_capacity(4 as usize);
    let mut scores = vec![0.0; 4 as usize];
    for i in 0..4 {
        let play: (i32, usize, Card) = (i + 1, 1, Card { suit: "Spades".to_string(), value: 1 });
        plays.push(play)
    }
    apply_tally(&plays, &mut scores);

    assert_eq!(scores[3], 2.5);
    assert_eq!(scores[2], 2.5);
    assert_eq!(scores[1], 2.5);
    assert_eq!(scores[0], 2.5);
}

#[test]
fn score_round_gives_2_and_half_points_to_normal_round_4_winner_with_48_players() {
    let mut plays = Vec::with_capacity(48 as usize);
    let mut scores = vec![0.0; 48 as usize];
    for i in 0..48 {
        let play: (i32, usize, Card) = (i + 1, 1, Card { suit: "Spades".to_string(), value: i / 4 + 1 });
        plays.push(play)
    }
    apply_tally(&plays, &mut scores);
    assert_eq!(scores[47], 2.5);
    assert_eq!(scores[46], 2.5);
    assert_eq!(scores[45], 2.5);
    assert_eq!(scores[44], 2.5);
}

#[test]
fn score_round_rustic_gives_1_to_first_player() {
    let players_this_round = 4;
    let mut plays = Vec::with_capacity(4 as usize);
    let mut scores = vec![0.0; 4 as usize];
    for i in 0..4 {
        let play: (i32, usize, Card) = (i + 1, 1, Card { suit: "Spades".to_string(), value: 1 });
        plays.push(play)
    }
    apply_rustic(&plays, &mut scores, players_this_round);

    assert_eq!(scores[0], 1.0);
}

#[test]
fn score_round_rustic_gives_minus_five_points_to_last_player() {
    let players_this_round = 4;
    let mut plays = Vec::with_capacity(4 as usize);
    let mut scores = vec![0.0; 4 as usize];
    for i in 0..4 {
        let play: (i32, usize, Card) = (i + 1, 1, Card { suit: "Spades".to_string(), value: 1 });
        plays.push(play)
    }
    apply_rustic(&plays, &mut scores, players_this_round);

    assert_eq!(scores[3], -5.0);
}
