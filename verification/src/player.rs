use std::sync::mpsc::{SendError, Sender};
use vstd::prelude::*;

use crate::game::Card;

verus! {

#[verifier::external_type_specification]
#[verifier::external_body]
#[verifier::reject_recursive_types(T)]
pub struct ExSender<T>(std::sync::mpsc::Sender<T>);

#[verifier::external_type_specification]
#[verifier::external_body]
#[verifier::reject_recursive_types(T)]
pub struct ExSendError<T>(std::sync::mpsc::SendError<T>);

/// What a player puts on the table: the player's number, how many cards the
/// player has left after playing, and the card played.
pub type Play = (i32, usize, Card);

/// Why a play could not be handed to the host.
#[derive(Clone, Copy, Debug, PartialEq, Eq, Structural)]
pub enum PlayError {
    /// The host's end of the channel is gone.
    ChannelClosed,
}

/// The play made from `stack`: the top card goes on the table; a player
/// with no cards left plays a card of value 0 of the suit `empty_suit`.
pub open spec fn drawn_play(stack: Seq<Card>, player_number: i32, empty_suit: Seq<char>) -> (
    i32,
    nat,
    Seq<char>,
    i32,
) {
    if stack.len() > 0 {
        (player_number, (stack.len() - 1) as nat, stack.last().suit@, stack.last().value)
    } else {
        (player_number, 0, empty_suit, 0)
    }
}

/// The stack after one play: its top card is gone, if it had one.
pub open spec fn stack_after_draw(stack: Seq<Card>) -> Seq<Card> {
    if stack.len() > 0 {
        stack.drop_last()
    } else {
        stack
    }
}

/// The stack after `k` plays in a row.
pub open spec fn stack_after_draws(stack: Seq<Card>, k: nat) -> Seq<Card>
    decreases k,
{
    if k == 0 {
        stack
    } else {
        stack_after_draws(stack_after_draw(stack), (k - 1) as nat)
    }
}

/// The plays made by `k` plays in a row from `stack`, in order.
pub open spec fn draws(stack: Seq<Card>, player_number: i32, empty_suit: Seq<char>, k: nat) -> Seq<
    (i32, nat, Seq<char>, i32),
>
    decreases k,
{
    if k == 0 {
        Seq::empty()
    } else {
        seq![drawn_play(stack, player_number, empty_suit)] + draws(
            stack_after_draw(stack),
            player_number,
            empty_suit,
            (k - 1) as nat,
        )
    }
}

/// Plays leave a stack last in, first out, each card once: the `i`-th of
/// `k <= n` plays in a row from a stack `s` of `n` cards puts `s[n-1-i]` on
/// the table with `n-1-i` cards left, and afterwards the stack is the
/// bottom `n-k` cards of `s`.
pub proof fn lemma_plays_leave_last_in_first_out(
    s: Seq<Card>,
    player_number: i32,
    empty_suit: Seq<char>,
    k: nat,
)
    requires
        k <= s.len(),
    ensures
        stack_after_draws(s, k) == s.subrange(0, s.len() - k),
        draws(s, player_number, empty_suit, k).len() == k,
        forall|i: int|
            0 <= i < k ==> #[trigger] draws(s, player_number, empty_suit, k)[i] == (
                player_number,
                (s.len() - 1 - i) as nat,
                s[s.len() - 1 - i].suit@,
                s[s.len() - 1 - i].value,
            ),
    decreases k,
{
    if k > 0 {
        let rest = s.drop_last();
        lemma_plays_leave_last_in_first_out(rest, player_number, empty_suit, (k - 1) as nat);
        assert(rest.subrange(0, rest.len() - (k - 1)) =~= s.subrange(0, s.len() - k));
        let d = draws(s, player_number, empty_suit, k);
        let dr = draws(rest, player_number, empty_suit, (k - 1) as nat);
        assert forall|i: int| 0 <= i < k implies #[trigger] d[i] == (
            player_number,
            (s.len() - 1 - i) as nat,
            s[s.len() - 1 - i].suit@,
            s[s.len() - 1 - i].value,
        ) by {
            if i > 0 {
                assert(d[i] == dr[i - 1]);
                assert(rest[rest.len() - 1 - (i - 1)] == s[s.len() - 1 - i]);
            }
        }
    } else {
        assert(s.subrange(0, s.len() as int) =~= s);
    }
}

/// The player numbered `player_number` takes the top card of `my_stack`;
/// with an empty stack the card is a value-0 card of the suit `empty_suit`.
/// Returns the play: the player's number, the cards left, and the card.
pub fn draw_play(my_stack: &mut Vec<Card>, player_number: i32, empty_suit: &str) -> (play: Play)
    ensures
        old(my_stack)@.len() > 0 ==> final(my_stack)@ == old(my_stack)@.drop_last()
            && play.2 == old(my_stack)@.last(),
        old(my_stack)@.len() == 0 ==> final(my_stack)@ == old(my_stack)@,
        final(my_stack)@ == stack_after_draw(old(my_stack)@),
        play.0 == player_number,
        play.1 == final(my_stack)@.len(),
        (play.0, play.1 as nat, play.2.suit@, play.2.value) == drawn_play(
            old(my_stack)@,
            player_number,
            empty_suit@,
        ),
{
    let played_card = match my_stack.pop() {
        Some(card) => card,
        None => Card { suit: String::from_str(empty_suit), value: 0 },
    };
    (player_number, my_stack.len(), played_card)
}

/// Hands `play` to the host with `std::sync::mpsc::Sender::send`.
/// Nothing is claimed: the send fails exactly when the receiving end is
/// gone, which no argument here shows.
#[verifier::external_body]
fn send_play(tx: &Sender<Play>, play: Play) -> Result<(), SendError<Play>> {
    tx.send(play)
}

/// The player numbered `player_number` plays the top card of `my_stack`
/// (a value-0 card of suit "None" when the stack is empty) and sends the
/// play, as `draw_play` makes it, to the host through `tx_play_c`.
/// Returns `Err(PlayError::ChannelClosed)` when the send fails.
pub fn play(my_stack: &mut Vec<Card>, tx_play_c: &mut Sender<Play>, player_number: i32) -> (r: Result<
    (),
    PlayError,
>)
    ensures
        old(my_stack)@.len() > 0 ==> final(my_stack)@ == old(my_stack)@.drop_last(),
        old(my_stack)@.len() == 0 ==> final(my_stack)@ == old(my_stack)@,
        final(my_stack)@ == stack_after_draw(old(my_stack)@),
{
    let p = draw_play(my_stack, player_number, "None");
    match send_play(tx_play_c, p) {
        Ok(()) => Ok(()),
        Err(_) => Err(PlayError::ChannelClosed),
    }
}

} // verus!
