use rand::seq::SliceRandom;
use vstd::prelude::*;

mod card;
mod deck;

pub use self::card::Card;
pub use self::deck::Deck;

verus! {

/// Number of suits in a full deck.
pub const SUITS: usize = 4;

/// Number of values in each suit (the values run from 1 to 12).
pub const VALUES_PER_SUIT: i32 = 12;

/// The name of suit number `s`, in the order in which a new deck is built.
pub open spec fn suit_name(s: int) -> Seq<char> {
    if s == 0 {
        "Spades"@
    } else if s == 1 {
        "Diamonds"@
    } else if s == 2 {
        "Clubs"@
    } else {
        "Hearts"@
    }
}

/// The card at position `i` of a new deck: suits in order, each suit
/// holding the values 1 to 12 in increasing order.
pub open spec fn is_new_deck_card(c: Card, i: int) -> bool {
    &&& c.suit@ == suit_name(i / 12)
    &&& c.value == i % 12 + 1
}

/// `cards` is a new deck: 48 cards laid out as `is_new_deck_card` says.
pub open spec fn is_new_deck(cards: Seq<Card>) -> bool {
    &&& cards.len() == 48
    &&& forall|i: int| 0 <= i < 48 ==> #[trigger] is_new_deck_card(cards[i], i)
}

fn suit_at(s: usize) -> (name: &'static str)
    requires
        s < SUITS,
    ensures
        name@ == suit_name(s as int),
{
    if s == 0 {
        "Spades"
    } else if s == 1 {
        "Diamonds"
    } else if s == 2 {
        "Clubs"
    } else {
        "Hearts"
    }
}

/// Builds the 48-card deck: Spades, Diamonds, Clubs and Hearts, each with
/// the values 1 to 12, in that order (the last card, the top, is the 12 of
/// Hearts).
pub fn create_deck() -> (deck: Deck)
    ensures
        is_new_deck(deck.cards@),
{
    let mut cards: Vec<Card> = Vec::with_capacity(48);
    let mut s: usize = 0;
    while s < SUITS
        invariant
            s <= SUITS,
            cards.len() == 12 * s,
            forall|i: int| 0 <= i < cards.len() ==> #[trigger] is_new_deck_card(cards@[i], i),
        decreases SUITS - s,
    {
        let suit = suit_at(s);
        let mut value: i32 = 1;
        while value <= VALUES_PER_SUIT
            invariant
                s < SUITS,
                1 <= value <= VALUES_PER_SUIT + 1,
                suit@ == suit_name(s as int),
                cards.len() == 12 * s + value - 1,
                forall|i: int| 0 <= i < cards.len() ==> #[trigger] is_new_deck_card(cards@[i], i),
            decreases VALUES_PER_SUIT + 1 - value,
        {
            let ghost i: int = cards.len() as int;
            assert(i / 12 == s && i % 12 + 1 == value) by (nonlinear_arith)
                requires
                    i == 12 * s + value - 1,
                    1 <= value <= 12,
            ;
            cards.push(Card { suit: String::from_str(suit), value });
            value = value + 1;
        }
        s = s + 1;
    }
    Deck::new(cards)
}

/// No two cards of a new deck are the same card: cards at different
/// positions differ in suit or in value.
pub proof fn lemma_new_deck_cards_distinct(cards: Seq<Card>, i: int, j: int)
    requires
        is_new_deck(cards),
        0 <= i < 48,
        0 <= j < 48,
        i != j,
    ensures
        cards[i].suit@ != cards[j].suit@ || cards[i].value != cards[j].value,
{
    assert(is_new_deck_card(cards[i], i));
    assert(is_new_deck_card(cards[j], j));
    reveal_strlit("Spades");
    reveal_strlit("Diamonds");
    reveal_strlit("Clubs");
    reveal_strlit("Hearts");
    if i / 12 == j / 12 {
        assert(i % 12 != j % 12) by (nonlinear_arith)
            requires
                i / 12 == j / 12,
                i != j,
                0 <= i,
                0 <= j,
        ;
    } else {
        assert(suit_name(i / 12) != suit_name(j / 12)) by {
            assert(0 <= i / 12 < 4);
            assert(0 <= j / 12 < 4);
            let a = suit_name(i / 12);
            let b = suit_name(j / 12);
            assert(a.len() != b.len() || a[0] != b[0]);
        }
    }
}

/// Puts the cards in a random order with `rand`'s `SliceRandom::shuffle`,
/// drawing from `rand::thread_rng()`.
/// Claimed: the cards after the call are those before it, each as many
/// times, in some order (the shuffle only swaps elements). Which order
/// comes out depends on the random generator and is not stated.
/// `thread_rng` panics if the operating system's random source fails; no
/// precondition can rule that out.
#[verifier::external_body]
fn shuffle_cards(cards: &mut Vec<Card>)
    ensures
        final(cards)@.len() == old(cards)@.len(),
        final(cards)@.to_multiset() == old(cards)@.to_multiset(),
{
    let mut rng = rand::thread_rng();
    cards.shuffle(&mut rng);
}

/// Shuffles the deck: the same cards, in a random order.
pub fn shuffle_deck(deck: &mut Deck)
    ensures
        final(deck).cards@.len() == old(deck).cards@.len(),
        final(deck).cards@.to_multiset() == old(deck).cards@.to_multiset(),
{
    shuffle_cards(&mut deck.cards);
}

/// Where, counted from the bottom of a deck of `n` cards, lies the `k`-th
/// card dealt to seat `seat` when `players` seats are dealt one card each
/// in turn from the top.
pub open spec fn dealt_from(n: int, players: int, seat: int, k: int) -> int {
    n - 1 - (k * players + seat)
}

/// Deals the deck among `players` seats: `deck.len() / players` rounds, in
/// each of which seats 0, 1, ... take the top card in turn. Returns each
/// seat's stack, in the order its cards were dealt; the cards that do not
/// make a full round stay in the deck.
pub fn deal(deck: &mut Deck, players: i32) -> (stacks: Vec<Vec<Card>>)
    requires
        1 <= players,
        old(deck).cards@.len() <= i32::MAX,
    ensures
        ({
            let n = old(deck).cards@.len() as int;
            let c = n / (players as int);
            &&& stacks@.len() == players
            &&& forall|seat: int| 0 <= seat < players ==> #[trigger] stacks@[seat]@.len() == c
            &&& forall|seat: int, k: int|
                0 <= seat < players && 0 <= k < c ==> #[trigger] stacks@[seat]@[k]
                    == old(deck).cards@[dealt_from(n, players as int, seat, k)]
            &&& final(deck).cards@ == old(deck).cards@.take(n - c * players)
        }),
{
    let ghost old_cards = deck.cards@;
    let ghost n = old_cards.len() as int;
    let cards_per_player: i32 = deck.cards.len() as i32 / players;
    let ghost c = cards_per_player as int;
    assert(c * players <= n && c >= 0) by (nonlinear_arith)
        requires
            c == n / (players as int),
            players >= 1,
            n >= 0,
    ;
    let mut stacks: Vec<Vec<Card>> = Vec::new();
    let mut s: i32 = 0;
    while s < players
        invariant
            0 <= s <= players,
            stacks@.len() == s,
            forall|seat: int| 0 <= seat < s ==> #[trigger] stacks@[seat]@.len() == 0,
        decreases players - s,
    {
        stacks.push(Vec::with_capacity(cards_per_player as usize));
        s = s + 1;
    }
    let ghost mut dealt: int = 0;
    let mut r: i32 = 0;
    while r < cards_per_player
        invariant
            0 <= r <= c,
            c == cards_per_player,
            c * players <= n,
            1 <= players,
            n == old_cards.len(),
            dealt == r * players,
            deck.cards@ == old_cards.take(n - dealt),
            stacks@.len() == players,
            forall|seat: int| 0 <= seat < players ==> #[trigger] stacks@[seat]@.len() == r,
            forall|seat: int, k: int|
                0 <= seat < players && 0 <= k < stacks@[seat]@.len() ==> #[trigger] stacks@[seat]@[k]
                    == old_cards[dealt_from(n, players as int, seat, k)],
        decreases c - r,
    {
        assert(dealt + players <= c * players) by (nonlinear_arith)
            requires
                dealt == r * players,
                r < c,
                players >= 1,
        ;
        let ghost base = dealt;
        let mut i: i32 = 0;
        while i < players
            invariant
                0 <= i <= players,
                0 <= r < c,
                1 <= players,
                base == r * players,
                base + players <= c * players <= n,
                n == old_cards.len(),
                dealt == base + i,
                deck.cards@ == old_cards.take(n - dealt),
                stacks@.len() == players,
                forall|seat: int|
                    0 <= seat < players ==> #[trigger] stacks@[seat]@.len() == if seat < i {
                        r + 1
                    } else {
                        r as int
                    },
                forall|seat: int, k: int|
                    0 <= seat < players && 0 <= k < stacks@[seat]@.len() ==> #[trigger] stacks@[seat]@[k]
                        == old_cards[dealt_from(n, players as int, seat, k)],
            decreases players - i,
        {
            match deck.cards.pop() {
                Some(card) => {
                    assert(card == old_cards[n - 1 - dealt]);
                    assert(dealt_from(n, players as int, i as int, r as int) == n - 1 - dealt);
                    stacks[i as usize].push(card);
                },
                None => {},
            }
            proof {
                dealt = dealt + 1;
            }
            assert(deck.cards@ =~= old_cards.take(n - dealt));
            i = i + 1;
        }
        assert(dealt == (r + 1) * players) by (nonlinear_arith)
            requires
                dealt == r * players + players,
        ;
        r = r + 1;
    }
    stacks
}

/// Dealing takes every card from above the part of the deck that stays,
/// and no card twice: different (seat, turn) pairs take different cards.
pub proof fn lemma_deal_takes_each_card_once(
    n: int,
    players: int,
    s1: int,
    k1: int,
    s2: int,
    k2: int,
)
    requires
        n >= 0,
        players >= 1,
        0 <= s1 < players,
        0 <= s2 < players,
        0 <= k1 < n / players,
        0 <= k2 < n / players,
        s1 != s2 || k1 != k2,
    ensures
        n - (n / players) * players <= dealt_from(n, players, s1, k1) < n,
        dealt_from(n, players, s1, k1) != dealt_from(n, players, s2, k2),
{
    let c = n / players;
    assert(c * players <= n) by (nonlinear_arith)
        requires
            c == n / players,
            players >= 1,
            n >= 0,
    ;
    assert(k1 * players + s1 < c * players) by (nonlinear_arith)
        requires
            0 <= k1 < c,
            0 <= s1 < players,
    ;
    assert(k1 * players >= 0) by (nonlinear_arith)
        requires
            k1 >= 0,
            players >= 1,
    ;
    assert(k1 * players + s1 != k2 * players + s2) by (nonlinear_arith)
        requires
            0 <= s1 < players,
            0 <= s2 < players,
            0 <= k1,
            0 <= k2,
            s1 != s2 || k1 != k2,
    ;
}

} // verus!
