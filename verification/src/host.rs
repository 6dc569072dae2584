use rand::seq::SliceRandom;
use vstd::prelude::*;

use crate::player::Play;

verus! {

/// How a round is played.
#[derive(Clone, Copy, Debug, PartialEq, Eq, Structural)]
pub enum RoundMode {
    /// The players play one after the other, from a starting seat that moves
    /// on by one every normal round.
    Normal,
    /// The players race to play; the first one earns a point, the last one
    /// loses five and sits out the next round.
    Rustic,
}

/// How many entries of `s` are `true`.
pub open spec fn count_true(s: Seq<bool>) -> nat
    decreases s.len(),
{
    if s.len() == 0 {
        0
    } else {
        count_true(s.drop_last()) + if s.last() {
            1nat
        } else {
            0nat
        }
    }
}

/// What the host keeps between rounds. Seat `i` is player number `i + 1`.
pub struct HostState {
    /// How many players sit at the table.
    pub players: i32,
    /// The score of each seat.
    pub scores: Vec<i64>,
    /// Whether each seat plays the coming round.
    pub plays_round: Vec<bool>,
    /// How many seats play the coming round.
    pub players_this_round: i32,
    /// The seat that starts the next normal round.
    pub first_turn: i32,
}

impl HostState {
    /// The state is consistent: one score and one flag per seat, the
    /// starting seat is a seat, and the count of playing seats is kept;
    /// at most one seat sits a round out.
    pub open spec fn wf(&self) -> bool {
        &&& 2 <= self.players
        &&& self.scores@.len() == self.players
        &&& self.plays_round@.len() == self.players
        &&& 0 <= self.first_turn < self.players
        &&& self.players_this_round == count_true(self.plays_round@)
        &&& self.players - 1 <= self.players_this_round <= self.players
    }
}

proof fn lemma_count_true_all(s: Seq<bool>)
    requires
        forall|i: int| 0 <= i < s.len() ==> s[i],
    ensures
        count_true(s) == s.len(),
    decreases s.len(),
{
    if s.len() > 0 {
        lemma_count_true_all(s.drop_last());
    }
}

proof fn lemma_count_true_all_but_one(s: Seq<bool>, k: int)
    requires
        0 <= k < s.len(),
        forall|i: int| 0 <= i < s.len() ==> (s[i] <==> i != k),
    ensures
        count_true(s) == s.len() - 1,
    decreases s.len(),
{
    if k == s.len() - 1 {
        lemma_count_true_all(s.drop_last());
    } else {
        lemma_count_true_all_but_one(s.drop_last(), k);
    }
}

impl HostState {
    /// The table at the start of a game of `players` players: every score
    /// is 0, every seat plays, and seat 0 starts.
    pub fn new(players: i32) -> (h: HostState)
        requires
            2 <= players,
        ensures
            h.wf(),
            h.players == players,
            h.players_this_round == players,
            h.first_turn == 0,
            forall|i: int| 0 <= i < players ==> h.scores@[i] == 0 && h.plays_round@[i],
    {
        let mut scores: Vec<i64> = Vec::new();
        let mut plays_round: Vec<bool> = Vec::new();
        let mut i: i32 = 0;
        while i < players
            invariant
                0 <= i <= players,
                scores@.len() == i,
                plays_round@.len() == i,
                forall|j: int| 0 <= j < i ==> scores@[j] == 0 && plays_round@[j],
            decreases players - i,
        {
            scores.push(0);
            plays_round.push(true);
            i = i + 1;
        }
        proof {
            lemma_count_true_all(plays_round@);
        }
        HostState { players, scores, plays_round, players_this_round: players, first_turn: 0 }
    }
}

/// The seat that plays `j`-th in a normal round starting at seat `start`.
pub open spec fn rotated_seat(j: int, start: int, n: int) -> int {
    (j + start) % n
}

/// The seats that play, in turn, in the first `k` turns of a normal round
/// of `n` seats starting at seat `start`; a seat that sits the round out
/// is skipped.
pub open spec fn turn_order(n: int, start: int, plays_round: Seq<bool>, k: int) -> Seq<usize>
    decreases k,
{
    if k <= 0 {
        Seq::empty()
    } else {
        let rest = turn_order(n, start, plays_round, k - 1);
        let seat = rotated_seat(k - 1, start, n);
        if plays_round[seat] {
            rest.push(seat as usize)
        } else {
            rest
        }
    }
}

proof fn lemma_rotated_seat(j: int, start: int, n: int)
    requires
        0 <= j < n,
        0 <= start < n,
    ensures
        rotated_seat(j, start, n) == if j + start < n {
            j + start
        } else {
            j + start - n
        },
{
    let x = j + start;
    if x < n {
        vstd::arithmetic::div_mod::lemma_small_mod(x as nat, n as nat);
    } else {
        vstd::arithmetic::div_mod::lemma_small_mod((x - n) as nat, n as nat);
        vstd::arithmetic::div_mod::lemma_mod_sub_multiples_vanish(x, n);
    }
}

proof fn lemma_turn_order_prefix(n: int, start: int, pr: Seq<bool>, k: int)
    requires
        1 <= n,
        0 <= start < n,
        pr.len() == n,
        n <= i32::MAX,
        0 <= k <= n,
    ensures
        turn_order(n, start, pr, k).no_duplicates(),
        forall|x: int|
            0 <= x < turn_order(n, start, pr, k).len() ==> {
                let seat = #[trigger] turn_order(n, start, pr, k)[x] as int;
                &&& 0 <= seat < n
                &&& pr[seat]
                &&& exists|j: int| 0 <= j < k && seat == rotated_seat(j, start, n)
            },
        forall|j: int|
            0 <= j < k && #[trigger] pr[rotated_seat(j, start, n)] ==> turn_order(
                n,
                start,
                pr,
                k,
            ).contains(rotated_seat(j, start, n) as usize),
    decreases k,
{
    if k > 0 {
        lemma_turn_order_prefix(n, start, pr, k - 1);
        let rest = turn_order(n, start, pr, k - 1);
        let seat = rotated_seat(k - 1, start, n);
        lemma_rotated_seat(k - 1, start, n);
        assert forall|x: int| 0 <= x < rest.len() implies rest[x] as int != seat by {
            let j = choose|j: int| 0 <= j < k - 1 && rest[x] as int == rotated_seat(j, start, n);
            lemma_rotated_seat(j, start, n);
        }
        let cur = turn_order(n, start, pr, k);
        assert forall|x: int| 0 <= x < cur.len() implies {
            let seat2 = #[trigger] cur[x] as int;
            &&& 0 <= seat2 < n
            &&& pr[seat2]
            &&& exists|j: int| 0 <= j < k && seat2 == rotated_seat(j, start, n)
        } by {
            if x < rest.len() {
                assert(cur[x] == rest[x]);
                let j = choose|j: int| 0 <= j < k - 1 && rest[x] as int == rotated_seat(j, start, n);
                assert(0 <= j < k && cur[x] as int == rotated_seat(j, start, n));
            } else {
                assert(cur[x] as int == rotated_seat(k - 1, start, n));
            }
        }
        assert forall|j: int|
            0 <= j < k && #[trigger] pr[rotated_seat(j, start, n)] implies cur.contains(
            rotated_seat(j, start, n) as usize,
        ) by {
            if j < k - 1 {
                let y = choose|y: int|
                    0 <= y < rest.len() && rest[y] == rotated_seat(j, start, n) as usize;
                assert(cur[y] == rest[y]);
            } else {
                assert(cur[cur.len() - 1] == seat as usize);
            }
        }
    }
}

/// A normal round gives a turn to every seat that plays it, and to each
/// such seat exactly once; seats sitting the round out get no turn.
pub proof fn lemma_turn_order_visits_playing_seats_once(n: int, start: int, plays_round: Seq<bool>)
    requires
        1 <= n,
        0 <= start < n,
        plays_round.len() == n,
        n <= i32::MAX,
    ensures
        turn_order(n, start, plays_round, n).no_duplicates(),
        forall|seat: int|
            0 <= seat < n ==> (turn_order(n, start, plays_round, n).contains(seat as usize)
                <==> plays_round[seat]),
{
    lemma_turn_order_prefix(n, start, plays_round, n);
    let order = turn_order(n, start, plays_round, n);
    assert forall|seat: int| 0 <= seat < n implies (order.contains(seat as usize)
        <==> plays_round[seat]) by {
        if plays_round[seat] {
            let j = if seat >= start {
                seat - start
            } else {
                seat - start + n
            };
            lemma_rotated_seat(j, start, n);
            assert(plays_round[rotated_seat(j, start, n)]);
        }
        if order.contains(seat as usize) {
            let x = choose|x: int| 0 <= x < order.len() && order[x] == seat as usize;
            assert(order[x] as int == seat);
        }
    }
}

impl HostState {
    /// The seats that take a turn in a normal round, in turn order: seat
    /// `(i + first_turn) % players` for `i` from 0, skipping the seats that
    /// sit the round out.
    pub fn normal_turn_order(&self) -> (order: Vec<usize>)
        requires
            self.wf(),
        ensures
            order@ == turn_order(
                self.players as int,
                self.first_turn as int,
                self.plays_round@,
                self.players as int,
            ),
            order@.no_duplicates(),
            forall|seat: int|
                0 <= seat < self.players ==> (order@.contains(seat as usize)
                    <==> self.plays_round@[seat]),
    {
        proof {
            lemma_turn_order_visits_playing_seats_once(
                self.players as int,
                self.first_turn as int,
                self.plays_round@,
            );
        }
        let mut order: Vec<usize> = Vec::new();
        let mut i: i32 = 0;
        while i < self.players
            invariant
                self.wf(),
                0 <= i <= self.players,
                order@ == turn_order(
                    self.players as int,
                    self.first_turn as int,
                    self.plays_round@,
                    i as int,
                ),
            decreases self.players - i,
        {
            proof {
                lemma_rotated_seat(i as int, self.first_turn as int, self.players as int);
            }
            let number_player = ((i as i64 + self.first_turn as i64) % (self.players as i64)) as usize;
            if self.plays_round[number_player] {
                order.push(number_player);
            }
            i = i + 1;
        }
        order
    }
}

/// A play is scored when its player's seat plays the round.
pub open spec fn counted(plays_round: Seq<bool>, p: Play) -> bool {
    plays_round[p.0 - 1]
}

/// The highest value among the scored cards, counting from 0.
pub open spec fn table_high(plays_round: Seq<bool>, plays: Seq<Play>) -> int
    decreases plays.len(),
{
    if plays.len() == 0 {
        0
    } else {
        let h = table_high(plays_round, plays.drop_last());
        let p = plays.last();
        if counted(plays_round, p) && h < p.2.value {
            p.2.value as int
        } else {
            h
        }
    }
}

/// How many scored cards have value `v`.
pub open spec fn table_count(plays_round: Seq<bool>, plays: Seq<Play>, v: int) -> nat
    decreases plays.len(),
{
    if plays.len() == 0 {
        0
    } else {
        table_count(plays_round, plays.drop_last(), v) + if counted(plays_round, plays.last())
            && plays.last().2.value == v {
            1nat
        } else {
            0nat
        }
    }
}

/// The points each card of the highest value earns: 10 divided (rounding
/// down) by the number of such cards.
pub open spec fn round_points(plays_round: Seq<bool>, plays: Seq<Play>) -> int {
    let c = table_count(plays_round, plays, table_high(plays_round, plays));
    if c > 0 {
        10int / (c as int)
    } else {
        0
    }
}

/// What seat `seat` earns from the scored cards of value `high`, `points`
/// for each of its cards.
pub open spec fn seat_award(
    plays_round: Seq<bool>,
    plays: Seq<Play>,
    high: int,
    points: int,
    seat: int,
) -> int
    decreases plays.len(),
{
    if plays.len() == 0 {
        0
    } else {
        let p = plays.last();
        seat_award(plays_round, plays.drop_last(), high, points, seat) + if counted(plays_round, p)
            && p.2.value == high && p.0 - 1 == seat {
            points
        } else {
            0
        }
    }
}

/// Some scored play was its player's last card.
pub open spec fn table_done(plays_round: Seq<bool>, plays: Seq<Play>) -> bool
    decreases plays.len(),
{
    if plays.len() == 0 {
        false
    } else {
        table_done(plays_round, plays.drop_last()) || (counted(plays_round, plays.last())
            && plays.last().1 == 0)
    }
}

/// The extra points of a rustic round for seat `seat`: one for the player
/// who played first, minus five for the player who played last.
pub open spec fn rustic_adjustment(first: int, last: int, seat: int) -> int {
    (if first - 1 == seat {
        1int
    } else {
        0int
    }) - (if last - 1 == seat {
        5int
    } else {
        0int
    })
}

/// Every score has room for what one round of `n` plays can add or take.
pub open spec fn scores_have_room(scores: Seq<i64>, n: int) -> bool {
    forall|seat: int|
        0 <= seat < scores.len() ==> scores[seat] + 10 * n + 1 <= i64::MAX && scores[seat] - 5
            >= i64::MIN
}

/// What all the seats `0..n` together earn from the scored cards of value
/// `high`.
pub open spec fn total_award(
    plays_round: Seq<bool>,
    plays: Seq<Play>,
    high: int,
    points: int,
    n: int,
) -> int
    decreases n,
{
    if n <= 0 {
        0
    } else {
        total_award(plays_round, plays, high, points, n - 1) + seat_award(
            plays_round,
            plays,
            high,
            points,
            n - 1,
        )
    }
}

proof fn lemma_total_award_last(pr: Seq<bool>, plays: Seq<Play>, high: int, points: int, m: int)
    requires
        plays.len() > 0,
        m >= 0,
    ensures
        total_award(pr, plays, high, points, m) == total_award(
            pr,
            plays.drop_last(),
            high,
            points,
            m,
        ) + if counted(pr, plays.last()) && plays.last().2.value == high && 0 <= plays.last().0
            - 1 < m {
            points
        } else {
            0
        },
    decreases m,
{
    if m > 0 {
        lemma_total_award_last(pr, plays, high, points, m - 1);
    }
}

proof fn lemma_total_award_count(pr: Seq<bool>, plays: Seq<Play>, high: int, points: int, n: int)
    requires
        n >= 0,
        forall|j: int| 0 <= j < plays.len() ==> 1 <= #[trigger] plays[j].0 <= n,
    ensures
        total_award(pr, plays, high, points, n) == points * table_count(pr, plays, high),
    decreases plays.len(),
{
    if plays.len() == 0 {
        lemma_total_award_zero(pr, plays, high, points, n);
        assert(points * 0 == 0) by (nonlinear_arith);
    } else {
        let rest = plays.drop_last();
        assert forall|j: int| 0 <= j < rest.len() implies 1 <= #[trigger] rest[j].0 <= n by {
            assert(rest[j] == plays[j]);
        }
        assert(1 <= plays[plays.len() - 1].0 <= n);
        lemma_total_award_count(pr, rest, high, points, n);
        lemma_total_award_last(pr, plays, high, points, n);
        let c = table_count(pr, rest, high);
        let last = plays.last();
        if counted(pr, last) && last.2.value == high {
            assert(table_count(pr, plays, high) == c + 1);
            assert(points * (c + 1) == points * c + points) by (nonlinear_arith);
        } else {
            assert(table_count(pr, plays, high) == c);
        }
    }
}

proof fn lemma_total_award_zero(pr: Seq<bool>, plays: Seq<Play>, high: int, points: int, m: int)
    requires
        plays.len() == 0,
        m >= 0,
    ensures
        total_award(pr, plays, high, points, m) == 0,
    decreases m,
{
    if m > 0 {
        lemma_total_award_zero(pr, plays, high, points, m - 1);
    }
}

/// A round hands out at most 10 points in all: each of the `c` scored
/// cards of the highest value earns `10 / c`, so the seats together earn
/// `(10 / c) * c`.
pub proof fn lemma_round_hands_out_at_most_ten(plays_round: Seq<bool>, plays: Seq<Play>, n: int)
    requires
        n >= 0,
        forall|j: int| 0 <= j < plays.len() ==> 1 <= #[trigger] plays[j].0 <= n,
    ensures
        ({
            let high = table_high(plays_round, plays);
            let points = round_points(plays_round, plays);
            let total = total_award(plays_round, plays, high, points, n);
            &&& total == points * table_count(plays_round, plays, high)
            &&& 0 <= total <= 10
        }),
{
    let high = table_high(plays_round, plays);
    let points = round_points(plays_round, plays);
    let c = table_count(plays_round, plays, high);
    lemma_total_award_count(plays_round, plays, high, points, n);
    if c > 0 {
        assert(0 <= (10int / (c as int)) * c <= 10) by (nonlinear_arith)
            requires
                c > 0,
        ;
    }
}

proof fn lemma_table_done_exists(pr: Seq<bool>, plays: Seq<Play>)
    ensures
        table_done(pr, plays) <==> exists|j: int|
            0 <= j < plays.len() && pr[#[trigger] plays[j].0 - 1] && plays[j].1 == 0,
    decreases plays.len(),
{
    if plays.len() > 0 {
        let rest = plays.drop_last();
        lemma_table_done_exists(pr, rest);
        if table_done(pr, rest) {
            let j = choose|j: int| 0 <= j < rest.len() && pr[#[trigger] rest[j].0 - 1] && rest[j].1 == 0;
            assert(plays[j] == rest[j]);
        }
        if exists|j: int| 0 <= j < plays.len() && pr[#[trigger] plays[j].0 - 1] && plays[j].1 == 0 {
            let j = choose|j: int| 0 <= j < plays.len() && pr[#[trigger] plays[j].0 - 1] && plays[j].1 == 0;
            if j < rest.len() {
                assert(rest[j] == plays[j]);
            }
        }
    }
}

proof fn lemma_table_high_is_max(pr: Seq<bool>, plays: Seq<Play>)
    ensures
        table_high(pr, plays) >= 0,
        forall|j: int|
            0 <= j < plays.len() && counted(pr, #[trigger] plays[j]) ==> plays[j].2.value
                <= table_high(pr, plays),
        table_high(pr, plays) > 0 ==> exists|j: int|
            0 <= j < plays.len() && counted(pr, #[trigger] plays[j]) && plays[j].2.value
                == table_high(pr, plays),
    decreases plays.len(),
{
    if plays.len() > 0 {
        let rest = plays.drop_last();
        lemma_table_high_is_max(pr, rest);
        assert forall|j: int|
            0 <= j < plays.len() && counted(pr, #[trigger] plays[j]) implies plays[j].2.value
            <= table_high(pr, plays) by {
            if j < rest.len() {
                assert(rest[j] == plays[j]);
            }
        }
        if table_high(pr, plays) > 0 {
            if table_high(pr, plays) == table_high(pr, rest) {
                let j = choose|j: int|
                    0 <= j < rest.len() && counted(pr, #[trigger] rest[j]) && rest[j].2.value
                        == table_high(pr, rest);
                assert(plays[j] == rest[j]);
            } else {
                assert(counted(pr, plays[plays.len() - 1]));
            }
        }
    }
}

proof fn lemma_seat_award_zero(pr: Seq<bool>, plays: Seq<Play>, high: int, points: int, seat: int)
    requires
        forall|j: int|
            0 <= j < plays.len() && counted(pr, #[trigger] plays[j]) && plays[j].2.value == high
                ==> plays[j].0 - 1 != seat,
    ensures
        seat_award(pr, plays, high, points, seat) == 0,
    decreases plays.len(),
{
    if plays.len() > 0 {
        let rest = plays.drop_last();
        assert forall|j: int|
            0 <= j < rest.len() && counted(pr, #[trigger] rest[j]) && rest[j].2.value == high
                implies rest[j].0 - 1 != seat by {
            assert(rest[j] == plays[j]);
        }
        lemma_seat_award_zero(pr, rest, high, points, seat);
        assert(plays.last() == plays[plays.len() - 1]);
    }
}

/// How a round is scored, said of the plays themselves: the highest value
/// is the largest value among the scored cards (0 when none is above 0);
/// each card of that value earns `10 / c` rounded down, where `c` is how
/// many there are; and a seat without such a card earns nothing.
pub proof fn lemma_round_scoring(plays_round: Seq<bool>, plays: Seq<Play>)
    ensures
        ({
            let high = table_high(plays_round, plays);
            let points = round_points(plays_round, plays);
            let c = table_count(plays_round, plays, high);
            &&& high >= 0
            &&& forall|j: int|
                0 <= j < plays.len() && counted(plays_round, #[trigger] plays[j])
                    ==> plays[j].2.value <= high
            &&& high > 0 ==> exists|j: int|
                0 <= j < plays.len() && counted(plays_round, #[trigger] plays[j])
                    && plays[j].2.value == high
            &&& c > 0 ==> points * c <= 10 < (points + 1) * c
            &&& c == 0 ==> points == 0
            &&& forall|seat: int|
                (forall|j: int|
                    0 <= j < plays.len() && counted(plays_round, #[trigger] plays[j])
                        && plays[j].2.value == high ==> plays[j].0 - 1 != seat) ==> seat_award(
                    plays_round,
                    plays,
                    high,
                    points,
                    seat,
                ) == 0
        }),
{
    let high = table_high(plays_round, plays);
    let points = round_points(plays_round, plays);
    let c = table_count(plays_round, plays, high);
    lemma_table_high_is_max(plays_round, plays);
    if c > 0 {
        assert(points * c <= 10 < (points + 1) * c) by (nonlinear_arith)
            requires
                c > 0,
                points == 10int / (c as int),
        ;
    }
    assert forall|seat: int|
        (forall|j: int|
            0 <= j < plays.len() && counted(plays_round, #[trigger] plays[j]) && plays[j].2.value
                == high ==> plays[j].0 - 1 != seat) implies seat_award(
        plays_round,
        plays,
        high,
        points,
        seat,
    ) == 0 by {
        lemma_seat_award_zero(plays_round, plays, high, points, seat);
    }
}

impl HostState {
    /// Ends a round of mode `mode` in which `plays` were put on the table,
    /// in the order they reached the host.
    ///
    /// The plays of seats that play the round are scored: the highest card
    /// value (counting from 0) earns each card of that value
    /// `10 / (number of such cards)` points. Then every seat may play the
    /// next round. After a normal round all seats play the next one and the
    /// starting seat moves on by one. After a rustic round the player of the
    /// first play earns a point, the player at position
    /// `players_this_round - 1` loses five and sits out the next round.
    /// Returns whether some scored play was its player's last card, which
    /// ends the game.
    pub fn finish_round(&mut self, mode: RoundMode, plays: &Vec<Play>) -> (done: bool)
        requires
            old(self).wf(),
            forall|j: int| 0 <= j < plays.len() ==> 1 <= #[trigger] plays@[j].0 <= old(self).players,
            mode == RoundMode::Rustic ==> plays.len() >= old(self).players_this_round,
            scores_have_room(old(self).scores@, plays.len() as int),
        ensures
            final(self).wf(),
            final(self).players == old(self).players,
            done == table_done(old(self).plays_round@, plays@),
            done <==> exists|j: int|
                0 <= j < plays.len() && old(self).plays_round@[#[trigger] plays@[j].0 - 1]
                    && plays@[j].1 == 0,
            forall|seat: int|
                0 <= seat < old(self).players ==> #[trigger] final(self).scores@[seat]
                    == old(self).scores@[seat] + seat_award(
                    old(self).plays_round@,
                    plays@,
                    table_high(old(self).plays_round@, plays@),
                    round_points(old(self).plays_round@, plays@),
                    seat,
                ) + if mode == RoundMode::Rustic {
                    rustic_adjustment(
                        plays@[0].0 as int,
                        plays@[old(self).players_this_round - 1].0 as int,
                        seat,
                    )
                } else {
                    0
                },
            mode == RoundMode::Normal ==> {
                &&& final(self).players_this_round == old(self).players
                &&& final(self).first_turn == (old(self).first_turn + 1) % (old(self).players as int)
                &&& forall|seat: int|
                    0 <= seat < old(self).players ==> #[trigger] final(self).plays_round@[seat]
            },
            mode == RoundMode::Rustic ==> {
                &&& final(self).players_this_round == old(self).players - 1
                &&& final(self).first_turn == old(self).first_turn
                &&& forall|seat: int|
                    0 <= seat < old(self).players ==> (#[trigger] final(self).plays_round@[seat]
                        <==> seat != plays@[old(self).players_this_round - 1].0 - 1)
            },
    {
        let ghost pr = self.plays_round@;
        let ghost old_scores = self.scores@;
        let ghost start = *self;
        let players = self.players;

        // Which plays end the game, and the highest scored value.
        let mut done = false;
        let mut valor_alto_ronda: i32 = 0;
        let mut k: usize = 0;
        while k < plays.len()
            invariant
                k <= plays.len(),
                self.plays_round@ == pr,
                pr.len() == players,
                forall|j: int| 0 <= j < plays.len() ==> 1 <= #[trigger] plays@[j].0 <= players,
                valor_alto_ronda == table_high(pr, plays@.take(k as int)),
                done == table_done(pr, plays@.take(k as int)),
            decreases plays.len() - k,
        {
            assert(plays@.take(k + 1).drop_last() =~= plays@.take(k as int));
            let p = &plays[k];
            assert(1 <= plays@[k as int].0 <= players);
            if self.plays_round[(p.0 - 1) as usize] {
                if p.1 == 0 {
                    done = true;
                }
                if valor_alto_ronda < p.2.value {
                    valor_alto_ronda = p.2.value;
                }
            }
            k = k + 1;
        }
        assert(plays@.take(plays.len() as int) =~= plays@);
        proof {
            lemma_table_done_exists(pr, plays@);
        }

        // How many scored cards reach it.
        let mut cantidad_valor_alto_ronda: usize = 0;
        let mut k: usize = 0;
        while k < plays.len()
            invariant
                k <= plays.len(),
                self.plays_round@ == pr,
                pr.len() == players,
                forall|j: int| 0 <= j < plays.len() ==> 1 <= #[trigger] plays@[j].0 <= players,
                cantidad_valor_alto_ronda == table_count(
                    pr,
                    plays@.take(k as int),
                    valor_alto_ronda as int,
                ),
                cantidad_valor_alto_ronda <= k,
            decreases plays.len() - k,
        {
            assert(plays@.take(k + 1).drop_last() =~= plays@.take(k as int));
            let p = &plays[k];
            assert(1 <= plays@[k as int].0 <= players);
            if self.plays_round[(p.0 - 1) as usize] && valor_alto_ronda == p.2.value {
                cantidad_valor_alto_ronda = cantidad_valor_alto_ronda + 1;
            }
            k = k + 1;
        }
        let points: i64 = if cantidad_valor_alto_ronda > 0 {
            (10u64 / (cantidad_valor_alto_ronda as u64)) as i64
        } else {
            0
        };
        assert(points == round_points(pr, plays@));
        assert(0 <= points <= 10);

        // Each scored card of the highest value earns its seat the points.
        let mut k: usize = 0;
        while k < plays.len()
            invariant
                k <= plays.len(),
                self.plays_round@ == pr,
                pr.len() == players,
                self.scores@.len() == players,
                self.players == start.players,
                self.first_turn == start.first_turn,
                self.players_this_round == start.players_this_round,
                start.wf(),
                players == start.players,
                old_scores.len() == players,
                0 <= points <= 10,
                scores_have_room(old_scores, plays.len() as int),
                forall|j: int| 0 <= j < plays.len() ==> 1 <= #[trigger] plays@[j].0 <= players,
                forall|seat: int|
                    0 <= seat < players ==> #[trigger] self.scores@[seat] == old_scores[seat]
                        + seat_award(
                        pr,
                        plays@.take(k as int),
                        valor_alto_ronda as int,
                        points as int,
                        seat,
                    ),
                forall|seat: int|
                    0 <= seat < players ==> 0 <= #[trigger] seat_award(
                        pr,
                        plays@.take(k as int),
                        valor_alto_ronda as int,
                        points as int,
                        seat,
                    ) <= 10 * k,
            decreases plays.len() - k,
        {
            assert(plays@.take(k + 1).drop_last() =~= plays@.take(k as int));
            let p = &plays[k];
            assert(1 <= plays@[k as int].0 <= players);
            let seat = (p.0 - 1) as usize;
            if self.plays_round[seat] && valor_alto_ronda == p.2.value {
                let current = self.scores[seat];
                assert(seat_award(
                    pr,
                    plays@.take(k as int),
                    valor_alto_ronda as int,
                    points as int,
                    seat as int,
                ) <= 10 * k);
                self.scores.set(seat, current + points);
            }
            assert forall|s2: int| 0 <= s2 < players implies 0 <= #[trigger] seat_award(
                pr,
                plays@.take(k + 1),
                valor_alto_ronda as int,
                points as int,
                s2,
            ) <= 10 * (k + 1) by {
                assert(0 <= seat_award(
                    pr,
                    plays@.take(k as int),
                    valor_alto_ronda as int,
                    points as int,
                    s2,
                ) <= 10 * k);
            }
            k = k + 1;
        }
        assert(plays@.take(plays.len() as int) =~= plays@);
        let ghost scored = self.scores@;
        assert forall|seat: int| 0 <= seat < players implies #[trigger] scored[seat] + 1 <= i64::MAX
            && scored[seat] - 5 >= i64::MIN by {
            assert(0 <= seat_award(
                pr,
                plays@.take(plays.len() as int),
                valor_alto_ronda as int,
                points as int,
                seat,
            ) <= 10 * plays.len());
        }

        // Every seat may play the next round.
        let mut i: i32 = 0;
        while i < players
            invariant
                0 <= i <= players,
                self.plays_round@.len() == players,
                self.scores@ == scored,
                self.players == start.players,
                self.first_turn == start.first_turn,
                self.players_this_round == start.players_this_round,
                start.wf(),
                players == start.players,
                forall|j: int| 0 <= j < i ==> self.plays_round@[j],
            decreases players - i,
        {
            self.plays_round.set(i as usize, true);
            i = i + 1;
        }

        match mode {
            RoundMode::Normal => {
                self.players_this_round = players;
                self.first_turn = (self.first_turn + 1) % players;
                proof {
                    lemma_count_true_all(self.plays_round@);
                }
            },
            RoundMode::Rustic => {
                let first_player = plays[0].0;
                let current = self.scores[(first_player - 1) as usize];
                self.scores.set((first_player - 1) as usize, current + 1);
                let last_player = plays[(self.players_this_round - 1) as usize].0;
                let current = self.scores[(last_player - 1) as usize];
                self.scores.set((last_player - 1) as usize, current - 5);
                self.plays_round.set((last_player - 1) as usize, false);
                self.players_this_round = players - 1;
                proof {
                    lemma_count_true_all_but_one(self.plays_round@, last_player - 1);
                }
            },
        }
        done
    }
}

/// Picks one of `modes` with `rand`'s `SliceRandom::choose`, drawing from
/// `rand::thread_rng()`.
/// Claimed: `None` exactly when `modes` is empty, otherwise one of its
/// elements. Which element comes out depends on the random generator and is
/// not stated. `thread_rng` panics if the operating system's random source
/// fails; no precondition can rule that out.
#[verifier::external_body]
fn choose_mode(modes: &[RoundMode]) -> (picked: Option<RoundMode>)
    ensures
        picked is None <==> modes@.len() == 0,
        picked matches Some(m) ==> modes@.contains(m),
{
    modes.choose(&mut rand::thread_rng()).copied()
}

/// The mode of the next round, normal or rustic, drawn at random.
pub fn random_round_mode() -> (mode: RoundMode)
    ensures
        mode == RoundMode::Normal || mode == RoundMode::Rustic,
{
    let modes: Vec<RoundMode> = vec![RoundMode::Normal, RoundMode::Rustic];
    match choose_mode(modes.as_slice()) {
        Some(mode) => mode,
        None => {
            assert(false);
            RoundMode::Normal
        },
    }
}

} // verus!
