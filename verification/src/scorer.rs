use vstd::prelude::*;

use crate::player::Play;

verus! {

/// The highest card value on the table, counting from 0: values at or below
/// 0 never raise it.
pub open spec fn highest_value(plays: Seq<Play>) -> int
    decreases plays.len(),
{
    if plays.len() == 0 {
        0
    } else {
        let h = highest_value(plays.drop_last());
        let v = plays.last().2.value as int;
        if h < v {
            v
        } else {
            h
        }
    }
}

/// How many plays on the table have a card of value `v`.
pub open spec fn count_value(plays: Seq<Play>, v: int) -> nat
    decreases plays.len(),
{
    if plays.len() == 0 {
        0
    } else {
        count_value(plays.drop_last(), v) + if plays.last().2.value as int == v {
            1nat
        } else {
            0nat
        }
    }
}

/// The numbers of the players whose card has value `v`, in table order.
pub open spec fn players_with_value(plays: Seq<Play>, v: int) -> Seq<i32>
    decreases plays.len(),
{
    if plays.len() == 0 {
        Seq::empty()
    } else {
        let rest = players_with_value(plays.drop_last(), v);
        if plays.last().2.value as int == v {
            rest.push(plays.last().0)
        } else {
            rest
        }
    }
}

/// What the 10 points of a round are divided by: the number of cards that
/// reach the highest value, plus one when that value is 0 (the count
/// starts at one before any card is seen).
pub open spec fn share_divisor(plays: Seq<Play>) -> nat {
    let h = highest_value(plays);
    count_value(plays, h) + if h == 0 {
        1nat
    } else {
        0nat
    }
}

/// The integer part of scoring a round: the highest card value, the number
/// the 10 points are divided by, and the players who share them.
pub struct RoundTally {
    pub highest: i32,
    pub divisor: usize,
    pub winners: Vec<i32>,
}

proof fn lemma_highest_bounds(plays: Seq<Play>)
    ensures
        highest_value(plays) >= 0,
        forall|j: int| 0 <= j < plays.len() ==> plays[j].2.value <= highest_value(plays),
        highest_value(plays) == 0 || exists|j: int|
            0 <= j < plays.len() && plays[j].2.value == highest_value(plays),
        highest_value(plays) <= i32::MAX,
    decreases plays.len(),
{
    if plays.len() > 0 {
        let rest = plays.drop_last();
        lemma_highest_bounds(rest);
        assert forall|j: int| 0 <= j < plays.len() implies plays[j].2.value <= highest_value(
            plays,
        ) by {
            if j < plays.len() - 1 {
                assert(plays[j] == rest[j]);
            }
        }
        if highest_value(plays) != 0 {
            if highest_value(rest) < plays.last().2.value {
                assert(plays[plays.len() - 1].2.value == highest_value(plays));
            } else {
                let j = choose|j: int| 0 <= j < rest.len() && rest[j].2.value == highest_value(rest);
                assert(plays[j] == rest[j]);
            }
        }
    }
}

proof fn lemma_count_above(plays: Seq<Play>, v: int)
    requires
        forall|j: int| 0 <= j < plays.len() ==> plays[j].2.value < v,
    ensures
        count_value(plays, v) == 0,
    decreases plays.len(),
{
    if plays.len() > 0 {
        let rest = plays.drop_last();
        assert forall|j: int| 0 <= j < rest.len() implies rest[j].2.value < v by {
            assert(rest[j] == plays[j]);
        }
        lemma_count_above(rest, v);
    }
}

/// Exactly the cards of value `v` make their players winners at value `v`:
/// one winner per such card.
pub proof fn lemma_winners_match_count(plays: Seq<Play>, v: int)
    ensures
        players_with_value(plays, v).len() == count_value(plays, v),
        count_value(plays, v) <= plays.len(),
    decreases plays.len(),
{
    if plays.len() > 0 {
        lemma_winners_match_count(plays.drop_last(), v);
    }
}

proof fn lemma_remove_one_play(s: Seq<Play>, i: int, v: int)
    requires
        0 <= i < s.len(),
    ensures
        count_value(s, v) == count_value(s.remove(i), v) + if s[i].2.value as int == v {
            1nat
        } else {
            0nat
        },
        players_with_value(s, v).to_multiset() == if s[i].2.value as int == v {
            players_with_value(s.remove(i), v).to_multiset().insert(s[i].0)
        } else {
            players_with_value(s.remove(i), v).to_multiset()
        },
        highest_value(s) == if highest_value(s.remove(i)) < s[i].2.value {
            s[i].2.value as int
        } else {
            highest_value(s.remove(i))
        },
    decreases s.len(),
{
    broadcast use vstd::seq_lib::group_to_multiset_ensures;

    let dl = s.drop_last();
    if i == s.len() - 1 {
        assert(s.remove(i) =~= dl);
    } else {
        lemma_remove_one_play(dl, i, v);
        let r = s.remove(i);
        assert(r.drop_last() =~= dl.remove(i));
        assert(r.last() == s.last());
        assert(dl[i] == s[i]);
        let base = players_with_value(dl.remove(i), v);
        if s.last().2.value as int == v {
            assert(players_with_value(s, v) == players_with_value(dl, v).push(s.last().0));
            assert(players_with_value(r, v) == base.push(s.last().0));
            if s[i].2.value as int == v {
                assert(base.push(s.last().0).to_multiset().insert(s[i].0) =~= base.to_multiset().insert(
                    s[i].0,
                ).insert(s.last().0));
            }
        }
    }
}

/// Normal-round scoring does not depend on the order in which the plays
/// reach the table: two tables holding the same plays, each as many times,
/// have the same highest value, the same number of cards of each value, the
/// same divisor, and the same winners (each as many times).
pub proof fn lemma_tally_ignores_play_order(plays1: Seq<Play>, plays2: Seq<Play>, v: int)
    requires
        plays1.to_multiset() == plays2.to_multiset(),
    ensures
        highest_value(plays1) == highest_value(plays2),
        count_value(plays1, v) == count_value(plays2, v),
        players_with_value(plays1, v).to_multiset() == players_with_value(plays2, v).to_multiset(),
        share_divisor(plays1) == share_divisor(plays2),
    decreases plays1.len(),
{
    broadcast use vstd::seq_lib::group_to_multiset_ensures;
    broadcast use vstd::multiset::group_multiset_axioms;

    if plays1.len() == 0 {
        assert(plays2.to_multiset().len() == 0);
        assert(plays2.len() == 0);
        assert(plays1 =~= plays2);
    } else {
        let x = plays1.last();
        let dl1 = plays1.drop_last();
        assert(plays1 =~= dl1.push(x));
        assert(plays1.to_multiset().count(x) > 0);
        assert(plays2.contains(x));
        let i = choose|i: int| 0 <= i < plays2.len() && plays2[i] == x;
        let r2 = plays2.remove(i);
        assert(r2.to_multiset() =~= dl1.to_multiset()) by {
            assert(dl1.to_multiset().insert(x).remove(x) =~= dl1.to_multiset());
        }
        lemma_tally_ignores_play_order(dl1, r2, v);
        lemma_tally_ignores_play_order(dl1, r2, highest_value(plays1));
        lemma_remove_one_play(plays1, plays1.len() - 1, v);
        lemma_remove_one_play(plays2, i, v);
        lemma_remove_one_play(plays1, plays1.len() - 1, highest_value(plays1));
        lemma_remove_one_play(plays2, i, highest_value(plays1));
        assert(plays1.remove(plays1.len() - 1) =~= dl1);
    }
}

proof fn lemma_players_with_value_members(plays: Seq<Play>, v: int)
    ensures
        forall|j: int|
            0 <= j < plays.len() && plays[j].2.value == v ==> players_with_value(
                plays,
                v,
            ).contains(#[trigger] plays[j].0),
        forall|x: int|
            #![trigger players_with_value(plays, v)[x]]
            0 <= x < players_with_value(plays, v).len() ==> exists|j: int|
                0 <= j < plays.len() && plays[j].0 == players_with_value(plays, v)[x]
                    && plays[j].2.value == v,
    decreases plays.len(),
{
    if plays.len() > 0 {
        let rest = plays.drop_last();
        lemma_players_with_value_members(rest, v);
        let w = players_with_value(plays, v);
        let wr = players_with_value(rest, v);
        if plays.last().2.value as int == v {
            assert(w == wr.push(plays.last().0));
        } else {
            assert(w == wr);
        }
        assert forall|j: int| 0 <= j < plays.len() && plays[j].2.value == v implies w.contains(
            #[trigger] plays[j].0,
        ) by {
            if j < rest.len() {
                assert(rest[j] == plays[j]);
                assert(wr.contains(rest[j].0));
                let y = choose|y: int| 0 <= y < wr.len() && wr[y] == rest[j].0;
                assert(w[y] == wr[y]);
            } else {
                assert(w[w.len() - 1] == plays[j].0);
            }
        }
        assert forall|x: int| #![trigger w[x]] 0 <= x < w.len() implies exists|j: int|
            0 <= j < plays.len() && plays[j].0 == w[x] && plays[j].2.value == v by {
            lemma_member_witness(plays, v, x);
        }
    } else {
        assert(players_with_value(plays, v).len() == 0);
    }
}

proof fn lemma_member_witness(plays: Seq<Play>, v: int, x: int)
    requires
        0 <= x < players_with_value(plays, v).len(),
    ensures
        exists|j: int|
            0 <= j < plays.len() && plays[j].0 == players_with_value(plays, v)[x]
                && plays[j].2.value == v,
    decreases plays.len(),
{
    let rest = plays.drop_last();
    let w = players_with_value(plays, v);
    let wr = players_with_value(rest, v);
    if plays.last().2.value as int == v {
        assert(w == wr.push(plays.last().0));
    } else {
        assert(w == wr);
    }
    if x < wr.len() {
        lemma_member_witness(rest, v, x);
        let j = choose|j: int| 0 <= j < rest.len() && rest[j].0 == wr[x] && rest[j].2.value == v;
        assert(plays[j] == rest[j]);
        assert(0 <= j < plays.len() && plays[j].0 == w[x] && plays[j].2.value == v);
    } else {
        let j = plays.len() - 1;
        assert(0 <= j < plays.len() && plays[j].0 == w[x] && plays[j].2.value == v);
    }
}

/// Tallies a round as the normal-round scorer does: the highest card value
/// (at least 0), the divisor of the 10 points (the number of cards of that
/// value, one more when the highest value is 0), and the players holding a
/// card of the highest value, in table order. Each of them earns
/// `10 / divisor` points.
pub fn tally_round(plays: &Vec<Play>) -> (t: RoundTally)
    requires
        plays.len() < usize::MAX,
    ensures
        t.highest == highest_value(plays@),
        t.divisor == share_divisor(plays@),
        t.winners@ == players_with_value(plays@, t.highest as int),
        t.highest >= 0,
        forall|j: int| 0 <= j < plays.len() ==> plays@[j].2.value <= t.highest,
        t.highest > 0 ==> t.divisor == t.winners.len() && t.divisor >= 1,
        t.highest == 0 ==> t.divisor == t.winners.len() + 1,
        t.highest > 0 ==> exists|j: int| 0 <= j < plays.len() && plays@[j].2.value == t.highest,
        forall|j: int|
            0 <= j < plays.len() && plays@[j].2.value == t.highest ==> t.winners@.contains(
                #[trigger] plays@[j].0,
            ),
        forall|x: int|
            #![trigger t.winners@[x]]
            0 <= x < t.winners.len() ==> exists|j: int|
                0 <= j < plays.len() && plays@[j].0 == t.winners@[x] && plays@[j].2.value
                    == t.highest,
{
    let mut highest_score_round: i32 = 0;
    let mut number_of_highest_score_round: usize = 1;
    let mut i: usize = 0;
    while i < plays.len()
        invariant
            i <= plays.len() < usize::MAX,
            highest_score_round == highest_value(plays@.take(i as int)),
            number_of_highest_score_round == share_divisor(plays@.take(i as int)),
        decreases plays.len() - i,
    {
        let ghost prefix = plays@.take(i as int);
        let ghost next = plays@.take(i + 1);
        assert(next.drop_last() =~= prefix);
        proof {
            lemma_highest_bounds(prefix);
            lemma_winners_match_count(prefix, highest_score_round as int);
        }
        let value = plays[i].2.value;
        if highest_score_round < value {
            proof {
                lemma_count_above(prefix, value as int);
            }
            number_of_highest_score_round = 1;
            highest_score_round = value;
        } else if highest_score_round == value {
            number_of_highest_score_round = number_of_highest_score_round + 1;
        }
        i = i + 1;
    }
    assert(plays@.take(plays.len() as int) =~= plays@);
    let mut winners: Vec<i32> = Vec::new();
    let mut k: usize = 0;
    while k < plays.len()
        invariant
            k <= plays.len(),
            winners@ == players_with_value(plays@.take(k as int), highest_score_round as int),
        decreases plays.len() - k,
    {
        assert(plays@.take(k + 1).drop_last() =~= plays@.take(k as int));
        if highest_score_round == plays[k].2.value {
            winners.push(plays[k].0);
        }
        k = k + 1;
    }
    proof {
        lemma_highest_bounds(plays@);
        lemma_winners_match_count(plays@, highest_score_round as int);
        lemma_players_with_value_members(plays@, highest_score_round as int);
        if highest_score_round > 0 {
            let j = choose|j: int|
                0 <= j < plays.len() && plays@[j].2.value == highest_value(plays@);
            lemma_count_positive(plays@, highest_score_round as int, j);
        }
    }
    RoundTally {
        highest: highest_score_round,
        divisor: number_of_highest_score_round,
        winners,
    }
}

proof fn lemma_count_positive(plays: Seq<Play>, v: int, j: int)
    requires
        0 <= j < plays.len(),
        plays[j].2.value == v,
    ensures
        count_value(plays, v) >= 1,
    decreases plays.len(),
{
    if j < plays.len() - 1 {
        assert(plays.drop_last()[j] == plays[j]);
        lemma_count_positive(plays.drop_last(), v, j);
    }
}

/// The players that a rustic round rewards and punishes: the one who played
/// first, and the one at position `players_this_round - 1`, the last of the
/// round.
pub fn rustic_round_players(plays: &Vec<Play>, players_this_round: i32) -> (r: (i32, i32))
    requires
        1 <= players_this_round <= plays.len(),
    ensures
        r.0 == plays@[0].0,
        r.1 == plays@[players_this_round - 1].0,
{
    let first_player = plays[0].0;
    let last_player = plays[(players_this_round - 1) as usize].0;
    (first_player, last_player)
}

} // verus!
