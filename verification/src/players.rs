//! The players of a session, and the rule by which the czar rotates.

use crate::schema::Answer;
use vstd::prelude::*;

verus! {

/// A connected player.
#[derive(Debug, Clone, PartialEq)]
pub struct Player {
    /// The number given at login; never given twice within a session.
    pub id: usize,
    pub name: String,
    pub hand: Vec<Answer>,
    pub score: u64,
}

/// What a [`Player`] holds.
pub struct PlayerView {
    pub id: usize,
    pub name: Seq<char>,
    pub hand: Seq<Seq<char>>,
    pub score: u64,
}

impl DeepView for Player {
    type V = PlayerView;

    open spec fn deep_view(&self) -> PlayerView {
        PlayerView {
            id: self.id,
            name: self.name@,
            hand: self.hand.deep_view(),
            score: self.score,
        }
    }
}

impl View for Player {
    type V = PlayerView;

    open spec fn view(&self) -> PlayerView {
        self.deep_view()
    }
}

impl PlayerView {
    /// The number of cards that the hand lacks to be full.
    pub open spec fn shortfall(self, hand_size: usize) -> nat {
        if self.hand.len() < hand_size {
            (hand_size - self.hand.len()) as nat
        } else {
            0
        }
    }
}

/// The numbers of the players, in the order of the roster.
pub open spec fn ids_of(players: Seq<PlayerView>) -> Seq<usize> {
    Seq::new(players.len(), |i: int| players[i].id)
}

/// The player numbers rise along the roster.
pub open spec fn rising(players: Seq<PlayerView>) -> bool {
    forall|i: int, j: int| 0 <= i < j < players.len() ==> players[i].id < players[j].id
}

/// Some player of the roster has the number `id`.
pub open spec fn seated(players: Seq<PlayerView>, id: usize) -> bool {
    exists|i: int| 0 <= i < players.len() && (#[trigger] players[i]).id == id
}

/// The place in the roster of the player with the number `id`.
pub open spec fn seat(players: Seq<PlayerView>, id: usize) -> int {
    choose|i: int| 0 <= i < players.len() && (#[trigger] players[i]).id == id
}

/// Some player of the roster has the name `name`.
pub open spec fn name_taken(players: Seq<PlayerView>, name: Seq<char>) -> bool {
    exists|i: int| 0 <= i < players.len() && (#[trigger] players[i]).name == name
}

/// The cards that all hands together lack to be full.
pub open spec fn total_shortfall(players: Seq<PlayerView>, hand_size: usize) -> nat
    decreases players.len(),
{
    if players.len() == 0 {
        0
    } else {
        total_shortfall(players.drop_last(), hand_size) + players.last().shortfall(hand_size)
    }
}

/// The shortfall of the first players of a roster grows by the shortfall
/// of the next, and never exceeds that of the whole roster.
pub proof fn lemma_shortfall_step(players: Seq<PlayerView>, upto: int, hand_size: usize)
    requires
        0 <= upto < players.len(),
    ensures
        total_shortfall(players.take(upto + 1), hand_size) == total_shortfall(
            players.take(upto),
            hand_size,
        ) + players[upto].shortfall(hand_size),
        total_shortfall(players.take(upto + 1), hand_size) <= total_shortfall(players, hand_size),
    decreases players.len() - upto,
{
    assert(players.take(upto + 1).drop_last() =~= players.take(upto));
    if upto + 1 == players.len() {
        assert(players.take(upto + 1) =~= players);
    } else {
        lemma_shortfall_step(players, upto + 1, hand_size);
    }
}

/// A roster in which every hand is as it was, but for one player added at
/// the end with a full hand, lacks as many cards as before.
pub proof fn lemma_shortfall_joined(players: Seq<PlayerView>, hand_size: usize)
    requires
        players.len() > 0,
        players.last().hand.len() == hand_size,
    ensures
        total_shortfall(players, hand_size) == total_shortfall(players.drop_last(), hand_size),
{
}

/// Without one of its players a roster still has rising numbers and
/// names of its own, and seats every other player as before.
pub proof fn lemma_roster_without(players: Seq<PlayerView>, at: int)
    requires
        rising(players),
        forall|i: int, j: int|
            0 <= i < j < players.len() ==> (#[trigger] players[i]).name != (
            #[trigger] players[j]).name,
        0 <= at < players.len(),
    ensures
        rising(players.remove(at)),
        forall|i: int, j: int|
            0 <= i < j < players.remove(at).len() ==> (#[trigger] players.remove(at)[i]).name != (
            #[trigger] players.remove(at)[j]).name,
        forall|id: usize|
            seated(players.remove(at), id) <==> seated(players, id) && id != players[at].id,
{
    let less = players.remove(at);
    assert forall|i: int, j: int| 0 <= i < j < less.len() implies less[i].id < less[j].id by {
        let i0 = if i < at { i } else { i + 1 };
        let j0 = if j < at { j } else { j + 1 };
        assert(players[i0].id < players[j0].id);
    }
    assert forall|i: int, j: int| 0 <= i < j < less.len() implies (#[trigger] less[i]).name != (
    #[trigger] less[j]).name by {
        let i0 = if i < at { i } else { i + 1 };
        let j0 = if j < at { j } else { j + 1 };
        assert(players[i0].name != players[j0].name);
    }
    assert forall|id: usize| seated(less, id) <==> seated(players, id) && id != players[at].id by {
        if seated(less, id) {
            let w = choose|w: int| 0 <= w < less.len() && (#[trigger] less[w]).id == id;
            let w0 = if w < at { w } else { w + 1 };
            assert(players[w0].id == id);
            if w0 < at {
                assert(players[w0].id < players[at].id);
            } else {
                assert(players[at].id < players[w0].id);
            }
        }
        if seated(players, id) && id != players[at].id {
            let w = choose|w: int| 0 <= w < players.len() && (#[trigger] players[w]).id == id;
            let w1 = if w < at { w } else { w - 1 };
            assert(less[w1].id == id);
        }
    }
}

/// In a roster with rising numbers a player's place is determined by the
/// number.
pub proof fn lemma_seat(players: Seq<PlayerView>, id: usize, i: int)
    requires
        rising(players),
        0 <= i < players.len(),
        players[i].id == id,
    ensures
        seated(players, id),
        seat(players, id) == i,
{
    let s = seat(players, id);
    if s < i {
        assert(players[s].id < players[i].id);
    } else if i < s {
        assert(players[i].id < players[s].id);
    }
}

/// The place in the roster of the player with the number `id`, if any.
pub fn find_seat(players: &Vec<Player>, id: usize) -> (found: Option<usize>)
    ensures
        match found {
            Some(i) => i < players@.len() && players@[i as int].id == id,
            None => !seated(players.deep_view(), id),
        },
{
    let mut i: usize = 0;
    while i < players.len()
        invariant
            i <= players.len(),
            forall|j: int| 0 <= j < i ==> players@[j].id != id,
        decreases players.len() - i,
    {
        if players[i].id == id {
            return Some(i);
        }
        i += 1;
    }
    proof {
        assert forall|j: int| 0 <= j < players.deep_view().len() implies (
        #[trigger] players.deep_view()[j]).id != id by {
            assert(players@[j].id != id);
        }
    }
    None
}

/// Whether some player has the name `name`.
pub fn has_name(players: &Vec<Player>, name: &String) -> (taken: bool)
    ensures
        taken == name_taken(players.deep_view(), name@),
{
    let mut i: usize = 0;
    while i < players.len()
        invariant
            i <= players.len(),
            forall|j: int| 0 <= j < i ==> players@[j].name@ != name@,
        decreases players.len() - i,
    {
        if players[i].name == *name {
            assert(players.deep_view()[i as int].name == name@);
            return true;
        }
        i += 1;
    }
    proof {
        assert forall|j: int| 0 <= j < players.deep_view().len() implies (
        #[trigger] players.deep_view()[j]).name != name@ by {
            assert(players@[j].name@ != name@);
        }
    }
    false
}

/// `id` is the least of `ids` that is not below `from`.
pub open spec fn is_least_from(ids: Seq<usize>, from: int, id: usize) -> bool {
    &&& ids.contains(id)
    &&& id >= from
    &&& forall|k: int| 0 <= k < ids.len() && ids[k] >= from ==> id <= #[trigger] ids[k]
}

/// `czar` is the player whose turn it is to judge: the least number not
/// below `candidate`, or, where every number is below it, the least number
/// of all.
pub open spec fn is_next_czar(ids: Seq<usize>, candidate: int, czar: usize) -> bool {
    if exists|k: int| 0 <= k < ids.len() && #[trigger] ids[k] >= candidate {
        is_least_from(ids, candidate, czar)
    } else {
        is_least_from(ids, 0, czar)
    }
}

/// The number that follows the previous czar's: one more, or zero where no
/// round came before.
pub open spec fn candidate_after(previous: Option<usize>) -> int {
    match previous {
        Some(czar) => czar + 1,
        None => 0,
    }
}

/// The turn to judge falls to one player only.
pub proof fn lemma_next_czar_unique(ids: Seq<usize>, candidate: int, a: usize, b: usize)
    requires
        is_next_czar(ids, candidate, a),
        is_next_czar(ids, candidate, b),
    ensures
        a == b,
{
    let ka = choose|k: int| 0 <= k < ids.len() && ids[k] == a;
    let kb = choose|k: int| 0 <= k < ids.len() && ids[k] == b;
    assert(ids[ka] == a && ids[kb] == b);
}

/// The place whose turn follows on place `i` among `n` places in a ring.
pub open spec fn place_after(i: int, n: int) -> int {
    if i + 1 < n {
        i + 1
    } else {
        0
    }
}

/// The place whose turn it is `k` rounds after place `i`, among `n` places
/// in a ring.
pub open spec fn place_later(i: int, n: int, k: nat) -> int
    decreases k,
{
    if k == 0 {
        i
    } else {
        place_after(place_later(i, n, (k - 1) as nat), n)
    }
}

/// Among numbers that rise, the turn goes from each to the one behind it,
/// and from the last to the first.
pub proof fn lemma_turn_goes_on(ids: Seq<usize>, i: int)
    requires
        forall|a: int, b: int| 0 <= a < b < ids.len() ==> ids[a] < ids[b],
        0 <= i < ids.len(),
    ensures
        is_next_czar(ids, ids[i] + 1, ids[place_after(i, ids.len() as int)]),
{
    let n = ids.len() as int;
    let from = ids[i] + 1;
    if i + 1 < n {
        assert(ids[i + 1] >= from);
        assert forall|k: int| 0 <= k < n && ids[k] >= from implies ids[i + 1] <= #[trigger] ids[k] by {
            if k <= i {
                if k < i {
                    assert(ids[k] < ids[i]);
                }
            } else if k > i + 1 {
                assert(ids[i + 1] < ids[k]);
            }
        }
        assert(ids.contains(ids[i + 1]));
    } else {
        assert forall|k: int| 0 <= k < n implies !(#[trigger] ids[k] >= from) by {
            if k < i {
                assert(ids[k] < ids[i]);
            }
        }
        assert forall|k: int| 0 <= k < n && ids[k] >= 0 implies ids[0] <= #[trigger] ids[k] by {
            if k > 0 {
                assert(ids[0] < ids[k]);
            }
        }
        assert(ids.contains(ids[0]));
    }
}

/// Round after round, the turn moves on by one place in the ring.
pub proof fn lemma_place_later(i: int, n: int, k: nat)
    requires
        0 <= i < n,
        k <= n,
    ensures
        place_later(i, n, k) == if i + k < n {
            i + k
        } else {
            i + k - n
        },
    decreases k,
{
    if k > 0 {
        lemma_place_later(i, n, (k - 1) as nat);
    }
}

/// The turn after `k` rounds falls to a place of the roster, and the turn
/// after it is the next czar's by the rule of rotation.
pub proof fn lemma_later_turn(ids: Seq<usize>, i: int, k: nat)
    requires
        forall|a: int, b: int| 0 <= a < b < ids.len() ==> ids[a] < ids[b],
        0 <= i < ids.len(),
        k < ids.len(),
    ensures
        0 <= place_later(i, ids.len() as int, k) < ids.len(),
        0 <= place_later(i, ids.len() as int, k + 1) < ids.len(),
        is_next_czar(
            ids,
            ids[place_later(i, ids.len() as int, k)] + 1,
            ids[place_later(i, ids.len() as int, k + 1)],
        ),
{
    let n = ids.len() as int;
    lemma_place_later(i, n, k);
    lemma_place_later(i, n, k + 1);
    let at = place_later(i, n, k);
    assert(place_later(i, n, k + 1) == place_after(at, n));
    lemma_turn_goes_on(ids, at);
}

/// Within as many rounds as there are players no player is czar twice.
pub proof fn lemma_turns_differ(ids: Seq<usize>, i: int, k: nat, l: nat)
    requires
        forall|a: int, b: int| 0 <= a < b < ids.len() ==> ids[a] < ids[b],
        0 <= i < ids.len(),
        1 <= k < l <= ids.len(),
    ensures
        ids[place_later(i, ids.len() as int, k)] != ids[place_later(i, ids.len() as int, l)],
{
    let n = ids.len() as int;
    lemma_place_later(i, n, k);
    lemma_place_later(i, n, l);
    let a = place_later(i, n, k);
    let b = place_later(i, n, l);
    assert(0 <= a < n && 0 <= b < n && a != b);
    if a < b {
        assert(ids[a] < ids[b]);
    } else {
        assert(ids[b] < ids[a]);
    }
}

/// Within as many rounds as there are players the turn comes to every
/// place: to place `j` after the number of rounds returned.
pub proof fn lemma_turn_reaches(n: int, i: int, j: int) -> (k: nat)
    requires
        0 <= i < n,
        0 <= j < n,
    ensures
        1 <= k <= n,
        place_later(i, n, k) == j,
{
    let k: nat = if j > i {
        (j - i) as nat
    } else {
        (j - i + n) as nat
    };
    lemma_place_later(i, n, k);
    k
}

/// The czars of as many rounds as there are players, one after the other,
/// where the czar before them was the player at place `i`.
pub open spec fn czars_after(ids: Seq<usize>, i: int) -> Seq<usize> {
    Seq::new(ids.len(), |k: int| ids[place_later(i, ids.len() as int, (k + 1) as nat)])
}

/// With a roster that stays, as many rounds as there are players make
/// each player czar once: the czars of these rounds follow one another by
/// the rule of rotation, they all differ, and every player is among them.
pub proof fn lemma_each_czar_once(ids: Seq<usize>, i: int)
    requires
        forall|a: int, b: int| 0 <= a < b < ids.len() ==> ids[a] < ids[b],
        0 <= i < ids.len(),
    ensures
        is_next_czar(ids, ids[i] + 1, czars_after(ids, i)[0]),
        forall|k: int, l: int|
            0 <= k && l == k + 1 && l < ids.len() ==> is_next_czar(
                ids,
                (#[trigger] czars_after(ids, i)[k]) + 1,
                #[trigger] czars_after(ids, i)[l],
            ),
        czars_after(ids, i).no_duplicates(),
        forall|j: int| 0 <= j < ids.len() ==> czars_after(ids, i).contains(#[trigger] ids[j]),
{
    let n = ids.len() as int;
    let czars = czars_after(ids, i);
    lemma_later_turn(ids, i, 0);
    assert forall|k: int, l: int| 0 <= k && l == k + 1 && l < ids.len() implies is_next_czar(
        ids,
        (#[trigger] czars[k]) + 1,
        #[trigger] czars[l],
    ) by {
        lemma_later_turn(ids, i, (k + 1) as nat);
    }
    assert forall|k: int, l: int| 0 <= k < czars.len() && 0 <= l < czars.len() && k
        != l implies czars[k] != czars[l] by {
        if k < l {
            lemma_turns_differ(ids, i, (k + 1) as nat, (l + 1) as nat);
        } else {
            lemma_turns_differ(ids, i, (l + 1) as nat, (k + 1) as nat);
        }
    }
    assert forall|j: int| 0 <= j < ids.len() implies czars.contains(#[trigger] ids[j]) by {
        let k = lemma_turn_reaches(n, i, j);
        assert(czars[k - 1] == ids[j]);
    }
}

/// Picks the next czar among `ids`, given the czar of the round before:
/// the least number above the previous czar's, or the least of all where
/// none is above it or no round came before. `None` where there is no
/// player.
pub fn next_czar(ids: &[usize], previous: Option<usize>) -> (czar: Option<usize>)
    ensures
        match czar {
            Some(id) => is_next_czar(ids@, candidate_after(previous), id),
            None => ids@.len() == 0,
        },
{
    let ghost from = candidate_after(previous);
    let mut least: Option<usize> = None;
    let mut least_above: Option<usize> = None;
    let mut i: usize = 0;
    while i < ids.len()
        invariant
            i <= ids.len(),
            from == candidate_after(previous),
            match least {
                Some(id) => is_least_from(ids@.take(i as int), 0, id),
                None => i == 0,
            },
            match least_above {
                Some(id) => is_least_from(ids@.take(i as int), from, id),
                None => forall|k: int| 0 <= k < i ==> ids@[k] < from,
            },
        decreases ids.len() - i,
    {
        let id = ids[i];
        let ghost seen = ids@.take(i as int);
        let ghost more = ids@.take(i + 1);
        proof {
            assert(more[i as int] == id);
            assert forall|k: int| 0 <= k < i implies more[k] == seen[k] by {}
        }
        let above = match previous {
            Some(p) => id > p,
            None => true,
        };
        match least {
            Some(best) => {
                if id < best {
                    least = Some(id);
                } else {
                    proof {
                        let w = choose|w: int| 0 <= w < seen.len() && seen[w] == best;
                        assert(more[w] == best);
                    }
                }
            },
            None => {
                least = Some(id);
            },
        }
        if above {
            match least_above {
                Some(best) => {
                    if id < best {
                        least_above = Some(id);
                    } else {
                        proof {
                            let w = choose|w: int| 0 <= w < seen.len() && seen[w] == best;
                            assert(more[w] == best);
                        }
                    }
                },
                None => {
                    least_above = Some(id);
                },
            }
        } else {
            proof {
                if least_above is Some {
                    let best = least_above->0;
                    let w = choose|w: int| 0 <= w < seen.len() && seen[w] == best;
                    assert(more[w] == best);
                }
            }
        }
        i += 1;
    }
    proof {
        assert(ids@.take(i as int) =~= ids@);
    }
    match least_above {
        Some(id) => {
            proof {
                let w = choose|w: int| 0 <= w < ids@.len() && ids@[w] == id;
                assert(ids@[w] >= from);
            }
            Some(id)
        },
        None => least,
    }
}

} // verus!
