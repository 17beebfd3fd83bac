//! One round of play: a prompt, a czar, and the answers handed in so far.

use crate::players::{Player, PlayerView};
use crate::schema::{Answer, Prompt, PromptView};
use std::collections::HashMap;
use vstd::prelude::*;

verus! {

/// The phase of a round.
#[derive(Debug, Clone, Copy, PartialEq, Eq, Structural)]
pub enum RoundState {
    /// Players hand in their answers.
    Answering,
    /// All answers are in; the czar picks the winner.
    Judging,
}

impl DeepView for RoundState {
    type V = RoundState;

    open spec fn deep_view(&self) -> RoundState {
        *self
    }
}

/// A round in progress.
#[derive(Debug, Clone, PartialEq)]
pub struct Round {
    pub prompt: Prompt,
    pub czar: usize,
    /// The answers handed in, by the number of the player.
    pub answers: HashMap<usize, Vec<Answer>>,
    pub state: RoundState,
}

/// What a [`Round`] holds.
pub struct RoundView {
    pub prompt: PromptView,
    pub czar: usize,
    pub answers: Map<usize, Seq<Seq<char>>>,
    pub state: RoundState,
}

impl DeepView for Round {
    type V = RoundView;

    open spec fn deep_view(&self) -> RoundView {
        RoundView {
            prompt: self.prompt.deep_view(),
            czar: self.czar,
            answers: self.answers.deep_view(),
            state: self.state,
        }
    }
}

impl View for Round {
    type V = RoundView;

    open spec fn view(&self) -> RoundView {
        self.deep_view()
    }
}

/// The player `player` has handed in answers.
pub open spec fn submitted(answers: Map<usize, Seq<Seq<char>>>, player: usize) -> bool {
    answers.contains_key(player)
}

/// The cards that `player` handed in; none where the player handed in
/// nothing.
pub open spec fn pending_among(answers: Map<usize, Seq<Seq<char>>>, player: usize) -> Seq<
    Seq<char>,
> {
    if answers.contains_key(player) {
        answers[player]
    } else {
        Seq::empty()
    }
}

/// What the players handed in, player by player along the roster.
pub open spec fn pending_lists(players: Seq<PlayerView>, answers: Map<usize, Seq<Seq<char>>>) -> Seq<
    Seq<Seq<char>>,
> {
    Seq::new(players.len(), |i: int| pending_among(answers, players[i].id))
}

/// The lists one after the other.
pub open spec fn flat<V>(lists: Seq<Seq<V>>) -> Seq<V>
    decreases lists.len(),
{
    if lists.len() == 0 {
        Seq::empty()
    } else {
        flat(lists.drop_last()) + lists.last()
    }
}

/// All cards that the players of the roster handed in, player by player
/// along the roster.
pub open spec fn submitted_cards(
    players: Seq<PlayerView>,
    answers: Map<usize, Seq<Seq<char>>>,
) -> Seq<Seq<char>> {
    flat(pending_lists(players, answers))
}

/// The answers handed in are what the map holds, key by key, each list
/// taken by what its cards say.
pub proof fn lemma_answers_view(answers: HashMap<usize, Vec<Answer>>)
    ensures
        answers.deep_view().dom() == answers@.dom(),
        answers.deep_view().dom().finite(),
        forall|player: usize|
            answers@.contains_key(player) ==> #[trigger] answers.deep_view()[player]
                == answers@[player].deep_view(),
{
    broadcast use vstd::std_specs::hash::group_hash_axioms;

    vstd::std_specs::hash::lemma_hashmap_deepview_properties(answers);
    assert forall|player: usize| answers.deep_view().contains_key(player)
        <==> answers@.contains_key(player) by {
        if answers.deep_view().contains_key(player) {
            let k = choose|k: usize| k.deep_view() == player && #[trigger] answers@.contains_key(k);
            assert(k == player);
        }
        if answers@.contains_key(player) {
            assert(answers.deep_view().contains_key(player.deep_view()));
        }
    }
    assert(answers.deep_view().dom() =~= answers@.dom());
    assert forall|player: usize| answers@.contains_key(player) implies #[trigger] answers.deep_view()[player]
        == answers@[player].deep_view() by {
        assert(answers.deep_view()[player.deep_view()] == answers@[player].deep_view());
    }
}

/// Whether `player` has handed in answers.
pub fn has_submitted(answers: &HashMap<usize, Vec<Answer>>, player: usize) -> (found: bool)
    ensures
        found == submitted(answers.deep_view(), player),
{
    broadcast use vstd::std_specs::hash::group_hash_axioms;

    proof {
        lemma_answers_view(*answers);
    }
    answers.contains_key(&player)
}

/// The number of players who have handed in answers.
pub fn count_submissions(answers: &HashMap<usize, Vec<Answer>>) -> (count: usize)
    ensures
        count == answers.deep_view().len(),
        answers.deep_view().dom().finite(),
{
    broadcast use vstd::std_specs::hash::group_hash_axioms;

    proof {
        lemma_answers_view(*answers);
    }
    answers.len()
}

/// Records the answer of `player`.
pub fn record_submission(answers: &mut HashMap<usize, Vec<Answer>>, player: usize, cards: Vec<Answer>)
    ensures
        final(answers).deep_view() == old(answers).deep_view().insert(player, cards.deep_view()),
{
    broadcast use vstd::std_specs::hash::group_hash_axioms;

    let ghost before = *answers;
    answers.insert(player, cards);
    proof {
        lemma_answers_view(before);
        lemma_answers_view(*answers);
        assert(answers.deep_view() =~= before.deep_view().insert(player, cards.deep_view()));
    }
}

/// Takes back what `player` handed in, if anything.
pub fn withdraw_submission(answers: &mut HashMap<usize, Vec<Answer>>, player: usize)
    ensures
        final(answers).deep_view() == old(answers).deep_view().remove(player),
{
    broadcast use vstd::std_specs::hash::group_hash_axioms;

    let ghost before = *answers;
    answers.remove(&player);
    proof {
        lemma_answers_view(before);
        lemma_answers_view(*answers);
        assert(answers.deep_view() =~= before.deep_view().remove(player));
    }
}

/// A copy of the answers handed in.
pub fn copy_submissions(answers: &HashMap<usize, Vec<Answer>>) -> (copy: HashMap<usize, Vec<Answer>>)
    ensures
        copy.deep_view() == answers.deep_view(),
{
    let copy = answers.clone();
    proof {
        lemma_answers_view(*answers);
        lemma_answers_view(copy);
        assert(copy.deep_view() =~= answers.deep_view());
    }
    copy
}

/// A copy of a list of answers.
pub fn copy_answers(cards: &Vec<Answer>) -> (copy: Vec<Answer>)
    ensures
        copy.deep_view() == cards.deep_view(),
{
    let mut copy: Vec<Answer> = Vec::new();
    let mut i: usize = 0;
    while i < cards.len()
        invariant
            i <= cards.len(),
            copy@.len() == i,
            forall|k: int| 0 <= k < i ==> copy@[k] == cards@[k],
        decreases cards.len() - i,
    {
        copy.push(cards[i].clone());
        i += 1;
    }
    proof {
        assert(copy.deep_view() =~= cards.deep_view());
    }
    copy
}

/// A copy of the cards that `player` handed in; none where the player
/// handed in nothing.
pub fn pending_cards(answers: &HashMap<usize, Vec<Answer>>, player: usize) -> (cards: Vec<Answer>)
    ensures
        cards.deep_view() == pending_among(answers.deep_view(), player),
{
    broadcast use vstd::std_specs::hash::group_hash_axioms;

    proof {
        lemma_answers_view(*answers);
    }
    match answers.get(&player) {
        Some(found) => copy_answers(found),
        None => {
            let cards: Vec<Answer> = Vec::new();
            proof {
                assert(cards.deep_view() =~= Seq::<Seq<char>>::empty());
            }
            cards
        },
    }
}

/// The number of cards that `player` handed in.
pub fn pending_count(answers: &HashMap<usize, Vec<Answer>>, player: usize) -> (count: usize)
    ensures
        count == pending_among(answers.deep_view(), player).len(),
{
    broadcast use vstd::std_specs::hash::group_hash_axioms;

    proof {
        lemma_answers_view(*answers);
    }
    match answers.get(&player) {
        Some(found) => found.len(),
        None => 0,
    }
}

/// A copy of all cards that the players of the roster handed in, player by
/// player along the roster.
pub fn all_submitted(players: &Vec<Player>, answers: &HashMap<usize, Vec<Answer>>) -> (cards: Vec<
    Answer,
>)
    ensures
        cards.deep_view() == submitted_cards(players.deep_view(), answers.deep_view()),
{
    let ghost lists = pending_lists(players.deep_view(), answers.deep_view());
    let mut cards: Vec<Answer> = Vec::new();
    let mut i: usize = 0;
    while i < players.len()
        invariant
            i <= players.len(),
            lists == pending_lists(players.deep_view(), answers.deep_view()),
            cards.deep_view() == flat(lists.take(i as int)),
        decreases players.len() - i,
    {
        let ghost before = cards.deep_view();
        let ghost raw_before = cards@;
        let mut more = pending_cards(answers, players[i].id);
        let ghost added = more.deep_view();
        let ghost raw_more = more@;
        cards.append(&mut more);
        proof {
            assert(lists.take(i + 1).drop_last() =~= lists.take(i as int));
            assert(lists.take(i + 1).last() == lists[i as int]);
            assert(cards@ =~= raw_before + raw_more);
            assert(cards.deep_view() =~= before + added);
        }
        i += 1;
    }
    proof {
        assert(lists.take(i as int) =~= lists);
    }
    cards
}

/// `i` is the first place in `hand` that holds `card`.
pub open spec fn is_first_in<V>(hand: Seq<V>, card: V, i: int) -> bool {
    &&& 0 <= i < hand.len()
    &&& hand[i] == card
    &&& forall|j: int| 0 <= j < i ==> hand[j] != card
}

/// The first place in `hand` that holds `card`, where it holds one.
pub open spec fn first_in<V>(hand: Seq<V>, card: V) -> int {
    choose|i: int| is_first_in(hand, card, i)
}

/// The hand after each of `cards`, in order, was taken out of it: each
/// time the first card of the hand that equals it. `None` where the hand
/// no longer holds a card when its turn comes.
pub open spec fn without<V>(hand: Seq<V>, cards: Seq<V>) -> Option<Seq<V>>
    decreases cards.len(),
{
    if cards.len() == 0 {
        Some(hand)
    } else {
        match without(hand, cards.drop_last()) {
            None => None,
            Some(rest) => if rest.contains(cards.last()) {
                Some(rest.remove(first_in(rest, cards.last())))
            } else {
                None
            },
        }
    }
}

/// The first place that holds a card is determined.
pub proof fn lemma_first_in<V>(hand: Seq<V>, card: V, i: int)
    requires
        is_first_in(hand, card, i),
    ensures
        hand.contains(card),
        first_in(hand, card) == i,
{
    let f = first_in(hand, card);
    assert(is_first_in(hand, card, f));
    if f < i {
        assert(hand[f] != card);
    } else if i < f {
        assert(hand[i] != card);
    }
}

/// Once a card is missing from the hand, the whole list cannot be taken.
pub proof fn lemma_without_fails<V>(hand: Seq<V>, cards: Seq<V>, upto: int)
    requires
        0 <= upto <= cards.len(),
        without(hand, cards.take(upto)) is None,
    ensures
        without(hand, cards) is None,
    decreases cards.len() - upto,
{
    if upto == cards.len() {
        assert(cards.take(upto) =~= cards);
    } else {
        assert(cards.take(upto + 1).drop_last() =~= cards.take(upto));
        lemma_without_fails(hand, cards, upto + 1);
    }
}

/// Taking cards out of a hand leaves as many cards fewer as were taken.
pub proof fn lemma_without_len<V>(hand: Seq<V>, cards: Seq<V>)
    requires
        without(hand, cards) is Some,
    ensures
        without(hand, cards)->0.len() + cards.len() == hand.len(),
    decreases cards.len(),
{
    if cards.len() > 0 {
        lemma_without_len(hand, cards.drop_last());
        let rest = without(hand, cards.drop_last())->0;
        let w = choose|w: int| 0 <= w < rest.len() && rest[w] == cards.last();
        lemma_some_first_in(rest, cards.last(), w);
    }
}

/// Where a hand holds a card, a first place holds it.
pub proof fn lemma_some_first_in<V>(hand: Seq<V>, card: V, at: int)
    requires
        0 <= at < hand.len(),
        hand[at] == card,
    ensures
        is_first_in(hand, card, first_in(hand, card)),
    decreases at,
{
    if exists|j: int| 0 <= j < at && hand[j] == card {
        let j = choose|j: int| 0 <= j < at && hand[j] == card;
        lemma_some_first_in(hand, card, j);
    } else {
        assert(is_first_in(hand, card, at));
    }
}

/// The place of the first card of `hand` that equals `card`, if any.
fn find_card(hand: &Vec<Answer>, card: &Answer) -> (found: Option<usize>)
    ensures
        match found {
            Some(i) => is_first_in(hand.deep_view(), card.deep_view(), i as int),
            None => !hand.deep_view().contains(card.deep_view()),
        },
{
    let mut i: usize = 0;
    while i < hand.len()
        invariant
            i <= hand.len(),
            forall|j: int| 0 <= j < i ==> hand.deep_view()[j] != card.deep_view(),
        decreases hand.len() - i,
    {
        if hand[i] == *card {
            return Some(i);
        }
        i += 1;
    }
    None
}

/// Takes `cards` out of a copy of `hand`, or says that the hand does not
/// hold them all.
pub fn take_cards(hand: &Vec<Answer>, cards: &Vec<Answer>) -> (rest: Option<Vec<Answer>>)
    ensures
        rest.deep_view() == without(hand.deep_view(), cards.deep_view()),
{
    let ghost list = cards.deep_view();
    let mut rest = copy_answers(hand);
    let mut k: usize = 0;
    while k < cards.len()
        invariant
            k <= cards.len(),
            list == cards.deep_view(),
            without(hand.deep_view(), list.take(k as int)) == Some(rest.deep_view()),
        decreases cards.len() - k,
    {
        proof {
            assert(list.take(k + 1).drop_last() =~= list.take(k as int));
            assert(list.take(k + 1).last() == cards@[k as int].deep_view());
        }
        match find_card(&rest, &cards[k]) {
            None => {
                proof {
                    lemma_without_fails(hand.deep_view(), list, k + 1);
                }
                return None;
            },
            Some(i) => {
                let ghost before = rest.deep_view();
                proof {
                    lemma_first_in(before, list[k as int], i as int);
                }
                rest.remove(i);
                proof {
                    assert(rest.deep_view() =~= before.remove(i as int));
                }
            },
        }
        k += 1;
    }
    proof {
        assert(list.take(k as int) =~= list);
    }
    Some(rest)
}

} // verus!
