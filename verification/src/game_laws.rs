//! Laws of the session: no card is made up and none is lost.
//!
//! A session is sound when, for each supply, the cards in the hands and
//! with the round are exactly the cards that the supply has checked out.
//! Every operation keeps a sound session sound, and in a sound session no
//! supply ever refuses a discard.

use crate::deck::{DeckError, DeckView};
use crate::deck_laws::{
    handed_out, lemma_discard_all, lemma_discards_conserve, lemma_draw_conserves,
    lemma_draws_conserve, lemma_filled_conserves, lemma_reset_conserves,
};
use crate::game::GameError;
use crate::game_view::GameView;
use crate::players::{ids_of, lemma_roster_without, seat, seated, PlayerView};
use crate::round::{
    first_in, flat, lemma_some_first_in, pending_lists, submitted_cards, without,
};
use crate::schema::PromptView;
use vstd::multiset::Multiset;
use vstd::prelude::*;

verus! {

/// A session stays sound where the supplies stay well formed, the players
/// keep their places, numbers and names, the next number does not fall,
/// and the round, if there is one, names players of the roster as before.
pub proof fn lemma_wf_kept(before: GameView, after: GameView)
    requires
        before.wf(),
        after.prompts.wf(),
        after.answers.wf(),
        after.next_id >= before.next_id,
        after.players.len() == before.players.len(),
        forall|i: int|
            0 <= i < before.players.len() ==> (#[trigger] after.players[i]).id
                == before.players[i].id && after.players[i].name == before.players[i].name,
        after.round matches Some(round) ==> {
            &&& seated(before.players, round.czar)
            &&& round.answers.dom().finite()
            &&& forall|player: usize|
                (#[trigger] round.answers.contains_key(player)) ==> seated(before.players, player)
                    && player != round.czar
        },
    ensures
        after.wf(),
{
    assert forall|i: int, j: int| 0 <= i < j < after.players.len() implies after.players[i].id
        < after.players[j].id by {
        assert(before.players[i].id < before.players[j].id);
    }
    assert forall|i: int, j: int| 0 <= i < j < after.players.len() implies (
    #[trigger] after.players[i]).name != (#[trigger] after.players[j]).name by {
        assert(before.players[i].name != before.players[j].name);
    }
    assert forall|i: int| 0 <= i < after.players.len() implies (#[trigger] after.players[i]).id
        < after.next_id by {
        assert(before.players[i].id < before.next_id);
    }
    assert forall|id: usize| seated(before.players, id) implies seated(after.players, id) by {
        let w = choose|w: int| 0 <= w < before.players.len() && (#[trigger] before.players[w]).id
            == id;
        assert(after.players[w].id == id);
    }
}

/// An answer that is taken leaves the session sound in its structure.
pub proof fn lemma_answered_wf(game: GameView, player: usize, cards: Seq<Seq<char>>)
    requires
        game.wf(),
        game.answer_violation(player, cards) is None,
    ensures
        game.answered(player, cards).wf(),
{
    let after = game.answered(player, cards);
    let round = game.round->0;
    assert forall|who: usize| #[trigger] (after.round->0).answers.contains_key(who) implies seated(
        game.players,
        who,
    ) && who != round.czar by {
        if who != player {
            assert(round.answers.contains_key(who));
        }
    }
    lemma_wf_kept(game, after);
}

/// A player who joins leaves the session sound in its structure.
pub proof fn lemma_joined_wf(game: GameView, after: GameView, name: Seq<char>)
    requires
        game.wf(),
        game.next_id < usize::MAX,
        game.login_rejection(name) is None,
        game.joined(after, name),
        after.answers.wf(),
    ensures
        after.wf(),
        forall|i: int| 0 <= i < game.players.len() ==> #[trigger] after.players[i] == game.players[i],
{
    assert forall|i: int| 0 <= i < game.players.len() implies #[trigger] after.players[i]
        == game.players[i] by {
        assert(after.players.drop_last()[i] == game.players[i]);
    }
    assert forall|i: int, j: int| 0 <= i < j < after.players.len() implies after.players[i].id
        < after.players[j].id by {
        assert(after.players[i] == game.players[i]);
        if j < game.players.len() {
            assert(after.players[j] == game.players[j]);
            assert(game.players[i].id < game.players[j].id);
        }
    }
    assert forall|i: int, j: int| 0 <= i < j < after.players.len() implies (
    #[trigger] after.players[i]).name != (#[trigger] after.players[j]).name by {
        assert(after.players[i] == game.players[i]);
        if j < game.players.len() {
            assert(after.players[j] == game.players[j]);
            assert(game.players[i].name != game.players[j].name);
        }
    }
    assert forall|i: int| 0 <= i < after.players.len() implies (#[trigger] after.players[i]).id
        < after.next_id by {
        if i < game.players.len() {
            assert(after.players[i] == game.players[i]);
        }
    }
    assert forall|who: usize| seated(game.players, who) implies seated(after.players, who) by {
        let w = choose|w: int| 0 <= w < game.players.len() && (#[trigger] game.players[w]).id
            == who;
        assert(after.players[w] == game.players[w]);
    }
}

/// A player who goes away leaves the session sound in its structure.
pub proof fn lemma_departed_wf(game: GameView, player: usize)
    requires
        game.wf(),
        seated(game.players, player),
        game.departed(player) is Ok,
    ensures
        (game.departed(player)->Ok_0).wf(),
{
    let at = seat(game.players, player);
    let bare = game.players.remove(at);
    let less = game.departed(player)->Ok_0;
    lemma_roster_without(game.players, at);
    lemma_discard_all(game.answers, game.players[at].hand + game.pending(player));
    assert(less.players.len() == bare.len());
    assert forall|i: int| 0 <= i < bare.len() implies (#[trigger] less.players[i]).id
        == bare[i].id && less.players[i].name == bare[i].name && bare[i].id < game.next_id by {
        let i0 = if i < at { i } else { i + 1 };
        assert(game.players[i0].id < game.next_id);
    }
    assert forall|i: int, j: int| 0 <= i < j < less.players.len() implies less.players[i].id
        < less.players[j].id by {
        assert(bare[i].id < bare[j].id);
    }
    assert forall|i: int, j: int| 0 <= i < j < less.players.len() implies (
    #[trigger] less.players[i]).name != (#[trigger] less.players[j]).name by {
        assert(bare[i].name != bare[j].name);
    }
    assert forall|who: usize| seated(bare, who) implies seated(less.players, who) by {
        let w = choose|w: int| 0 <= w < bare.len() && (#[trigger] bare[w]).id == who;
        assert(less.players[w].id == who);
    }
    match game.round {
        None => {},
        Some(round) => {
            if round.czar == player {
                lemma_discard_all(game.prompts, seq![round.prompt]);
            } else {
                let rest = (less.round->0).answers;
                assert forall|who: usize| #[trigger] rest.contains_key(who) implies seated(
                    less.players,
                    who,
                ) && who != round.czar by {
                    assert(round.answers.contains_key(who));
                }
            }
        },
    }
}

/// All cards in the hands of the players.
pub open spec fn hands_held(players: Seq<PlayerView>) -> Multiset<Seq<char>>
    decreases players.len(),
{
    if players.len() == 0 {
        Multiset::empty()
    } else {
        hands_held(players.drop_last()).add(players.last().hand.to_multiset())
    }
}

impl GameView {
    /// All answers with the players and the round: those in the hands and
    /// those handed in.
    pub open spec fn held(self) -> Multiset<Seq<char>> {
        hands_held(self.players).add(
            match self.round {
                Some(round) => handed_out(pending_lists(self.players, round.answers)),
                None => Multiset::empty(),
            },
        )
    }

    /// The prompt with the round, if there is one.
    pub open spec fn prompt_held(self) -> Multiset<PromptView> {
        match self.round {
            Some(round) => Multiset::empty().insert(round.prompt),
            None => Multiset::empty(),
        }
    }

    /// The session is sound: it is sound in its structure, no supply has a
    /// card twice, and the cards with the players and the round are exactly
    /// the cards that the supplies have checked out.
    pub open spec fn sound(self) -> bool {
        &&& self.wf()
        &&& self.prompts.cards.no_duplicates()
        &&& self.answers.cards.no_duplicates()
        &&& self.prompts.lends(self.prompt_held())
        &&& self.answers.lends(self.held())
    }
}

/// Changing one player changes the cards in the hands by that hand only.
pub proof fn lemma_hands_held_update(players: Seq<PlayerView>, at: int, player: PlayerView)
    requires
        0 <= at < players.len(),
    ensures
        hands_held(players.update(at, player)).add(players[at].hand.to_multiset()) == hands_held(
            players,
        ).add(player.hand.to_multiset()),
    decreases players.len(),
{
    broadcast use vstd::multiset::group_multiset_axioms;

    let changed = players.update(at, player);
    assert(changed.len() == players.len());
    if at == players.len() - 1 {
        assert(changed.drop_last() =~= players.drop_last());
        assert(changed.last() == player);
        assert(players.last() == players[at]);
    } else {
        assert(changed.drop_last() =~= players.drop_last().update(at, player));
        assert(changed.last() == players.last());
        assert(players.drop_last()[at] == players[at]);
        lemma_hands_held_update(players.drop_last(), at, player);
        let less = players.drop_last();
        assert forall|v: Seq<char>|
            hands_held(changed).add(players[at].hand.to_multiset()).count(v) == hands_held(
                players,
            ).add(player.hand.to_multiset()).count(v) by {
            assert(hands_held(less.update(at, player)).add(players[at].hand.to_multiset()).count(v)
                == hands_held(less).add(player.hand.to_multiset()).count(v));
        }
    }
    assert(hands_held(changed).add(players[at].hand.to_multiset()) =~= hands_held(players).add(
        player.hand.to_multiset(),
    ));
}

/// Without one player the hands hold that hand less.
pub proof fn lemma_hands_held_remove(players: Seq<PlayerView>, at: int)
    requires
        0 <= at < players.len(),
    ensures
        hands_held(players.remove(at)).add(players[at].hand.to_multiset()) == hands_held(players),
    decreases players.len(),
{
    broadcast use vstd::multiset::group_multiset_axioms;

    let less = players.remove(at);
    if at == players.len() - 1 {
        assert(less =~= players.drop_last());
    } else {
        assert(less.drop_last() =~= players.drop_last().remove(at));
        assert(less.last() == players.last());
        lemma_hands_held_remove(players.drop_last(), at);
    }
    assert(hands_held(less).add(players[at].hand.to_multiset()) =~= hands_held(players));
}

/// Where each hand grew by a list of cards, the hands hold those lists
/// more.
pub proof fn lemma_hands_held_grown(
    before: Seq<PlayerView>,
    after: Seq<PlayerView>,
    outs: Seq<Seq<Seq<char>>>,
)
    requires
        after.len() == before.len(),
        outs.len() == before.len(),
        forall|i: int| 0 <= i < before.len() ==> (#[trigger] after[i]).hand == before[i].hand + outs[i],
    ensures
        hands_held(after) == hands_held(before).add(handed_out(outs)),
    decreases before.len(),
{
    broadcast use vstd::multiset::group_multiset_axioms;
    broadcast use vstd::seq_lib::lemma_multiset_commutative;

    if before.len() == 0 {
        assert(hands_held(after) =~= hands_held(before).add(handed_out(outs)));
    } else {
        assert forall|i: int| 0 <= i < before.drop_last().len() implies (
        #[trigger] after.drop_last()[i]).hand == before.drop_last()[i].hand + outs.drop_last()[i] by {
            assert(after[i].hand == before[i].hand + outs[i]);
        }
        lemma_hands_held_grown(before.drop_last(), after.drop_last(), outs.drop_last());
        assert(after.last().hand == before.last().hand + outs.last()) by {
            assert(after[before.len() - 1].hand == before[before.len() - 1].hand + outs[before.len()
                - 1]);
        }
        assert(hands_held(after) =~= hands_held(before).add(handed_out(outs)));
    }
}

/// Where every hand is empty, the hands hold nothing.
pub proof fn lemma_hands_held_empty(players: Seq<PlayerView>)
    requires
        forall|i: int| 0 <= i < players.len() ==> (#[trigger] players[i]).hand.len() == 0,
    ensures
        hands_held(players) == Multiset::<Seq<char>>::empty(),
    decreases players.len(),
{
    broadcast use vstd::multiset::group_multiset_axioms;
    broadcast use vstd::seq_lib::group_to_multiset_ensures;

    if players.len() > 0 {
        assert forall|i: int| 0 <= i < players.drop_last().len() implies (
        #[trigger] players.drop_last()[i]).hand.len() == 0 by {
            assert(players[i].hand.len() == 0);
        }
        lemma_hands_held_empty(players.drop_last());
        assert(players[players.len() - 1].hand.len() == 0);
        assert(players.last().hand.to_multiset().len() == 0);
        assert(players.last().hand.to_multiset() =~= Multiset::empty());
        assert(hands_held(players) =~= Multiset::<Seq<char>>::empty());
    }
}

/// Lists that are all empty hand out nothing.
pub proof fn lemma_handed_out_nothing<V>(outs: Seq<Seq<V>>)
    requires
        forall|i: int| 0 <= i < outs.len() ==> (#[trigger] outs[i]).len() == 0,
    ensures
        handed_out(outs) == Multiset::<V>::empty(),
    decreases outs.len(),
{
    broadcast use vstd::multiset::group_multiset_axioms;
    broadcast use vstd::seq_lib::group_to_multiset_ensures;

    if outs.len() > 0 {
        assert forall|i: int| 0 <= i < outs.drop_last().len() implies (
        #[trigger] outs.drop_last()[i]).len() == 0 by {
            assert(outs[i].len() == 0);
        }
        lemma_handed_out_nothing(outs.drop_last());
        assert(outs[outs.len() - 1].len() == 0);
        assert(outs.last().to_multiset().len() == 0);
        assert(outs.last().to_multiset() =~= Multiset::empty());
        assert(handed_out(outs) =~= Multiset::<V>::empty());
    }
}

/// Changing one list changes what the lists hand out by that list only.
pub proof fn lemma_handed_out_update<V>(outs: Seq<Seq<V>>, at: int, list: Seq<V>)
    requires
        0 <= at < outs.len(),
    ensures
        handed_out(outs.update(at, list)).add(outs[at].to_multiset()) == handed_out(outs).add(
            list.to_multiset(),
        ),
    decreases outs.len(),
{
    broadcast use vstd::multiset::group_multiset_axioms;

    let changed = outs.update(at, list);
    assert(changed.len() == outs.len());
    if at == outs.len() - 1 {
        assert(changed.drop_last() =~= outs.drop_last());
        assert(changed.last() == list);
        assert(outs.last() == outs[at]);
    } else {
        assert(changed.drop_last() =~= outs.drop_last().update(at, list));
        assert(changed.last() == outs.last());
        assert(outs.drop_last()[at] == outs[at]);
        lemma_handed_out_update(outs.drop_last(), at, list);
        let less = outs.drop_last();
        assert forall|v: V|
            handed_out(changed).add(outs[at].to_multiset()).count(v) == handed_out(outs).add(
                list.to_multiset(),
            ).count(v) by {
            assert(handed_out(less.update(at, list)).add(outs[at].to_multiset()).count(v)
                == handed_out(less).add(list.to_multiset()).count(v));
        }
    }
    assert(handed_out(changed).add(outs[at].to_multiset()) =~= handed_out(outs).add(
        list.to_multiset(),
    ));
}

/// Without one list the lists hand out that list less.
pub proof fn lemma_handed_out_remove<V>(outs: Seq<Seq<V>>, at: int)
    requires
        0 <= at < outs.len(),
    ensures
        handed_out(outs.remove(at)).add(outs[at].to_multiset()) == handed_out(outs),
    decreases outs.len(),
{
    broadcast use vstd::multiset::group_multiset_axioms;

    let less = outs.remove(at);
    if at == outs.len() - 1 {
        assert(less =~= outs.drop_last());
    } else {
        assert(less.drop_last() =~= outs.drop_last().remove(at));
        assert(less.last() == outs.last());
        lemma_handed_out_remove(outs.drop_last(), at);
    }
    assert(handed_out(less).add(outs[at].to_multiset()) =~= handed_out(outs));
}

/// Lists laid one after the other hold what the lists hold.
pub proof fn lemma_flat_held<V>(lists: Seq<Seq<V>>)
    ensures
        flat(lists).to_multiset() == handed_out(lists),
    decreases lists.len(),
{
    broadcast use vstd::multiset::group_multiset_axioms;
    broadcast use vstd::seq_lib::group_to_multiset_ensures;
    broadcast use vstd::seq_lib::lemma_multiset_commutative;

    if lists.len() == 0 {
        assert(flat(lists).to_multiset().len() == 0);
        assert(flat(lists).to_multiset() =~= handed_out(lists));
    } else {
        lemma_flat_held(lists.drop_last());
        assert(flat(lists).to_multiset() =~= handed_out(lists));
    }
}

/// The cards taken out of a hand and the cards left in it are together the
/// cards of the hand.
pub proof fn lemma_without_held<V>(hand: Seq<V>, cards: Seq<V>)
    requires
        without(hand, cards) is Some,
    ensures
        without(hand, cards)->0.to_multiset().add(cards.to_multiset()) == hand.to_multiset(),
    decreases cards.len(),
{
    broadcast use vstd::multiset::group_multiset_axioms;
    broadcast use vstd::seq_lib::group_to_multiset_ensures;

    if cards.len() == 0 {
        assert(cards.to_multiset().len() == 0);
        assert(cards.to_multiset() =~= Multiset::empty());
        assert(hand.to_multiset().add(cards.to_multiset()) =~= hand.to_multiset());
    } else {
        let front = cards.drop_last();
        let last = cards.last();
        lemma_without_held(hand, front);
        let rest = without(hand, front)->0;
        let w = choose|w: int| 0 <= w < rest.len() && rest[w] == last;
        lemma_some_first_in(rest, last, w);
        let at = first_in(rest, last);
        assert(rest.remove(at).to_multiset() =~= rest.to_multiset().remove(rest[at]));
        assert(front.push(last) =~= cards);
        assert(cards.to_multiset() =~= front.to_multiset().insert(last));
        assert(rest.to_multiset().count(last) > 0);
        assert(rest.remove(at).to_multiset().add(cards.to_multiset()) =~= hand.to_multiset());
    }
}

/// A session without players and without a round, whose supplies have all
/// their cards in the discard piles and no card twice, is sound.
pub proof fn lemma_new_sound(game: GameView)
    requires
        game.prompts == DeckView::filled(game.prompts.cards),
        game.answers == DeckView::filled(game.answers.cards),
        game.prompts.cards.no_duplicates(),
        game.answers.cards.no_duplicates(),
        game.prompts.cards.len() <= usize::MAX,
        game.answers.cards.len() <= usize::MAX,
        game.round is None,
        game.players.len() == 0,
    ensures
        game.sound(),
{
    broadcast use vstd::multiset::group_multiset_axioms;

    lemma_filled_conserves(game.prompts.cards);
    lemma_filled_conserves(game.answers.cards);
    assert(game.held() =~= Multiset::empty());
}

/// Seeing to the number of players keeps a sound session sound.
pub proof fn lemma_settled_sound(game: GameView)
    requires
        game.sound(),
    ensures
        game.settled().sound(),
{
    broadcast use vstd::multiset::group_multiset_axioms;

    if game.short() {
        let after = game.settled();
        lemma_reset_conserves(game.prompts);
        lemma_reset_conserves(game.answers);
        lemma_wf_kept(game, after);
        lemma_hands_held_empty(after.players);
        assert(after.held() =~= Multiset::empty());
    }
}

/// A point for a player keeps a sound session sound.
pub proof fn lemma_scored_sound(game: GameView, winner: usize)
    requires
        game.sound(),
        seated(game.players, winner),
    ensures
        game.scored(winner).sound(),
        game.scored(winner).held() == game.held(),
        game.scored(winner).cleared() is Ok <==> game.cleared() is Ok,
{
    broadcast use vstd::multiset::group_multiset_axioms;

    let after = game.scored(winner);
    let at = seat(game.players, winner);
    lemma_wf_kept(game, after);
    lemma_hands_held_update(game.players, at, after.players[at]);
    assert forall|v: Seq<char>| hands_held(after.players).count(v) == hands_held(
        game.players,
    ).count(v) by {
        assert(hands_held(after.players).add(game.players[at].hand.to_multiset()).count(v)
            == hands_held(game.players).add(after.players[at].hand.to_multiset()).count(v));
    }
    assert(hands_held(after.players) =~= hands_held(game.players));
    if game.round is Some {
        assert(pending_lists(after.players, (game.round->0).answers) =~= pending_lists(
            game.players,
            (game.round->0).answers,
        ));
    }
    assert(after.held() =~= game.held());
}

/// An answer handed in keeps a sound session sound: the cards only move
/// from the hand to the round.
pub proof fn lemma_answered_sound(game: GameView, player: usize, cards: Seq<Seq<char>>)
    requires
        game.sound(),
        game.answer_violation(player, cards) is None,
    ensures
        game.answered(player, cards).sound(),
        game.answered(player, cards).held() == game.held(),
{
    broadcast use vstd::multiset::group_multiset_axioms;
    broadcast use vstd::seq_lib::group_to_multiset_ensures;

    let after = game.answered(player, cards);
    let at = seat(game.players, player);
    let round = game.round->0;
    let lists = pending_lists(game.players, round.answers);
    let more = pending_lists(after.players, (after.round->0).answers);
    lemma_answered_wf(game, player, cards);
    lemma_hands_held_update(game.players, at, after.players[at]);
    lemma_without_held(game.players[at].hand, cards);
    assert(more =~= lists.update(at, cards)) by {
        assert forall|i: int| 0 <= i < game.players.len() implies more[i] == lists.update(
            at,
            cards,
        )[i] by {
            if i != at {
                if i < at {
                    assert(game.players[i].id < game.players[at].id);
                } else {
                    assert(game.players[at].id < game.players[i].id);
                }
            }
        }
    }
    lemma_handed_out_update(lists, at, cards);
    assert(lists[at].to_multiset().len() == 0);
    assert(lists[at].to_multiset() =~= Multiset::empty());
    assert forall|v: Seq<char>| after.held().count(v) == game.held().count(v) by {
        assert(hands_held(after.players).add(game.players[at].hand.to_multiset()).count(v)
            == hands_held(game.players).add(after.players[at].hand.to_multiset()).count(v));
        assert(after.players[at].hand.to_multiset().add(cards.to_multiset()).count(v)
            == game.players[at].hand.to_multiset().count(v));
        assert(handed_out(lists.update(at, cards)).add(lists[at].to_multiset()).count(v)
            == handed_out(lists).add(cards.to_multiset()).count(v));
    }
    assert(after.held() =~= game.held());
}

/// In a sound session the round in progress can be put away: no supply
/// refuses its cards. The session is sound afterwards.
pub proof fn lemma_cleared_sound(game: GameView)
    requires
        game.sound(),
    ensures
        game.cleared() is Ok,
        (game.cleared()->Ok_0).sound(),
        (game.cleared()->Ok_0).players == game.players,
        (game.cleared()->Ok_0).round is None,
        (game.cleared()->Ok_0).settings == game.settings,
        (game.cleared()->Ok_0).next_id == game.next_id,
{
    broadcast use vstd::multiset::group_multiset_axioms;
    broadcast use vstd::seq_lib::group_to_multiset_ensures;

    if game.round is Some {
        let round = game.round->0;
        let one = seq![round.prompt];
        assert(one.to_multiset() =~= Multiset::empty().insert(round.prompt)) by {
            assert(Seq::<PromptView>::empty().push(round.prompt) =~= one);
        }
        lemma_discards_conserve(game.prompts, one, game.prompt_held());
        let handed = submitted_cards(game.players, round.answers);
        lemma_flat_held(pending_lists(game.players, round.answers));
        lemma_discards_conserve(game.answers, handed, game.held());
        let after = game.cleared()->Ok_0;
        lemma_wf_kept(game, after);
        assert(game.prompt_held().sub(one.to_multiset()) =~= after.prompt_held());
        assert(game.held().sub(handed.to_multiset()) =~= after.held());
    }
}

/// In a sound session a round fails to start only for want of players or
/// of cards to draw: no supply refuses the cards of the round before.
pub proof fn lemma_start_failure(game: GameView)
    requires
        game.sound(),
    ensures
        match game.start_failure() {
            Some(e) => e == GameError::NoPlayers || e == GameError::Prompts(
                DeckError::SupplyExhausted,
            ) || e == GameError::Answers(DeckError::SupplyExhausted),
            None => true,
        },
{
    lemma_cleared_sound(game);
}

/// The start of a round keeps a sound session sound.
pub proof fn lemma_started_sound(game: GameView, after: GameView, previous: Option<usize>)
    requires
        game.sound(),
        game.started_after(after, previous),
    ensures
        after.sound(),
{
    broadcast use vstd::multiset::group_multiset_axioms;
    broadcast use vstd::seq_lib::group_to_multiset_ensures;

    lemma_cleared_sound(game);
    let cleared = game.cleared()->Ok_0;
    let round = after.round->0;
    let one = seq![round.prompt];
    lemma_draw_conserves(cleared.prompts, after.prompts, one, cleared.prompt_held());
    assert(one.to_multiset() =~= Multiset::empty().insert(round.prompt)) by {
        assert(Seq::<PromptView>::empty().push(round.prompt) =~= one);
    }
    assert(cleared.prompt_held().add(one.to_multiset()) =~= after.prompt_held());
    let outs = game.dealt(after);
    lemma_draws_conserve(cleared.answers, after.answers, outs, cleared.held());
    assert forall|i: int| 0 <= i < game.players.len() implies (#[trigger] after.players[i]).hand
        == game.players[i].hand + outs[i] by {
        let had = game.players[i].hand.len() as int;
        assert(after.players[i].hand =~= after.players[i].hand.take(had)
            + after.players[i].hand.skip(had));
    }
    lemma_hands_held_grown(game.players, after.players, outs);
    let none = pending_lists(after.players, round.answers);
    assert forall|i: int| 0 <= i < none.len() implies (#[trigger] none[i]).len() == 0 by {}
    lemma_handed_out_nothing(none);
    assert(cleared.held().add(handed_out(outs)) =~= after.held());
    let ids = ids_of(game.players);
    let at = choose|k: int| 0 <= k < ids.len() && ids[k] == round.czar;
    assert(game.players[at].id == round.czar);
    lemma_wf_kept(game, after);
}

/// A player who joins keeps a sound session sound.
pub proof fn lemma_joined_sound(game: GameView, after: GameView, name: Seq<char>)
    requires
        game.sound(),
        game.next_id < usize::MAX,
        game.login_rejection(name) is None,
        game.joined(after, name),
    ensures
        after.sound(),
{
    broadcast use vstd::multiset::group_multiset_axioms;
    broadcast use vstd::seq_lib::group_to_multiset_ensures;

    let newcomer = after.players.last();
    lemma_draw_conserves(game.answers, after.answers, newcomer.hand, game.held());
    lemma_joined_wf(game, after, name);
    if game.round is Some {
        let answers = (game.round->0).answers;
        let lists = pending_lists(game.players, answers);
        let more = pending_lists(after.players, answers);
        assert(!answers.contains_key(newcomer.id)) by {
            if answers.contains_key(newcomer.id) {
                let w = choose|w: int| 0 <= w < game.players.len() && (
                #[trigger] game.players[w]).id == newcomer.id;
                assert(game.players[w].id < game.next_id);
            }
        }
        assert(more.drop_last() =~= lists);
        assert(more.last().to_multiset().len() == 0);
        assert(more.last().to_multiset() =~= Multiset::empty());
        assert(handed_out(more) =~= handed_out(lists));
    }
    assert(after.held() =~= game.held().add(newcomer.hand.to_multiset()));
}

/// A login keeps a sound session sound.
pub proof fn lemma_logged_in_sound(
    game: GameView,
    after: GameView,
    name: Seq<char>,
    events: Seq<(crate::game::Recipient, crate::schema::MessageView)>,
)
    requires
        game.sound(),
        game.next_id < usize::MAX,
        game.login_rejection(name) is None,
        game.logged_in(after, name, events),
    ensures
        after.sound(),
{
    let mid = choose|mid: GameView|
        (#[trigger] game.joined(mid, name)) && if game.login_starts_round() {
            &&& mid.started(after)
            &&& events == mid.welcome() + after.round_events()
        } else {
            &&& after == mid
            &&& events == mid.welcome() + mid.catch_up()
        };
    lemma_joined_sound(game, mid, name);
    if game.login_starts_round() {
        lemma_started_sound(mid, after, mid.czar());
    }
}

/// In a sound session a login fails only for want of cards to draw.
pub proof fn lemma_login_failure(game: GameView)
    ensures
        match game.login_failure() {
            Some(e) => e == GameError::Prompts(DeckError::SupplyExhausted) || e
                == GameError::Answers(DeckError::SupplyExhausted),
            None => true,
        },
{
}

/// In a sound session a player can go away: no supply refuses the cards
/// that go back. The session is sound afterwards.
pub proof fn lemma_departed_sound(game: GameView, player: usize)
    requires
        game.sound(),
        seated(game.players, player),
    ensures
        game.departed(player) is Ok,
        (game.departed(player)->Ok_0).sound(),
{
    broadcast use vstd::multiset::group_multiset_axioms;
    broadcast use vstd::seq_lib::group_to_multiset_ensures;
    broadcast use vstd::seq_lib::lemma_multiset_commutative;

    let at = seat(game.players, player);
    let gone = game.players[at];
    let own = game.pending(player);
    let back = gone.hand + own;
    let bare = game.players.remove(at);
    lemma_hands_held_remove(game.players, at);
    lemma_roster_without(game.players, at);
    match game.round {
        None => {
            assert(own.to_multiset().len() == 0);
            assert(own.to_multiset() =~= Multiset::empty());
            assert(back.to_multiset().subset_of(game.held()));
            lemma_discards_conserve(game.answers, back, game.held());
            let after = game.departed(player)->Ok_0;
            assert(after.held() =~= game.held().sub(back.to_multiset()));
        },
        Some(round) => {
            let lists = pending_lists(game.players, round.answers);
            assert(lists[at] == own);
            lemma_handed_out_remove(lists, at);
            assert(back.to_multiset().subset_of(game.held())) by {
                assert forall|v: Seq<char>| back.to_multiset().count(v) <= game.held().count(v) by {
                    assert(hands_held(bare).add(gone.hand.to_multiset()).count(v) == hands_held(
                        game.players,
                    ).count(v));
                    assert(handed_out(lists.remove(at)).add(own.to_multiset()).count(v)
                        == handed_out(lists).count(v));
                }
            }
            lemma_discards_conserve(game.answers, back, game.held());
            let left = game.held().sub(back.to_multiset());
            let after = game.departed(player)->Ok_0;
            if round.czar == player {
                let one = seq![round.prompt];
                assert(one.to_multiset() =~= Multiset::empty().insert(round.prompt)) by {
                    assert(Seq::<PromptView>::empty().push(round.prompt) =~= one);
                }
                lemma_discards_conserve(game.prompts, one, game.prompt_held());
                assert(game.prompt_held().sub(one.to_multiset()) =~= after.prompt_held());
                let given = pending_lists(bare, round.answers);
                assert(given =~= lists.remove(at));
                assert forall|i: int| 0 <= i < bare.len() implies (#[trigger] after.players[i]).hand
                    == bare[i].hand + given[i] by {}
                lemma_hands_held_grown(bare, after.players, given);
                assert forall|v: Seq<char>| after.held().count(v) == left.count(v) by {
                    assert(hands_held(bare).add(gone.hand.to_multiset()).count(v) == hands_held(
                        game.players,
                    ).count(v));
                    assert(handed_out(lists.remove(at)).add(own.to_multiset()).count(v)
                        == handed_out(lists).count(v));
                }
                assert(after.held() =~= left);
            } else {
                let rest = (after.round->0).answers;
                let kept = pending_lists(bare, rest);
                assert(kept =~= lists.remove(at)) by {
                    assert forall|i: int| 0 <= i < bare.len() implies kept[i] == lists.remove(
                        at,
                    )[i] by {
                        let i0 = if i < at { i } else { i + 1 };
                        assert(bare[i] == game.players[i0]);
                        if i0 < at {
                            assert(game.players[i0].id < game.players[at].id);
                        } else {
                            assert(game.players[at].id < game.players[i0].id);
                        }
                    }
                }
                assert forall|v: Seq<char>| after.held().count(v) == left.count(v) by {
                    assert(hands_held(bare).add(gone.hand.to_multiset()).count(v) == hands_held(
                        game.players,
                    ).count(v));
                    assert(handed_out(lists.remove(at)).add(own.to_multiset()).count(v)
                        == handed_out(lists).count(v));
                }
                assert(after.held() =~= left);
            }
        },
    }
    lemma_departed_wf(game, player);
}

/// A departure keeps a sound session sound.
pub proof fn lemma_left_sound(
    game: GameView,
    after: GameView,
    player: usize,
    events: Seq<(crate::game::Recipient, crate::schema::MessageView)>,
)
    requires
        game.sound(),
        seated(game.players, player),
        game.leave_failure(player) is None,
        game.left(after, player, events),
    ensures
        after.sound(),
{
    lemma_departed_sound(game, player);
    let less = game.departed(player)->Ok_0;
    if game.restarts(player) {
        let mid = choose|mid: GameView|
            (#[trigger] less.started_after(mid, Some(player))) && after == mid.settled();
        lemma_started_sound(less, mid, Some(player));
        lemma_settled_sound(mid);
    } else {
        lemma_settled_sound(less);
    }
}

/// In a sound session a departure fails only where the round that follows
/// cannot start for want of cards to draw.
pub proof fn lemma_leave_failure(game: GameView, player: usize)
    requires
        game.sound(),
        seated(game.players, player),
    ensures
        match game.leave_failure(player) {
            Some(e) => e == GameError::Prompts(DeckError::SupplyExhausted) || e
                == GameError::Answers(DeckError::SupplyExhausted),
            None => true,
        },
{
    lemma_departed_sound(game, player);
    let less = game.departed(player)->Ok_0;
    if game.restarts(player) {
        lemma_start_failure(less);
        assert(less.players.len() == game.players.len() - 1);
    }
}

/// In a sound session no answer is in two places: the cards of the hands
/// all differ, within a hand and from hand to hand, and none of them is
/// among the answers handed in.
pub proof fn lemma_no_card_twice(game: GameView)
    requires
        game.sound(),
    ensures
        forall|i: int| 0 <= i < game.players.len() ==> (#[trigger] game.players[i]).hand.no_duplicates(),
        forall|i: int, a: int, j: int, b: int|
            0 <= i < j < game.players.len() && 0 <= a < game.players[i].hand.len() && 0 <= b
                < game.players[j].hand.len() ==> (#[trigger] game.players[i].hand[a]) != (
            #[trigger] game.players[j].hand[b]),
        forall|i: int, a: int|
            game.round is Some && 0 <= i < game.players.len() && 0 <= a
                < game.players[i].hand.len() ==> !submitted_cards(
                game.players,
                (game.round->0).answers,
            ).contains(
                #[trigger] game.players[i].hand[a],
            ),
{
    broadcast use vstd::multiset::group_multiset_axioms;
    broadcast use vstd::seq_lib::group_to_multiset_ensures;

    let held = game.held();
    assert forall|v: Seq<char>| held.count(v) <= 1 by {
        assert(held.count(v) == if game.answers.knows(v) && game.answers.is_out(
            game.answers.position(v) as usize,
        ) {
            1nat
        } else {
            0nat
        });
    }
    assert forall|i: int| 0 <= i < game.players.len() implies (
    #[trigger] game.players[i]).hand.no_duplicates() by {
        lemma_hands_held_remove(game.players, i);
        let hand = game.players[i].hand;
        assert forall|v: Seq<char>| hand.to_multiset().contains(v) implies hand.to_multiset().count(
            v,
        ) == 1 by {
            assert(held.count(v) <= 1);
        }
        hand.lemma_multiset_has_no_duplicates_conv();
    }
    assert forall|i: int, a: int, j: int, b: int|
        0 <= i < j < game.players.len() && 0 <= a < game.players[i].hand.len() && 0 <= b
            < game.players[j].hand.len() implies (#[trigger] game.players[i].hand[a]) != (
    #[trigger] game.players[j].hand[b]) by {
        let v = game.players[i].hand[a];
        let bare = game.players.remove(i);
        lemma_hands_held_remove(game.players, i);
        assert(bare[j - 1] == game.players[j]);
        lemma_hands_held_remove(bare, j - 1);
        assert(game.players[i].hand.contains(v));
        assert(game.players[i].hand.to_multiset().count(v) > 0);
        if game.players[j].hand[b] == v {
            assert(game.players[j].hand.contains(v));
            assert(game.players[j].hand.to_multiset().count(v) > 0);
            assert(hands_held(bare).count(v) > 0);
            assert(hands_held(game.players).count(v) >= 2);
            assert(held.count(v) <= 1);
        }
    }
    assert forall|i: int, a: int|
        game.round is Some && 0 <= i < game.players.len() && 0 <= a
            < game.players[i].hand.len() implies !submitted_cards(
                game.players,
                (game.round->0).answers,
            ).contains(
        #[trigger] game.players[i].hand[a],
    ) by {
        let v = game.players[i].hand[a];
        let handed = submitted_cards(game.players, (game.round->0).answers);
        lemma_flat_held(pending_lists(game.players, (game.round->0).answers));
        lemma_hands_held_remove(game.players, i);
        assert(game.players[i].hand.contains(v));
        assert(game.players[i].hand.to_multiset().count(v) > 0);
        if handed.contains(v) {
            assert(handed.to_multiset().count(v) > 0);
            assert(held.count(v) >= 2);
            assert(held.count(v) <= 1);
        }
    }
}

} // verus!
