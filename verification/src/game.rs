//! The session: two card supplies, the roster of players and the round in
//! progress, and the rules by which logins, answers, judgements and
//! departures change them.
//!
//! Every operation either takes effect as a whole or leaves the session as
//! it was. What it has to tell the players it returns as a list of
//! [`Outgoing`] messages, for the caller to deliver.

use crate::deck::{Deck, DeckError, DeckView};
use crate::deck_laws::{lemma_discard_all, lemma_filled_conserves};
use crate::deck_laws::lemma_drew_nothing;
use crate::game_laws::{
    lemma_answered_sound, lemma_answered_wf, lemma_departed_wf, lemma_joined_wf,
    lemma_left_sound, lemma_logged_in_sound, lemma_new_sound, lemma_scored_sound,
    lemma_settled_sound, lemma_started_sound, lemma_wf_kept,
};
use crate::game_view::{round_notice, scores_of, GameView};
use crate::players::{
    find_seat, has_name, ids_of, lemma_roster_without, lemma_seat, lemma_shortfall_joined,
    lemma_shortfall_step, next_czar, seated, total_shortfall, Player, PlayerView,
};
use crate::round::{
    all_submitted, copy_answers, copy_submissions, count_submissions, has_submitted,
    pending_among, pending_cards, pending_count, record_submission, take_cards,
    withdraw_submission, Round, RoundState,
};
use crate::schema::{
    lemma_answer_cards, lemma_prompt_cards, Answer, LoginRejectedReason, Message, MessageView,
    Prompt, PromptView, Role,
};
use std::collections::HashMap;
use vstd::prelude::*;

verus! {

/// The usual number of cards in a hand.
pub const N_CARDS_IN_HAND: usize = 4;

/// The usual number of players below which no round is played.
pub const MIN_N_PLAYERS: usize = 3;

/// The usual number of players above which logins are turned down.
pub const MAX_N_PLAYERS: usize = 3;

/// What can be tuned about a session.
#[derive(Debug, Clone, Copy, PartialEq, Eq, Structural)]
pub struct Settings {
    /// The number of cards to which hands are filled up.
    pub hand_size: usize,
    /// The number of players below which no round is played.
    pub min_players: usize,
    /// The number of players at which logins are turned down.
    pub max_players: usize,
}

impl Default for Settings {
    fn default() -> (settings: Settings)
        ensures
            settings == (Settings {
                hand_size: N_CARDS_IN_HAND,
                min_players: MIN_N_PLAYERS,
                max_players: MAX_N_PLAYERS,
            }),
    {
        Settings {
            hand_size: N_CARDS_IN_HAND,
            min_players: MIN_N_PLAYERS,
            max_players: MAX_N_PLAYERS,
        }
    }
}

/// To whom a message goes.
#[derive(Debug, Clone, Copy, PartialEq, Eq, Structural)]
pub enum Recipient {
    /// The player with this number.
    Player(usize),
    /// Every player of the roster as the operation leaves it.
    Everyone,
    /// Every player of the roster as the operation leaves it, but for the
    /// player with this number.
    EveryoneBut(usize),
}

/// A message for the caller to deliver.
#[derive(Debug, Clone, PartialEq)]
pub struct Outgoing {
    pub to: Recipient,
    pub message: Message,
}

impl DeepView for Outgoing {
    type V = (Recipient, MessageView);

    open spec fn deep_view(&self) -> (Recipient, MessageView) {
        (self.to, self.message.deep_view())
    }
}

impl View for Outgoing {
    type V = (Recipient, MessageView);

    open spec fn view(&self) -> (Recipient, MessageView) {
        self.deep_view()
    }
}

/// Why an operation could not be carried out. The session is then as it
/// was before.
#[derive(Debug, Clone, Copy, PartialEq, Eq, Structural)]
pub enum GameError {
    /// A round was to start without any player.
    NoPlayers,
    /// The supply of prompts refused a draw or a discard.
    Prompts(DeckError),
    /// The supply of answers refused a draw or a discard.
    Answers(DeckError),
    /// A player number or a score has reached the largest number that the
    /// machine can hold.
    LimitReached,
}

/// Why a client's request was ignored. The session is then as it was
/// before.
#[derive(Debug, Clone, Copy, PartialEq, Eq, Structural)]
pub enum Violation {
    /// No round is in progress.
    NoRound,
    /// Answers are no longer taken: the round is being judged.
    NotAnswering,
    /// No judgement is taken yet: answers are still being handed in.
    NotJudging,
    /// The czar handed in an answer.
    IsCzar,
    /// Someone other than the czar judged.
    NotCzar,
    /// The player has handed in an answer in this round before.
    AlreadySubmitted,
    /// The sender is not among the players.
    NotAPlayer,
    /// The player's hand does not hold the cards handed in.
    CardsNotInHand,
    /// The player named as winner has not handed in an answer.
    NoSuchSubmission,
    /// A player logged in once more, under a name that is free and with
    /// room in the session.
    AlreadyLoggedIn,
    /// The message is none that a client sends in play.
    UnexpectedMessage,
}

/// What became of a client's request.
#[derive(Debug, Clone, PartialEq)]
pub enum Handled {
    /// It took effect; these messages are to be delivered.
    Done(Vec<Outgoing>),
    /// It broke a rule of play and was ignored.
    Ignored(Violation),
}

/// What became of a login.
#[derive(Debug, Clone, PartialEq)]
pub enum Login {
    /// The player joined under the number `id`.
    Accepted { id: usize, events: Vec<Outgoing> },
    /// The login was turned down.
    Rejected(LoginRejectedReason),
}

/// What became of a client's message.
#[derive(Debug, Clone, PartialEq)]
pub enum Processed {
    /// It was a login.
    Login(Login),
    /// It was a request in play.
    Request(Handled),
}

/// The numbers of the players, along the roster.
fn player_ids(players: &Vec<Player>) -> (ids: Vec<usize>)
    ensures
        ids@ == ids_of(players.deep_view()),
{
    let mut ids: Vec<usize> = Vec::new();
    let mut i: usize = 0;
    while i < players.len()
        invariant
            i <= players.len(),
            ids@.len() == i,
            forall|k: int| 0 <= k < i ==> ids@[k] == players@[k].id,
        decreases players.len() - i,
    {
        ids.push(players[i].id);
        i += 1;
    }
    proof {
        assert(ids@ =~= ids_of(players.deep_view()));
    }
    ids
}

/// Whether `supply` cards suffice to fill up every hand.
fn hands_can_fill(players: &Vec<Player>, hand_size: usize, supply: usize) -> (enough: bool)
    ensures
        enough == (total_shortfall(players.deep_view(), hand_size) <= supply),
{
    let ghost roster = players.deep_view();
    let mut need: usize = 0;
    let mut i: usize = 0;
    while i < players.len()
        invariant
            i <= players.len(),
            roster == players.deep_view(),
            need <= supply,
            need == total_shortfall(roster.take(i as int), hand_size),
        decreases players.len() - i,
    {
        proof {
            lemma_shortfall_step(roster, i as int, hand_size);
        }
        let have = players[i].hand.len();
        if have < hand_size {
            let short = hand_size - have;
            if short > supply - need {
                return false;
            }
            need = need + short;
        }
        i += 1;
    }
    proof {
        assert(roster.take(i as int) =~= roster);
    }
    true
}

/// The names and scores of the players, along the roster.
fn score_list(players: &Vec<Player>) -> (scores: Vec<(String, u64)>)
    ensures
        scores.deep_view() == scores_of(players.deep_view()),
{
    let mut scores: Vec<(String, u64)> = Vec::new();
    let mut i: usize = 0;
    while i < players.len()
        invariant
            i <= players.len(),
            scores@.len() == i,
            forall|k: int|
                0 <= k < i ==> (#[trigger] scores@[k]).deep_view() == (
                    players@[k].name@,
                    players@[k].score,
                ),
        decreases players.len() - i,
    {
        scores.push((players[i].name.clone(), players[i].score));
        i += 1;
    }
    proof {
        assert(scores.deep_view() =~= scores_of(players.deep_view()));
    }
    scores
}

/// A session of the game.
///
/// The roster is a list by rising player number, not a map by number.
/// Cards are dealt, answers go back to the supply, and players are told,
/// in that order, so that the order in which a map happens to be walked
/// decides nothing; and a player's hand and score change in place, which
/// Verus does not take through a map.
pub struct Game {
    settings: Settings,
    prompts: Deck<Prompt>,
    answers: Deck<Answer>,
    round: Option<Round>,
    players: Vec<Player>,
    next_id: usize,
}

impl View for Game {
    type V = GameView;

    closed spec fn view(&self) -> GameView {
        GameView {
            settings: self.settings,
            prompts: self.prompts@,
            answers: self.answers@,
            round: self.round.deep_view(),
            players: self.players.deep_view(),
            next_id: self.next_id,
        }
    }
}

impl Game {
    /// A session without players, with the given cards in its supplies, all
    /// of them in the discard piles. The first player gets the number 1.
    pub fn new(settings: Settings, prompts: Vec<Prompt>, answers: Vec<Answer>) -> (game: Game)
        ensures
            game@.wf(),
            game@.settings == settings,
            game@.prompts == DeckView::filled(prompts.deep_view()),
            game@.answers == DeckView::filled(answers.deep_view()),
            game@.round is None,
            game@.players.len() == 0,
            game@.next_id == 1,
            prompts.deep_view().no_duplicates() && answers.deep_view().no_duplicates()
                ==> game@.sound(),
    {
        let ghost prompt_list = prompts.deep_view();
        let ghost answer_list = answers.deep_view();
        let n_prompts = prompts.len();
        let n_answers = answers.len();
        let mut prompt_deck: Deck<Prompt> = Deck::default();
        let mut answer_deck: Deck<Answer> = Deck::default();
        prompt_deck.extend(prompts);
        answer_deck.extend(answers);
        let game = Game {
            settings,
            prompts: prompt_deck,
            answers: answer_deck,
            round: None,
            players: Vec::new(),
            next_id: 1,
        };
        proof {
            assert(prompt_list.len() == n_prompts && answer_list.len() == n_answers);
            lemma_filled_conserves(prompt_list);
            lemma_filled_conserves(answer_list);
            if prompt_list.no_duplicates() && answer_list.no_duplicates() {
                lemma_new_sound(game@);
            }
        }
        game
    }

    /// What was tuned about this session.
    pub fn settings(&self) -> (settings: Settings)
        ensures
            settings == self@.settings,
    {
        self.settings
    }

    /// The roster, by rising player number.
    pub fn players(&self) -> (players: &Vec<Player>)
        ensures
            players.deep_view() == self@.players,
    {
        &self.players
    }

    /// The round in progress, if any.
    pub fn round(&self) -> (round: &Option<Round>)
        ensures
            round.deep_view() == self@.round,
    {
        &self.round
    }

    /// The supply of prompts.
    pub fn prompts(&self) -> (deck: &Deck<Prompt>)
        ensures
            deck@ == self@.prompts,
    {
        &self.prompts
    }

    /// The supply of answers.
    pub fn answers(&self) -> (deck: &Deck<Answer>)
        ensures
            deck@ == self@.answers,
    {
        &self.answers
    }

    /// The number that the next player to log in gets.
    pub fn next_id(&self) -> (id: usize)
        ensures
            id == self@.next_id,
    {
        self.next_id
    }

    /// Fills up every hand to the hand size, player by player along the
    /// roster, with cards drawn from the answers.
    fn distribute_cards(&mut self)
        requires
            old(self)@.answers.wf(),
            total_shortfall(old(self)@.players, old(self)@.settings.hand_size) <= old(
                self,
            )@.answers.available(),
        ensures
            final(self)@.settings == old(self)@.settings,
            final(self)@.prompts == old(self)@.prompts,
            final(self)@.round == old(self)@.round,
            final(self)@.next_id == old(self)@.next_id,
            final(self)@.answers.wf(),
            final(self)@.players.len() == old(self)@.players.len(),
            forall|i: int|
                0 <= i < old(self)@.players.len() ==> {
                    &&& (#[trigger] final(self)@.players[i]).id == old(self)@.players[i].id
                    &&& final(self)@.players[i].name == old(self)@.players[i].name
                    &&& final(self)@.players[i].score == old(self)@.players[i].score
                    &&& final(self)@.players[i].hand.len() == old(self)@.players[i].hand.len()
                        + old(self)@.players[i].shortfall(old(self)@.settings.hand_size)
                    &&& final(self)@.players[i].hand.take(old(self)@.players[i].hand.len() as int)
                        == old(self)@.players[i].hand
                },
            old(self)@.answers.drew_many(final(self)@.answers, old(self)@.dealt(final(self)@)),
    {
        proof {
            lemma_answer_cards();
        }
        let ghost before = self@;
        let hand_size = self.settings.hand_size;
        let mut i: usize = 0;
        proof {
            assert(Seq::new(
                0,
                |j: int| self@.players[j].hand.skip(before.players[j].hand.len() as int),
            ).len() == 0);
        }
        while i < self.players.len()
            invariant
                i <= self.players.len(),
                hand_size == before.settings.hand_size,
                self@.settings == before.settings,
                self@.prompts == before.prompts,
                self@.round == before.round,
                self@.next_id == before.next_id,
                self@.answers.wf(),
                self@.players.len() == before.players.len(),
                total_shortfall(before.players, hand_size) <= before.answers.available(),
                self@.answers.available() + total_shortfall(
                    before.players.take(i as int),
                    hand_size,
                ) == before.answers.available(),
                forall|j: int| i <= j < before.players.len() ==> self@.players[j] == before.players[j],
                forall|j: int|
                    0 <= j < i ==> {
                        &&& (#[trigger] self@.players[j]).id == before.players[j].id
                        &&& self@.players[j].name == before.players[j].name
                        &&& self@.players[j].score == before.players[j].score
                        &&& self@.players[j].hand.len() == before.players[j].hand.len()
                            + before.players[j].shortfall(hand_size)
                        &&& self@.players[j].hand.take(before.players[j].hand.len() as int)
                            == before.players[j].hand
                    },
                before.answers.drew_many(
                    self@.answers,
                    Seq::new(
                        i as nat,
                        |j: int| self@.players[j].hand.skip(before.players[j].hand.len() as int),
                    ),
                ),
            decreases self.players.len() - i,
        {
            let ghost now = self@;
            let ghost seats = self.players@;
            let ghost outs = Seq::new(
                i as nat,
                |j: int| now.players[j].hand.skip(before.players[j].hand.len() as int),
            );
            let have = self.players[i].hand.len();
            proof {
                lemma_shortfall_step(before.players, i as int, hand_size);
                assert(now.players[i as int] == before.players[i as int]);
                assert(have == before.players[i as int].hand.len());
            }
            if have < hand_size {
                let drawn = self.answers.draw(hand_size - have);
                let mut cards = drawn.unwrap();
                let ghost fresh = cards.deep_view();
                let ghost raw = cards@;
                self.players[i].hand.append(&mut cards);
                proof {
                    assert(self.players@[i as int].hand@ =~= seats[i as int].hand@ + raw);
                    assert(self@.players[i as int].hand =~= now.players[i as int].hand + fresh);
                    assert(self@.players[i as int].hand.skip(have as int) =~= fresh);
                    assert(self@.players[i as int].hand.take(have as int)
                        =~= now.players[i as int].hand);
                    assert(now.answers.drew(self@.answers, fresh));
                }
            } else {
                proof {
                    lemma_drew_nothing(now.answers);
                    assert(self@.players[i as int].hand.skip(have as int) =~= Seq::<
                        Seq<char>,
                    >::empty());
                    assert(self@.players[i as int].hand.take(have as int)
                        =~= now.players[i as int].hand);
                }
            }
            proof {
                let more = Seq::new(
                    (i + 1) as nat,
                    |j: int| self@.players[j].hand.skip(before.players[j].hand.len() as int),
                );
                assert(self.players@.len() == seats.len());
                assert(self.players@[i as int].id == seats[i as int].id);
                assert(self.players@[i as int].name == seats[i as int].name);
                assert(self.players@[i as int].score == seats[i as int].score);
                assert forall|j: int| 0 <= j < seats.len() && j != i implies #[trigger] self@.players[j]
                    == now.players[j] by {
                    assert(self.players@[j] == seats[j]);
                }
                assert(more.drop_last() =~= outs);
                assert(now.answers.drew(self@.answers, more.last()));
                assert(before.answers.drew_many(now.answers, more.drop_last()));
                assert(before.answers.drew_many(self@.answers, more));
            }
            i += 1;
        }
        proof {
            assert(before.players.take(i as int) =~= before.players);
            assert(Seq::new(
                i as nat,
                |j: int| self@.players[j].hand.skip(before.players[j].hand.len() as int),
            ) =~= before.dealt(self@));
        }
    }

    /// The messages that tell each player of the round in progress.
    fn round_notices(&self) -> (events: Vec<Outgoing>)
        requires
            self@.round is Some,
        ensures
            events.deep_view() == self@.round_events(),
    {
        let mut events: Vec<Outgoing> = Vec::new();
        match &self.round {
            Some(round) => {
                let mut i: usize = 0;
                while i < self.players.len()
                    invariant
                        i <= self.players.len(),
                        self.round == Some(*round),
                        events@.len() == i,
                        forall|k: int|
                            0 <= k < i ==> (#[trigger] events@[k]).deep_view() == round_notice(
                                self@.players[k],
                                round.deep_view(),
                            ),
                    decreases self.players.len() - i,
                {
                    let player = &self.players[i];
                    let role = if player.id == round.czar {
                        Role::Czar
                    } else {
                        Role::Player
                    };
                    events.push(
                        Outgoing {
                            to: Recipient::Player(player.id),
                            message: Message::NewRound {
                                role,
                                prompt: round.prompt.clone(),
                                hand: copy_answers(&player.hand),
                            },
                        },
                    );
                    i += 1;
                }
                proof {
                    assert(events.deep_view() =~= self@.round_events());
                }
            },
            None => {},
        }
        events
    }

    /// Starts a round: puts away the round in progress, if any, picks the
    /// next czar, draws a prompt and fills up every hand.
    ///
    /// Returns one message for each player, with the part, the prompt and
    /// the hand. Where no round can start, nothing changes.
    pub fn new_round(&mut self) -> (res: Result<Vec<Outgoing>, GameError>)
        requires
            old(self)@.wf(),
        ensures
            final(self)@.wf(),
            match old(self)@.start_failure() {
                Some(e) => res == Err::<Vec<Outgoing>, GameError>(e) && final(self)@ == old(self)@,
                None => res matches Ok(events) && old(self)@.started(final(self)@)
                    && events.deep_view() == final(self)@.round_events(),
            },
            old(self)@.sound() ==> final(self)@.sound(),
    {
        let previous = match &self.round {
            Some(round) => Some(round.czar),
            None => None,
        };
        self.start_round(previous)
    }

    /// Starts a round in which the turn to judge goes on from `previous`.
    fn start_round(&mut self, previous: Option<usize>) -> (res: Result<Vec<Outgoing>, GameError>)
        requires
            old(self)@.wf(),
        ensures
            final(self)@.wf(),
            match old(self)@.start_failure() {
                Some(e) => res == Err::<Vec<Outgoing>, GameError>(e) && final(self)@ == old(self)@,
                None => res matches Ok(events) && old(self)@.started_after(
                    final(self)@,
                    previous,
                ) && events.deep_view() == final(self)@.round_events(),
            },
            old(self)@.sound() ==> final(self)@.sound(),
    {
        proof {
            lemma_answer_cards();
            lemma_prompt_cards();
        }
        let ghost before = self@;
        if self.players.len() == 0 {
            return Err(GameError::NoPlayers);
        }
        let mut old_prompt: Vec<Prompt> = Vec::new();
        let mut handed: Vec<Answer> = Vec::new();
        match &self.round {
            Some(round) => {
                old_prompt.push(round.prompt.clone());
                handed = all_submitted(&self.players, &round.answers);
                proof {
                    assert(old_prompt.deep_view() =~= seq![round.prompt.deep_view()]);
                }
            },
            None => {
                proof {
                    assert(old_prompt.deep_view() =~= Seq::<PromptView>::empty());
                    assert(handed.deep_view() =~= Seq::<Seq<char>>::empty());
                }
            },
        }
        match self.prompts.can_discard(old_prompt.as_slice()) {
            Err(e) => {
                return Err(GameError::Prompts(e));
            },
            Ok(()) => {},
        }
        match self.answers.can_discard(handed.as_slice()) {
            Err(e) => {
                return Err(GameError::Answers(e));
            },
            Ok(()) => {},
        }
        proof {
            lemma_discard_all(before.prompts, old_prompt.deep_view());
            lemma_discard_all(before.answers, handed.deep_view());
            (before.prompts.discard_all(old_prompt.deep_view())->Ok_0).lemma_available_bounded();
            (before.answers.discard_all(handed.deep_view())->Ok_0).lemma_available_bounded();
        }
        if self.prompts.available() == 0 && old_prompt.len() == 0 {
            return Err(GameError::Prompts(DeckError::SupplyExhausted));
        }
        let supply = self.answers.available() + handed.len();
        if !hands_can_fill(&self.players, self.settings.hand_size, supply) {
            return Err(GameError::Answers(DeckError::SupplyExhausted));
        }
        self.prompts.discard(old_prompt.as_slice()).unwrap();
        self.answers.discard(handed.as_slice()).unwrap();
        self.round = None;
        let ghost cleared = self@;
        proof {
            assert(before.cleared() == Ok::<GameView, GameError>(cleared));
        }
        let ids = player_ids(&self.players);
        let czar = next_czar(ids.as_slice(), previous).unwrap();
        let prompt = self.prompts.draw_once().unwrap();
        self.distribute_cards();
        self.round = Some(
            Round { prompt, czar, answers: HashMap::new(), state: RoundState::Answering },
        );
        proof {
            let after = self@;
            let round = after.round->0;
            crate::round::lemma_answers_view(self.round->0.answers);
            assert(round.answers =~= Map::<usize, Seq<Seq<char>>>::empty());
            assert(before.dealt(after) =~= cleared.dealt(after));
            assert(before.started_after(after, previous));
            let at = choose|k: int| 0 <= k < ids@.len() && ids@[k] == czar;
            assert(before.players[at].id == czar);
            lemma_wf_kept(before, after);
        }
        proof {
            if before.sound() {
                lemma_started_sound(before, self@, previous);
            }
        }
        let events = self.round_notices();
        Ok(events)
    }

    /// Takes the answer of the player `player`: the cards leave the hand
    /// and are recorded with the round. With the last answer awaited the
    /// round goes over to judging, and everyone is sent the answers.
    ///
    /// The answer is ignored, and nothing changes, where no round is in
    /// progress, the round is being judged, the sender is the czar, has
    /// answered before or is no player, or the hand does not hold the
    /// cards.
    pub fn on_submit_answer(&mut self, player: usize, cards: Vec<Answer>) -> (res: Handled)
        requires
            old(self)@.wf(),
        ensures
            final(self)@.wf(),
            old(self)@.answer_outcome(player, cards.deep_view(), final(self)@, res),
            old(self)@.sound() ==> final(self)@.sound(),
    {
        let ghost before = self@;
        let ghost list = cards.deep_view();
        match &self.round {
            None => {
                return Handled::Ignored(Violation::NoRound);
            },
            Some(round) => {
                match round.state {
                    RoundState::Judging => {
                        return Handled::Ignored(Violation::NotAnswering);
                    },
                    RoundState::Answering => {},
                }
                if round.czar == player {
                    return Handled::Ignored(Violation::IsCzar);
                }
                if has_submitted(&round.answers, player) {
                    return Handled::Ignored(Violation::AlreadySubmitted);
                }
            },
        }
        let at = match find_seat(&self.players, player) {
            None => {
                return Handled::Ignored(Violation::NotAPlayer);
            },
            Some(at) => at,
        };
        proof {
            assert(before.players[at as int].id == player);
            lemma_seat(before.players, player, at as int);
        }
        let rest = match take_cards(&self.players[at].hand, &cards) {
            None => {
                return Handled::Ignored(Violation::CardsNotInHand);
            },
            Some(rest) => rest,
        };
        let ghost seats = self.players@;
        self.players[at].hand = rest;
        let seats_taken = self.players.len();
        let mut events: Vec<Outgoing> = Vec::new();
        events.push(Outgoing { to: Recipient::Player(player), message: Message::AnswerAccepted });
        match &mut self.round {
            Some(round) => {
                record_submission(&mut round.answers, player, cards);
                if count_submissions(&round.answers) == seats_taken - 1 {
                    round.state = RoundState::Judging;
                    events.push(
                        Outgoing {
                            to: Recipient::Everyone,
                            message: Message::ReadyToJudge(copy_submissions(&round.answers)),
                        },
                    );
                }
            },
            None => {},
        }
        proof {
            let after = self@;
            let goal = before.answered(player, list);
            assert(self.players@.len() == seats.len());
            assert(forall|j: int| 0 <= j < seats.len() && j != at ==> self.players@[j] == seats[j]);
            assert(after.players =~= goal.players);
            assert(after.round->0.answers =~= goal.round->0.answers);
            assert(after == goal);
            if before.sound() {
                lemma_answered_sound(before, player, list);
            }
            assert(events.deep_view() =~= before.answer_events(player, list));
            lemma_answered_wf(before, player, list);
        }
        Handled::Done(events)
    }

    /// Takes the czar's judgement: the winner gets a point, everyone is
    /// told the result, and the next round starts.
    ///
    /// The judgement is ignored, and nothing changes, where no round is in
    /// progress, answers are still being handed in, the sender is not the
    /// czar, or the player named has handed in no answer. Where the next
    /// round cannot start, nothing changes either.
    pub fn on_submit_judgement(&mut self, player: usize, winner: usize) -> (res: Result<
        Handled,
        GameError,
    >)
        requires
            old(self)@.wf(),
            old(self)@.judgement_violation(player, winner) is None ==> !old(self)@.score_at_limit(
                winner,
            ),
        ensures
            final(self)@.wf(),
            old(self)@.judgement_outcome(player, winner, final(self)@, res),
            old(self)@.sound() ==> final(self)@.sound(),
    {
        let ghost before = self@;
        let winning = match &self.round {
            None => {
                return Ok(Handled::Ignored(Violation::NoRound));
            },
            Some(round) => {
                match round.state {
                    RoundState::Answering => {
                        return Ok(Handled::Ignored(Violation::NotJudging));
                    },
                    RoundState::Judging => {},
                }
                if round.czar != player {
                    return Ok(Handled::Ignored(Violation::NotCzar));
                }
                if !has_submitted(&round.answers, winner) {
                    return Ok(Handled::Ignored(Violation::NoSuchSubmission));
                }
                pending_cards(&round.answers, winner)
            },
        };
        let found = find_seat(&self.players, winner);
        let at = found.unwrap();
        proof {
            assert(before.players[at as int].id == winner);
            lemma_seat(before.players, winner, at as int);
        }
        let ghost seats = self.players@;
        self.players[at].score = self.players[at].score + 1;
        let ghost scored = self@;
        proof {
            assert(self.players@.len() == seats.len());
            assert(forall|j: int| 0 <= j < seats.len() && j != at ==> self.players@[j] == seats[j]);
            assert(scored.players =~= before.scored(winner).players);
            assert(scored == before.scored(winner));
            lemma_wf_kept(before, scored);
            lemma_seat(scored.players, winner, at as int);
            if before.sound() {
                lemma_scored_sound(before, winner);
            }
        }
        let notice = Outgoing {
            to: Recipient::Everyone,
            message: Message::RoundEnded {
                winner: self.players[at].name.clone(),
                winning_answers: winning,
                scores: score_list(&self.players),
            },
        };
        proof {
            assert(notice.deep_view() == scored.result_notice(winner));
        }
        match self.new_round() {
            Err(e) => {
                let ghost failed = self.players@;
                assert(self@ == scored);
                self.players[at].score = self.players[at].score - 1;
                proof {
                    assert(self.players@.len() == failed.len());
                    assert forall|j: int| 0 <= j < failed.len() implies self@.players[j]
                        == before.players[j] by {
                        assert(failed[j].deep_view() == scored.players[j]);
                        if j != at {
                            assert(self.players@[j] == failed[j]);
                        } else {
                            assert(self.players@[j].name == failed[j].name);
                            assert(self.players@[j].hand == failed[j].hand);
                            assert(self.players@[j].id == failed[j].id);
                        }
                    }
                    assert(self@.players =~= before.players);
                }
                Err(e)
            },
            Ok(mut more) => {
                let ghost told = more.deep_view();
                let ghost raw = more@;
                let mut events: Vec<Outgoing> = Vec::new();
                events.push(notice);
                events.append(&mut more);
                proof {
                    assert(events@ =~= seq![notice] + raw);
                    assert(events.deep_view() =~= seq![notice.deep_view()] + told);
                }
                Ok(Handled::Done(events))
            },
        }
    }

    /// Takes a login under `name`: the player joins under the next number
    /// with a full hand, and the players who were there before are told. Where players are then
    /// enough and no round is in progress, a round starts; where answers
    /// are being handed in, the newcomer is shown the round.
    ///
    /// The login is turned down, and nothing changes, where the session is
    /// full or the name is taken. Where a supply cannot provide the cards,
    /// nothing changes either.
    pub fn on_login(&mut self, name: String) -> (res: Result<Login, GameError>)
        requires
            old(self)@.wf(),
            old(self)@.login_rejection(name@) is None ==> old(self)@.next_id < usize::MAX,
        ensures
            final(self)@.wf(),
            old(self)@.login_outcome(name@, final(self)@, res),
            old(self)@.sound() ==> final(self)@.sound(),
    {
        proof {
            lemma_answer_cards();
        }
        let ghost before = self@;
        if self.players.len() >= self.settings.max_players {
            return Ok(Login::Rejected(LoginRejectedReason::GameIsFull));
        }
        if has_name(&self.players, &name) {
            return Ok(Login::Rejected(LoginRejectedReason::UsernameIsTaken));
        }
        let hand_size = self.settings.hand_size;
        let supply = self.answers.available();
        if supply < hand_size {
            return Err(GameError::Answers(DeckError::SupplyExhausted));
        }
        let starts = self.players.len() + 1 >= self.settings.min_players && self.round.is_none();
        if starts {
            if self.prompts.available() < 1 {
                return Err(GameError::Prompts(DeckError::SupplyExhausted));
            }
            if !hands_can_fill(&self.players, hand_size, supply - hand_size) {
                return Err(GameError::Answers(DeckError::SupplyExhausted));
            }
        }
        let id = self.next_id;
        self.next_id = id + 1;
        let drawn = self.answers.draw(hand_size);
        let hand = drawn.unwrap();
        let called = name.clone();
        let ghost seats = self.players.deep_view();
        self.players.push(Player { id, name, hand, score: 0 });
        let ghost mid = self@;
        proof {
            assert(mid.players.drop_last() =~= before.players);
            assert(mid.players.last() == self.players@[seats.len() as int].deep_view());
            assert(before.joined(mid, name@));
            lemma_joined_wf(before, mid, name@);
        }
        let mut events: Vec<Outgoing> = Vec::new();
        events.push(Outgoing { to: Recipient::Player(id), message: Message::LoginAccepted });
        events.push(
            Outgoing {
                to: Recipient::EveryoneBut(id),
                message: Message::PlayerJoined { name: called },
            },
        );
        proof {
            assert(events.deep_view() =~= mid.welcome());
        }
        if starts {
            proof {
                lemma_shortfall_joined(mid.players, hand_size);
                assert(mid.cleared() == Ok::<GameView, GameError>(mid));
                assert(mid.start_failure() is None);
            }
            let started = self.new_round();
            let mut more = started.unwrap();
            let ghost told = more.deep_view();
            let ghost raw = more@;
            let ghost greeted = events@;
            events.append(&mut more);
            proof {
                assert(events@ =~= greeted + raw);
                assert(events.deep_view() =~= mid.welcome() + told);
            }
        } else if self.players.len() >= self.settings.min_players {
            match &self.round {
                Some(round) => {
                    match round.state {
                        RoundState::Answering => {
                            let newcomer = &self.players[self.players.len() - 1];
                            let role = if newcomer.id == round.czar {
                                Role::Czar
                            } else {
                                Role::Player
                            };
                            let ghost greeted = events.deep_view();
                            events.push(
                                Outgoing {
                                    to: Recipient::Player(newcomer.id),
                                    message: Message::NewRound {
                                        role,
                                        prompt: round.prompt.clone(),
                                        hand: copy_answers(&newcomer.hand),
                                    },
                                },
                            );
                            proof {
                                assert(events.deep_view() =~= greeted + mid.catch_up());
                            }
                        },
                        RoundState::Judging => {
                            proof {
                                assert(events.deep_view() =~= mid.welcome() + mid.catch_up());
                            }
                        },
                    }
                },
                None => {
                    proof {
                        assert(events.deep_view() =~= mid.welcome() + mid.catch_up());
                    }
                },
            }
        } else {
            proof {
                assert(events.deep_view() =~= mid.welcome() + mid.catch_up());
            }
        }
        proof {
            assert(before.logged_in(self@, name@, events.deep_view()));
            if before.sound() {
                lemma_logged_in_sound(before, self@, name@, events.deep_view());
            }
        }
        Ok(Login::Accepted { id, events })
    }

    /// Sees to it that players are enough: where they are not, calls the
    /// round off, resets both supplies, empties every hand and tells
    /// everyone that the game is off.
    pub fn settle(&mut self) -> (events: Vec<Outgoing>)
        requires
            old(self)@.wf(),
        ensures
            final(self)@.wf(),
            final(self)@ == old(self)@.settled(),
            events.deep_view() == old(self)@.settle_events(),
            old(self)@.sound() ==> final(self)@.sound(),
    {
        let ghost before = self@;
        proof {
            if before.sound() {
                lemma_settled_sound(before);
            }
        }
        let mut events: Vec<Outgoing> = Vec::new();
        if self.players.len() < self.settings.min_players {
            self.round = None;
            self.answers.reset();
            self.prompts.reset();
            events.push(Outgoing { to: Recipient::Everyone, message: Message::GameEnded });
            let mut i: usize = 0;
            while i < self.players.len()
                invariant
                    i <= self.players.len(),
                    self.players@.len() == before.players.len(),
                    self@.settings == before.settings,
                    self@.next_id == before.next_id,
                    self@.round is None,
                    self@.prompts == before.prompts.reset(),
                    self@.answers == before.answers.reset(),
                    forall|j: int| i <= j < before.players.len() ==> self@.players[j] == before.players[j],
                    forall|j: int|
                        0 <= j < i ==> #[trigger] self@.players[j] == (PlayerView {
                            hand: Seq::empty(),
                            ..before.players[j]
                        }),
                decreases self.players.len() - i,
            {
                let ghost seats = self.players@;
                let ghost now = self@;
                self.players[i].hand.clear();
                proof {
                    assert(self.players@.len() == seats.len());
                    assert(forall|j: int|
                        0 <= j < seats.len() && j != i ==> self.players@[j] == seats[j]);
                    assert(self@.players[i as int].hand =~= Seq::<Seq<char>>::empty());
                    assert(self.players@[i as int].id == seats[i as int].id);
                    assert(self.players@[i as int].name == seats[i as int].name);
                    assert(self.players@[i as int].score == seats[i as int].score);
                    assert(seats[i as int].deep_view() == before.players[i as int]);
                    assert forall|j: int| 0 <= j < i implies #[trigger] self@.players[j] == (
                    PlayerView { hand: Seq::empty(), ..before.players[j] }) by {
                        assert(self.players@[j] == seats[j]);
                        assert(now.players[j] == seats[j].deep_view());
                    }
                }
                i += 1;
            }
            proof {
                assert(self@.players =~= before.settled().players);
                assert(events.deep_view() =~= before.settle_events());
                lemma_wf_kept(before, self@);
            }
        } else {
            proof {
                assert(events.deep_view() =~= before.settle_events());
            }
        }
        events
    }

    /// Whether `supply` cards suffice to fill up every hand once the
    /// answers handed in are back in the hands.
    fn returned_can_fill(&self, supply: usize) -> (enough: bool)
        requires
            self@.round is Some,
        ensures
            enough == (total_shortfall(self@.handed_back(), self@.settings.hand_size) <= supply),
    {
        let ghost roster = self@.handed_back();
        let hand_size = self.settings.hand_size;
        let mut need: usize = 0;
        let mut i: usize = 0;
        match &self.round {
            Some(round) => {
                while i < self.players.len()
                    invariant
                        i <= self.players.len(),
                        self.round == Some(*round),
                        roster == self@.handed_back(),
                        hand_size == self@.settings.hand_size,
                        need <= supply,
                        need == total_shortfall(roster.take(i as int), hand_size),
                    decreases self.players.len() - i,
                {
                    proof {
                        lemma_shortfall_step(roster, i as int, hand_size);
                    }
                    let have = self.players[i].hand.len();
                    let back = pending_count(&round.answers, self.players[i].id);
                    proof {
                        assert(roster[i as int].hand.len() == have + back);
                    }
                    if have < hand_size && back < hand_size - have {
                        let short = hand_size - have - back;
                        if short > supply - need {
                            return false;
                        }
                        need = need + short;
                    }
                    i += 1;
                }
                proof {
                    assert(roster.take(i as int) =~= roster);
                }
            },
            None => {},
        }
        true
    }

    /// Puts the answers handed in back at the end of their players' hands.
    fn hand_back(&mut self, answers: &HashMap<usize, Vec<Answer>>)
        ensures
            final(self)@.settings == old(self)@.settings,
            final(self)@.prompts == old(self)@.prompts,
            final(self)@.answers == old(self)@.answers,
            final(self)@.round == old(self)@.round,
            final(self)@.next_id == old(self)@.next_id,
            final(self)@.players == Seq::new(
                old(self)@.players.len(),
                |i: int|
                    PlayerView {
                        hand: old(self)@.players[i].hand + pending_among(
                            answers.deep_view(),
                            old(self)@.players[i].id,
                        ),
                        ..old(self)@.players[i]
                    },
            ),
    {
        let ghost before = self@;
        let mut i: usize = 0;
        while i < self.players.len()
            invariant
                i <= self.players.len(),
                self.players@.len() == before.players.len(),
                self@.settings == before.settings,
                self@.prompts == before.prompts,
                self@.answers == before.answers,
                self@.round == before.round,
                self@.next_id == before.next_id,
                forall|j: int| i <= j < before.players.len() ==> self@.players[j] == before.players[j],
                forall|j: int|
                    0 <= j < i ==> #[trigger] self@.players[j] == (PlayerView {
                        hand: before.players[j].hand + pending_among(
                            answers.deep_view(),
                            before.players[j].id,
                        ),
                        ..before.players[j]
                    }),
            decreases self.players.len() - i,
        {
            let ghost seats = self.players@;
            let ghost now = self@;
            let ghost held = self@.players[i as int].hand;
            let mut back = pending_cards(answers, self.players[i].id);
            let ghost more = back.deep_view();
            let ghost raw = back@;
            self.players[i].hand.append(&mut back);
            proof {
                assert(self.players@.len() == seats.len());
                assert(forall|j: int| 0 <= j < seats.len() && j != i ==> self.players@[j] == seats[j]);
                assert(self.players@[i as int].hand@ =~= seats[i as int].hand@ + raw);
                assert(self@.players[i as int].hand =~= held + more);
                assert(self.players@[i as int].id == seats[i as int].id);
                assert(self.players@[i as int].name == seats[i as int].name);
                assert(self.players@[i as int].score == seats[i as int].score);
                assert(seats[i as int].deep_view() == before.players[i as int]);
                assert forall|j: int| 0 <= j < i implies #[trigger] self@.players[j] == (
                PlayerView {
                    hand: before.players[j].hand + pending_among(
                        answers.deep_view(),
                        before.players[j].id,
                    ),
                    ..before.players[j]
                }) by {
                    assert(self.players@[j] == seats[j]);
                    assert(now.players[j] == seats[j].deep_view());
                }
            }
            i += 1;
        }
        proof {
            assert(self@.players =~= Seq::new(
                before.players.len(),
                |i: int|
                    PlayerView {
                        hand: before.players[i].hand + pending_among(
                            answers.deep_view(),
                            before.players[i].id,
                        ),
                        ..before.players[i]
                    },
            ));
        }
    }

    /// Takes the departure of the player `player`: the player leaves the
    /// roster, and the hand and the answers handed in go to the discard
    /// pile. Where the player was the czar, the round is abandoned: its
    /// prompt is discarded, the answers handed in go back to the hands,
    /// and, if players remain, a round starts, in which the turn to judge
    /// goes on from the czar who left. Everyone left is told of the
    /// departure. Where players are then too few, the game is off as
    /// [`Game::settle`] says.
    ///
    /// For a number that no player has, only the last step is taken.
    /// Where a supply refuses the cards, or the round cannot start,
    /// nothing changes.
    pub fn on_disconnect(&mut self, player: usize) -> (res: Result<Vec<Outgoing>, GameError>)
        requires
            old(self)@.wf(),
        ensures
            final(self)@.wf(),
            if !seated(old(self)@.players, player) {
                res matches Ok(events) && final(self)@ == old(self)@.settled()
                    && events.deep_view() == old(self)@.settle_events()
            } else {
                match old(self)@.leave_failure(player) {
                    Some(e) => res == Err::<Vec<Outgoing>, GameError>(e) && final(self)@ == old(
                        self,
                    )@,
                    None => res matches Ok(events) && old(self)@.left(
                        final(self)@,
                        player,
                        events.deep_view(),
                    ),
                }
            },
            old(self)@.sound() ==> final(self)@.sound(),
    {
        proof {
            lemma_answer_cards();
            lemma_prompt_cards();
        }
        let ghost before = self@;
        let at = match find_seat(&self.players, player) {
            None => {
                let events = self.settle();
                return Ok(events);
            },
            Some(at) => at,
        };
        proof {
            assert(before.players[at as int].id == player);
            lemma_seat(before.players, player, at as int);
            lemma_roster_without(before.players, at as int);
        }
        let mut gone_cards = copy_answers(&self.players[at].hand);
        let mut was_czar = false;
        let mut old_prompt: Vec<Prompt> = Vec::new();
        match &self.round {
            Some(round) => {
                let ghost held = gone_cards.deep_view();
                let ghost held_raw = gone_cards@;
                let mut own = pending_cards(&round.answers, player);
                let ghost own_raw = own@;
                let ghost own_view = own.deep_view();
                gone_cards.append(&mut own);
                proof {
                    assert(gone_cards@ =~= held_raw + own_raw);
                    assert(gone_cards.deep_view() =~= held + own_view);
                }
                if round.czar == player {
                    was_czar = true;
                    old_prompt.push(round.prompt.clone());
                    proof {
                        assert(old_prompt.deep_view() =~= seq![round.prompt.deep_view()]);
                    }
                }
            },
            None => {
                proof {
                    assert(gone_cards.deep_view() =~= before.players[at as int].hand
                        + before.pending(player));
                }
            },
        }
        let ghost back = before.players[at as int].hand + before.pending(player);
        assert(gone_cards.deep_view() == back);
        match self.answers.can_discard(gone_cards.as_slice()) {
            Err(e) => {
                return Err(GameError::Answers(e));
            },
            Ok(()) => {},
        }
        if was_czar {
            match self.prompts.can_discard(old_prompt.as_slice()) {
                Err(e) => {
                    return Err(GameError::Prompts(e));
                },
                Ok(()) => {},
            }
        }
        let ghost less = before.departed(player)->Ok_0;
        proof {
            lemma_discard_all(before.answers, back);
            (before.answers.discard_all(back)->Ok_0).lemma_available_bounded();
            if was_czar {
                lemma_discard_all(before.prompts, old_prompt.deep_view());
            }
        }
        let restarts = was_czar && self.players.len() > 1;
        let gone = self.players.remove(at);
        proof {
            assert(self@.players =~= before.players.remove(at as int));
            assert(gone.deep_view() == before.players[at as int]);
        }
        if restarts {
            let supply = self.answers.available() + gone_cards.len();
            proof {
                assert(self@.handed_back() =~= less.players);
                assert(less.cleared() == Ok::<GameView, GameError>(less));
            }
            if !self.returned_can_fill(supply) {
                self.players.insert(at, gone);
                proof {
                    assert(self@.players =~= before.players);
                }
                return Err(GameError::Answers(DeckError::SupplyExhausted));
            }
        }
        self.answers.discard(gone_cards.as_slice()).unwrap();
        if was_czar {
            self.prompts.discard(old_prompt.as_slice()).unwrap();
            let mut taken: Option<Round> = None;
            std::mem::swap(&mut self.round, &mut taken);
            match taken {
                Some(round) => {
                    self.hand_back(&round.answers);
                },
                None => {},
            }
            proof {
                assert(self@.players =~= less.players);
                assert(self@ == less);
            }
        } else {
            match &mut self.round {
                Some(round) => {
                    withdraw_submission(&mut round.answers, player);
                },
                None => {},
            }
            proof {
                assert(self@ == less);
            }
        }
        proof {
            lemma_departed_wf(before, player);
        }
        let mut events: Vec<Outgoing> = Vec::new();
        if restarts {
            let started = self.start_round(Some(player));
            events = started.unwrap();
        }
        let ghost told = events.deep_view();
        let ghost told_raw = events@;
        let farewell = Outgoing {
            to: Recipient::Everyone,
            message: Message::PlayerLeft { name: gone.name },
        };
        events.push(farewell);
        let mut last = self.settle();
        let ghost last_raw = last@;
        let ghost last_view = last.deep_view();
        events.append(&mut last);
        proof {
            assert(events@ =~= told_raw.push(farewell) + last_raw);
            assert(events.deep_view() =~= told + seq![farewell.deep_view()] + last_view);
            if !restarts {
                assert(told =~= Seq::empty());
                assert(events.deep_view() =~= seq![farewell.deep_view()] + last_view);
            }
            assert(before.left(self@, player, events.deep_view()));
            if before.sound() {
                lemma_left_sound(before, self@, player, events.deep_view());
            }
        }
        Ok(events)
    }

    /// Why a login under `name` would be turned down, if it would.
    pub fn check_login(&self, name: &String) -> (rejection: Option<LoginRejectedReason>)
        ensures
            rejection == self@.login_rejection(name@),
    {
        if self.players.len() >= self.settings.max_players {
            Some(LoginRejectedReason::GameIsFull)
        } else if has_name(&self.players, name) {
            Some(LoginRejectedReason::UsernameIsTaken)
        } else {
            None
        }
    }

    /// Why a judgement by `player` for `winner` would be ignored, if it
    /// would.
    pub fn check_judgement(&self, player: usize, winner: usize) -> (violation: Option<Violation>)
        ensures
            violation == self@.judgement_violation(player, winner),
    {
        match &self.round {
            None => Some(Violation::NoRound),
            Some(round) => {
                match round.state {
                    RoundState::Answering => Some(Violation::NotJudging),
                    RoundState::Judging => {
                        if round.czar != player {
                            Some(Violation::NotCzar)
                        } else {
                            if has_submitted(&round.answers, winner) {
                                None
                            } else {
                                Some(Violation::NoSuchSubmission)
                            }
                        }
                    },
                }
            },
        }
    }

    /// Takes a message of a client. `sender` is the number under which the
    /// client logged in, if it did.
    ///
    /// A login is taken from a client that is not logged in, an answer or
    /// a judgement from one that is; see [`Game::on_login`],
    /// [`Game::on_submit_answer`] and [`Game::on_submit_judgement`]. Every
    /// other message is ignored.
    ///
    /// A login is turned down for a full session or a taken name whoever
    /// sends it. A login of a client that is logged in already, and that
    /// would not be turned down, is ignored: the player keeps number, hand
    /// and score, and no second player comes to sit under the same client.
    ///
    /// A login that would be taken when the next
    /// player number is the largest that the machine can hold, and a
    /// judgement that would be taken when the winner's score is, fail with
    /// `LimitReached`, and nothing changes.
    pub fn process_message(&mut self, sender: Option<usize>, message: Message) -> (res: Result<
        Processed,
        GameError,
    >)
        requires
            old(self)@.wf(),
        ensures
            final(self)@.wf(),
            old(self)@.sound() ==> final(self)@.sound(),
            match (message, sender) {
                (Message::Login(name), None) => if old(self)@.login_rejection(name@) is None
                    && old(self)@.next_id == usize::MAX {
                    res == Err::<Processed, GameError>(GameError::LimitReached) && final(self)@
                        == old(self)@
                } else {
                    match res {
                        Ok(Processed::Login(login)) => old(self)@.login_outcome(
                            name@,
                            final(self)@,
                            Ok(login),
                        ),
                        Ok(Processed::Request(_)) => false,
                        Err(e) => old(self)@.login_outcome(name@, final(self)@, Err(e)),
                    }
                },
                (Message::Login(name), Some(_)) => final(self)@ == old(self)@ && match old(
                    self,
                )@.login_rejection(name@) {
                    Some(reason) => res == Ok::<Processed, GameError>(
                        Processed::Login(Login::Rejected(reason)),
                    ),
                    None => res == Ok::<Processed, GameError>(
                        Processed::Request(Handled::Ignored(Violation::AlreadyLoggedIn)),
                    ),
                },
                (Message::SubmitAnswer(cards), Some(player)) => res matches Ok(
                    Processed::Request(handled),
                ) && old(self)@.answer_outcome(player, cards.deep_view(), final(self)@, handled),
                (Message::SubmitJudgement(winner), Some(player)) => if old(
                    self,
                )@.judgement_violation(player, winner) is None && old(self)@.score_at_limit(winner) {
                    res == Err::<Processed, GameError>(GameError::LimitReached) && final(self)@
                        == old(self)@
                } else {
                    match res {
                        Ok(Processed::Request(handled)) => old(self)@.judgement_outcome(
                            player,
                            winner,
                            final(self)@,
                            Ok(handled),
                        ),
                        Ok(Processed::Login(_)) => false,
                        Err(e) => old(self)@.judgement_outcome(
                            player,
                            winner,
                            final(self)@,
                            Err(e),
                        ),
                    }
                },
                (Message::SubmitAnswer(_), None) | (Message::SubmitJudgement(_), None) => res
                    == Ok::<Processed, GameError>(
                    Processed::Request(Handled::Ignored(Violation::NotAPlayer)),
                ) && final(self)@ == old(self)@,
                _ => res == Ok::<Processed, GameError>(
                    Processed::Request(Handled::Ignored(Violation::UnexpectedMessage)),
                ) && final(self)@ == old(self)@,
            },
    {
        let ghost before = self@;
        match message {
            Message::Login(name) => {
                match sender {
                    Some(_) => match self.check_login(&name) {
                        Some(reason) => Ok(Processed::Login(Login::Rejected(reason))),
                        None => Ok(
                            Processed::Request(Handled::Ignored(Violation::AlreadyLoggedIn)),
                        ),
                    },
                    None => {
                        if self.next_id == usize::MAX && self.check_login(&name).is_none() {
                            return Err(GameError::LimitReached);
                        }
                        match self.on_login(name) {
                            Ok(login) => Ok(Processed::Login(login)),
                            Err(e) => Err(e),
                        }
                    },
                }
            },
            Message::SubmitAnswer(cards) => {
                match sender {
                    Some(player) => Ok(Processed::Request(self.on_submit_answer(player, cards))),
                    None => Ok(Processed::Request(Handled::Ignored(Violation::NotAPlayer))),
                }
            },
            Message::SubmitJudgement(winner) => {
                match sender {
                    Some(player) => {
                        if self.check_judgement(player, winner).is_none() {
                            match find_seat(&self.players, winner) {
                                Some(at) => {
                                    proof {
                                        assert(before.players[at as int].id == winner);
                                        lemma_seat(before.players, winner, at as int);
                                    }
                                    if self.players[at].score == u64::MAX {
                                        return Err(GameError::LimitReached);
                                    }
                                },
                                None => {},
                            }
                        }
                        match self.on_submit_judgement(player, winner) {
                            Ok(handled) => Ok(Processed::Request(handled)),
                            Err(e) => Err(e),
                        }
                    },
                    None => Ok(Processed::Request(Handled::Ignored(Violation::NotAPlayer))),
                }
            },
            _ => Ok(Processed::Request(Handled::Ignored(Violation::UnexpectedMessage))),
        }
    }
}

} // verus!
