//! The mathematical content of a session, and what each operation makes
//! of it.

use crate::deck::{DeckError, DeckView};
use crate::game::{GameError, Handled, Login, Recipient, Settings, Violation};
use crate::players::{
    candidate_after, ids_of, is_next_czar, name_taken, rising, seat, seated, total_shortfall,
    PlayerView,
};
use crate::round::{
    pending_among, submitted, submitted_cards, without, RoundState,
    RoundView,
};
use crate::schema::{LoginRejectedReason, MessageView, PromptView, Role};
use vstd::prelude::*;

verus! {

/// The mathematical content of a [`Game`].
pub struct GameView {
    pub settings: Settings,
    pub prompts: DeckView<PromptView>,
    pub answers: DeckView<Seq<char>>,
    pub round: Option<RoundView>,
    /// The roster, by rising player number.
    pub players: Seq<PlayerView>,
    /// The number that the next player to log in gets.
    pub next_id: usize,
}

/// The message that tells a player of a round: the part, the prompt and
/// the hand.
pub open spec fn round_notice(player: PlayerView, round: RoundView) -> (Recipient, MessageView) {
    (
        Recipient::Player(player.id),
        MessageView::NewRound {
            role: if player.id == round.czar {
                Role::Czar
            } else {
                Role::Player
            },
            prompt: round.prompt,
            hand: player.hand,
        },
    )
}

/// The names and scores of the players, in the order of the roster.
pub open spec fn scores_of(players: Seq<PlayerView>) -> Seq<(Seq<char>, u64)> {
    Seq::new(players.len(), |i: int| (players[i].name, players[i].score))
}

impl GameView {
    /// The session is sound in its structure: the supplies are well
    /// formed; player numbers rise along the roster and lie below the next
    /// number to give; no two players share a name; the czar of a round
    /// is a player, and answers came from players other than the czar.
    pub open spec fn wf(self) -> bool {
        &&& self.prompts.wf()
        &&& self.answers.wf()
        &&& rising(self.players)
        &&& forall|i: int| 0 <= i < self.players.len() ==> (#[trigger] self.players[i]).id < self.next_id
        &&& forall|i: int, j: int|
            0 <= i < j < self.players.len() ==> (#[trigger] self.players[i]).name != (
            #[trigger] self.players[j]).name
        &&& self.round matches Some(round) ==> {
            &&& seated(self.players, round.czar)
            &&& round.answers.dom().finite()
            &&& forall|player: usize|
                (#[trigger] round.answers.contains_key(player)) ==> seated(self.players, player)
                    && player != round.czar
        }
    }

    /// The czar of the round in progress, if there is one.
    pub open spec fn czar(self) -> Option<usize> {
        match self.round {
            Some(round) => Some(round.czar),
            None => None,
        }
    }

    /// The session after the round in progress, if any, was put away: its
    /// prompt and the answers handed in went back to their discard piles.
    pub open spec fn cleared(self) -> Result<GameView, GameError> {
        match self.round {
            None => Ok(self),
            Some(round) => match self.prompts.discard_all(seq![round.prompt]) {
                Err(e) => Err(GameError::Prompts(e)),
                Ok(prompts) => match self.answers.discard_all(
                    submitted_cards(self.players, round.answers),
                ) {
                    Err(e) => Err(GameError::Answers(e)),
                    Ok(answers) => Ok(GameView { prompts, answers, round: None, ..self }),
                },
            },
        }
    }

    /// Why no round can start, if none can: there is no player, a supply
    /// refuses the cards of the round in progress, or a supply cannot
    /// provide the prompt or fill the hands.
    pub open spec fn start_failure(self) -> Option<GameError> {
        if self.players.len() == 0 {
            Some(GameError::NoPlayers)
        } else {
            match self.cleared() {
                Err(e) => Some(e),
                Ok(cleared) => if cleared.prompts.available() < 1 {
                    Some(GameError::Prompts(DeckError::SupplyExhausted))
                } else if cleared.answers.available() < total_shortfall(
                    self.players,
                    self.settings.hand_size,
                ) {
                    Some(GameError::Answers(DeckError::SupplyExhausted))
                } else {
                    None
                },
            }
        }
    }

    /// The cards that each player was dealt on the way from `self` to
    /// `after`, by place in the roster.
    pub open spec fn dealt(self, after: GameView) -> Seq<Seq<Seq<char>>> {
        Seq::new(
            self.players.len(),
            |i: int| after.players[i].hand.skip(self.players[i].hand.len() as int),
        )
    }

    /// A new round started on the way from `self` to `after`, the czar
    /// before having been `previous`.
    ///
    /// The round in progress was put away. The czar is the next in turn
    /// after the previous one: the player with the least number above the
    /// previous czar's, or with the least number of all where none is
    /// above it or no czar came before. The prompt was drawn from the
    /// prompts. Each hand was filled up to the hand size with cards drawn
    /// from the answers, player by player along the roster; nothing else
    /// about the players changed. No answer is handed in yet.
    pub open spec fn started_after(self, after: GameView, previous: Option<usize>) -> bool {
        &&& self.start_failure() is None
        &&& after.settings == self.settings
        &&& after.next_id == self.next_id
        &&& after.round matches Some(round)
        &&& is_next_czar(ids_of(self.players), candidate_after(previous), round.czar)
        &&& round.answers == Map::<usize, Seq<Seq<char>>>::empty()
        &&& round.state == RoundState::Answering
        &&& (self.cleared()->Ok_0).prompts.drew(after.prompts, seq![round.prompt])
        &&& after.players.len() == self.players.len()
        &&& forall|i: int|
            0 <= i < self.players.len() ==> {
                &&& (#[trigger] after.players[i]).id == self.players[i].id
                &&& after.players[i].name == self.players[i].name
                &&& after.players[i].score == self.players[i].score
                &&& after.players[i].hand.len() == self.players[i].hand.len()
                    + self.players[i].shortfall(self.settings.hand_size)
                &&& after.players[i].hand.take(self.players[i].hand.len() as int)
                    == self.players[i].hand
            }
        &&& (self.cleared()->Ok_0).answers.drew_many(after.answers, self.dealt(after))
    }

    /// A new round started on the way from `self` to `after`, following on
    /// the round in progress, if there is one.
    pub open spec fn started(self, after: GameView) -> bool {
        self.started_after(after, self.czar())
    }

    /// The messages that tell of a round that just started: one for each
    /// player, along the roster.
    pub open spec fn round_events(self) -> Seq<(Recipient, MessageView)> {
        Seq::new(self.players.len(), |i: int| round_notice(self.players[i], self.round->0))
    }

    /// Why an answer from `player` with `cards` is ignored, if it is.
    pub open spec fn answer_violation(self, player: usize, cards: Seq<Seq<char>>) -> Option<
        Violation,
    > {
        match self.round {
            None => Some(Violation::NoRound),
            Some(round) => if round.state != RoundState::Answering {
                Some(Violation::NotAnswering)
            } else if round.czar == player {
                Some(Violation::IsCzar)
            } else if submitted(round.answers, player) {
                Some(Violation::AlreadySubmitted)
            } else if !seated(self.players, player) {
                Some(Violation::NotAPlayer)
            } else if without(self.players[seat(self.players, player)].hand, cards) is None {
                Some(Violation::CardsNotInHand)
            } else {
                None
            },
        }
    }

    /// With the answer of `player` every player but the czar has handed
    /// one in.
    pub open spec fn completes(self, player: usize) -> bool {
        (self.round->0).answers.len() + 1 == self.players.len() - 1
    }

    /// The session after `player` handed in `cards`: they left the hand and
    /// are recorded; the round is judged from now on if this was the last
    /// answer awaited.
    pub open spec fn answered(self, player: usize, cards: Seq<Seq<char>>) -> GameView {
        let at = seat(self.players, player);
        let round = self.round->0;
        GameView {
            players: self.players.update(
                at,
                PlayerView { hand: without(self.players[at].hand, cards)->0, ..self.players[at] },
            ),
            round: Some(
                RoundView {
                    answers: round.answers.insert(player, cards),
                    state: if self.completes(player) {
                        RoundState::Judging
                    } else {
                        RoundState::Answering
                    },
                    ..round
                },
            ),
            ..self
        }
    }

    /// The messages after `player` handed in `cards`: a receipt, and the
    /// answers for everyone if this was the last answer awaited.
    pub open spec fn answer_events(self, player: usize, cards: Seq<Seq<char>>) -> Seq<
        (Recipient, MessageView),
    > {
        let receipt = (Recipient::Player(player), MessageView::AnswerAccepted);
        if self.completes(player) {
            seq![
                receipt,
                (
                    Recipient::Everyone,
                    MessageView::ReadyToJudge((self.round->0).answers.insert(player, cards)),
                ),
            ]
        } else {
            seq![receipt]
        }
    }

    /// Why a judgement by `player` for `winner` is ignored, if it is.
    pub open spec fn judgement_violation(self, player: usize, winner: usize) -> Option<Violation> {
        match self.round {
            None => Some(Violation::NoRound),
            Some(round) => if round.state != RoundState::Judging {
                Some(Violation::NotJudging)
            } else if round.czar != player {
                Some(Violation::NotCzar)
            } else if !submitted(round.answers, winner) {
                Some(Violation::NoSuchSubmission)
            } else {
                None
            },
        }
    }

    /// The session with one point more for `winner`.
    pub open spec fn scored(self, winner: usize) -> GameView {
        let at = seat(self.players, winner);
        GameView {
            players: self.players.update(
                at,
                PlayerView { score: (self.players[at].score + 1) as u64, ..self.players[at] },
            ),
            ..self
        }
    }

    /// The message that tells of the end of a round won by `winner`, in a
    /// session in which the point is already given.
    pub open spec fn result_notice(self, winner: usize) -> (Recipient, MessageView) {
        let round = self.round->0;
        (
            Recipient::Everyone,
            MessageView::RoundEnded {
                winner: self.players[seat(self.players, winner)].name,
                winning_answers: round.answers[winner],
                scores: scores_of(self.players),
            },
        )
    }

    /// Why a login under `name` is turned down, if it is.
    pub open spec fn login_rejection(self, name: Seq<char>) -> Option<LoginRejectedReason> {
        if self.players.len() >= self.settings.max_players {
            Some(LoginRejectedReason::GameIsFull)
        } else if name_taken(self.players, name) {
            Some(LoginRejectedReason::UsernameIsTaken)
        } else {
            None
        }
    }

    /// A login starts a round: with the newcomer there are players enough,
    /// and no round is in progress.
    pub open spec fn login_starts_round(self) -> bool {
        self.players.len() + 1 >= self.settings.min_players && self.round is None
    }

    /// Why a login that is not turned down cannot be carried out, if it
    /// cannot: the answers do not suffice for the newcomer's hand, or the
    /// round that the login starts cannot start.
    pub open spec fn login_failure(self) -> Option<GameError> {
        if self.answers.available() < self.settings.hand_size {
            Some(GameError::Answers(DeckError::SupplyExhausted))
        } else if self.login_starts_round() {
            if self.prompts.available() < 1 {
                Some(GameError::Prompts(DeckError::SupplyExhausted))
            } else if self.answers.available() - self.settings.hand_size < total_shortfall(
                self.players,
                self.settings.hand_size,
            ) {
                Some(GameError::Answers(DeckError::SupplyExhausted))
            } else {
                None
            }
        } else {
            None
        }
    }

    /// A player named `name` joined on the way from `self` to `after`: at the
    /// end of the roster, under the next number, without points, with a
    /// full hand drawn from the answers.
    pub open spec fn joined(self, after: GameView, name: Seq<char>) -> bool {
        &&& after.settings == self.settings
        &&& after.prompts == self.prompts
        &&& after.round == self.round
        &&& after.next_id == self.next_id + 1
        &&& after.players.len() == self.players.len() + 1
        &&& after.players.drop_last() == self.players
        &&& after.players.last().id == self.next_id
        &&& after.players.last().name == name
        &&& after.players.last().score == 0
        &&& after.players.last().hand.len() == self.settings.hand_size
        &&& self.answers.drew(after.answers, after.players.last().hand)
    }

    /// The messages on the arrival of the newcomer, who is last in the
    /// roster: the newcomer is told that the login is accepted, and the
    /// players who were there before are told who joined.
    pub open spec fn welcome(self) -> Seq<(Recipient, MessageView)> {
        let newcomer = self.players.last();
        seq![
            (Recipient::Player(newcomer.id), MessageView::LoginAccepted),
            (Recipient::EveryoneBut(newcomer.id), MessageView::PlayerJoined { name: newcomer.name }),
        ]
    }

    /// The message that shows the round in progress to the newcomer, who is
    /// last in the roster: it is due where players are enough and answers
    /// are still being handed in.
    pub open spec fn catch_up(self) -> Seq<(Recipient, MessageView)> {
        if self.players.len() >= self.settings.min_players && self.round is Some && (
        self.round->0).state == RoundState::Answering {
            seq![round_notice(self.players.last(), self.round->0)]
        } else {
            Seq::empty()
        }
    }

    /// A login under `name` took the session from `self` to `after` and
    /// produced `events`: the player joined, and then either a round
    /// started, or the newcomer was shown the round in progress.
    pub open spec fn logged_in(
        self,
        after: GameView,
        name: Seq<char>,
        events: Seq<(Recipient, MessageView)>,
    ) -> bool {
        exists|mid: GameView|
            (#[trigger] self.joined(mid, name)) && if self.login_starts_round() {
                &&& mid.started(after)
                &&& events == mid.welcome() + after.round_events()
            } else {
                &&& after == mid
                &&& events == mid.welcome() + mid.catch_up()
            }
    }

    /// `res` and `after` are what a login under `name` leads to: it is
    /// turned down, or fails for want of cards, and nothing changes; or the
    /// player joins under the next number.
    pub open spec fn login_outcome(
        self,
        name: Seq<char>,
        after: GameView,
        res: Result<Login, GameError>,
    ) -> bool {
        match self.login_rejection(name) {
            Some(reason) => res == Ok::<Login, GameError>(Login::Rejected(reason)) && after == self,
            None => match self.login_failure() {
                Some(e) => res == Err::<Login, GameError>(e) && after == self,
                None => res matches Ok(Login::Accepted { id, events }) && id == self.next_id
                    && self.logged_in(after, name, events.deep_view()),
            },
        }
    }

    /// `res` and `after` are what an answer of `player` with `cards` leads
    /// to: it is ignored and nothing changes, or it is taken.
    pub open spec fn answer_outcome(
        self,
        player: usize,
        cards: Seq<Seq<char>>,
        after: GameView,
        res: Handled,
    ) -> bool {
        match self.answer_violation(player, cards) {
            Some(v) => res == Handled::Ignored(v) && after == self,
            None => res matches Handled::Done(events) && events.deep_view() == self.answer_events(
                player,
                cards,
            ) && after == self.answered(player, cards),
        }
    }

    /// `res` and `after` are what a judgement by `player` for `winner`
    /// leads to: it is ignored, or the next round cannot start, and
    /// nothing changes; or the winner has a point more, everyone is told
    /// the result, and the next round has started.
    pub open spec fn judgement_outcome(
        self,
        player: usize,
        winner: usize,
        after: GameView,
        res: Result<Handled, GameError>,
    ) -> bool {
        match self.judgement_violation(player, winner) {
            Some(v) => res == Ok::<Handled, GameError>(Handled::Ignored(v)) && after == self,
            None => match self.scored(winner).start_failure() {
                Some(e) => res == Err::<Handled, GameError>(e) && after == self,
                None => res matches Ok(Handled::Done(events)) && self.scored(winner).started(after)
                    && events.deep_view() == seq![self.scored(winner).result_notice(winner)]
                    + after.round_events(),
            },
        }
    }

    /// The score of the player `player` cannot rise any further.
    pub open spec fn score_at_limit(self, player: usize) -> bool {
        seated(self.players, player) && self.players[seat(self.players, player)].score == u64::MAX
    }

    /// The answers that `player` handed in and that are still with the
    /// round; none where there is no round or no such answer.
    pub open spec fn pending(self, player: usize) -> Seq<Seq<char>> {
        match self.round {
            Some(round) => pending_among(round.answers, player),
            None => Seq::empty(),
        }
    }

    /// The player `player` is the czar of the round in progress.
    pub open spec fn is_czar(self, player: usize) -> bool {
        self.round matches Some(round) && round.czar == player
    }

    /// The roster after the round was abandoned: each player has the
    /// answers handed in back at the end of the hand.
    pub open spec fn handed_back(self) -> Seq<PlayerView> {
        Seq::new(
            self.players.len(),
            |i: int|
                PlayerView {
                    hand: self.players[i].hand + self.pending(self.players[i].id),
                    ..self.players[i]
                },
        )
    }

    /// The session after the player `player` went away, before anything
    /// follows from it: the player left the roster; the hand and the
    /// answers handed in went to the discard pile. Where the player was the
    /// czar, the round is abandoned: its prompt is discarded and the
    /// answers handed in are back in the hands.
    pub open spec fn departed(self, player: usize) -> Result<GameView, GameError> {
        let at = seat(self.players, player);
        let gone = self.players[at];
        match self.answers.discard_all(gone.hand + self.pending(player)) {
            Err(e) => Err(GameError::Answers(e)),
            Ok(answers) => {
                let less = GameView { answers, players: self.players.remove(at), ..self };
                match self.round {
                    None => Ok(less),
                    Some(round) => if round.czar == player {
                        match self.prompts.discard_all(seq![round.prompt]) {
                            Err(e) => Err(GameError::Prompts(e)),
                            Ok(prompts) => Ok(
                                GameView {
                                    prompts,
                                    players: less.handed_back(),
                                    round: None,
                                    ..less
                                },
                            ),
                        }
                    } else {
                        Ok(
                            GameView {
                                round: Some(
                                    RoundView { answers: round.answers.remove(player), ..round },
                                ),
                                ..less
                            },
                        )
                    },
                }
            },
        }
    }

    /// Too few players are left to play.
    pub open spec fn short(self) -> bool {
        self.players.len() < self.settings.min_players
    }

    /// The session after it was seen to that players are enough: where
    /// they are not, the round is off, both supplies are reset and every
    /// hand is empty.
    pub open spec fn settled(self) -> GameView {
        if self.short() {
            GameView {
                prompts: self.prompts.reset(),
                answers: self.answers.reset(),
                round: None,
                players: Seq::new(
                    self.players.len(),
                    |i: int| PlayerView { hand: Seq::empty(), ..self.players[i] },
                ),
                ..self
            }
        } else {
            self
        }
    }

    /// The message that tells the players that the game is off, where
    /// players are too few.
    pub open spec fn settle_events(self) -> Seq<(Recipient, MessageView)> {
        if self.short() {
            seq![(Recipient::Everyone, MessageView::GameEnded)]
        } else {
            Seq::empty()
        }
    }

    /// A round follows at once on the departure of `player`: the player was
    /// the czar and is not the last to go.
    pub open spec fn restarts(self, player: usize) -> bool {
        self.is_czar(player) && self.players.len() > 1
    }

    /// Why the departure of the player `player` cannot be carried out, if it
    /// cannot: a supply refuses the cards that go back, or the round that
    /// follows on a czar's departure cannot start.
    pub open spec fn leave_failure(self, player: usize) -> Option<GameError> {
        match self.departed(player) {
            Err(e) => Some(e),
            Ok(less) => if self.restarts(player) {
                less.start_failure()
            } else {
                None
            },
        }
    }

    /// The departure of the player `player` took the session from `self` to
    /// `after` and produced `events`. Where a round follows at once, the
    /// turn to judge goes on from the czar who left.
    pub open spec fn left(
        self,
        after: GameView,
        player: usize,
        events: Seq<(Recipient, MessageView)>,
    ) -> bool {
        let less = self.departed(player)->Ok_0;
        let farewell = seq![
            (
                Recipient::Everyone,
                MessageView::PlayerLeft { name: self.players[seat(self.players, player)].name },
            ),
        ];
        if self.restarts(player) {
            exists|mid: GameView|
                (#[trigger] less.started_after(mid, Some(player))) && after == mid.settled()
                    && events == mid.round_events() + farewell + mid.settle_events()
        } else {
            after == less.settled() && events == farewell + less.settle_events()
        }
    }
}

} // verus!
