//! What a player's screen keeps of the game and how it changes: the cards
//! picked for an answer, the czar's choice, the course of a round as the
//! player sees it, and the order of the score board.

use crate::round::copy_answers;
use crate::schema::{Answer, LoginRejectedReason, Message, Prompt, Role};
use std::collections::HashMap;
use vstd::prelude::*;

verus! {

/// The cards picked for an answer, one slot for each card that the prompt
/// takes, and the hand that is left.
#[derive(Debug, Clone, PartialEq)]
pub struct Selection {
    pub hand: Vec<Answer>,
    pub slots: Vec<Option<Answer>>,
}

/// `k` is the first slot that is free.
pub open spec fn is_first_free(slots: Seq<Option<Answer>>, k: int) -> bool {
    &&& 0 <= k < slots.len()
    &&& slots[k] is None
    &&& forall|j: int| 0 <= j < k ==> (#[trigger] slots[j]) is Some
}

/// The slot that the next card goes to: the first free one, or the last
/// one where none is free.
pub open spec fn target(slots: Seq<Option<Answer>>) -> int {
    if exists|k: int| is_first_free(slots, k) {
        choose|k: int| is_first_free(slots, k)
    } else {
        slots.len() - 1
    }
}

/// The first free slot is determined.
pub proof fn lemma_first_free(slots: Seq<Option<Answer>>, k: int)
    requires
        is_first_free(slots, k),
    ensures
        target(slots) == k,
{
    let t = target(slots);
    assert(is_first_free(slots, t));
    if t < k {
        assert(slots[t] is Some);
    } else if k < t {
        assert(slots[k] is Some);
    }
}

/// What the filled slots say, in the order of the slots.
pub open spec fn picked(slots: Seq<Option<Answer>>) -> Seq<Seq<char>>
    decreases slots.len(),
{
    if slots.len() == 0 {
        Seq::empty()
    } else {
        match slots.last() {
            Some(card) => picked(slots.drop_last()).push(card@),
            None => picked(slots.drop_last()),
        }
    }
}

impl Selection {
    /// Nothing is picked yet: `n_answers` free slots.
    pub fn new(hand: Vec<Answer>, n_answers: u8) -> (selection: Selection)
        ensures
            selection.hand == hand,
            selection.slots@ == Seq::new(n_answers as nat, |k: int| None::<Answer>),
    {
        let mut slots: Vec<Option<Answer>> = Vec::new();
        let mut k: u8 = 0;
        while k < n_answers
            invariant
                k <= n_answers,
                slots@ == Seq::new(k as nat, |k: int| None::<Answer>),
            decreases n_answers - k,
        {
            slots.push(None);
            k += 1;
            proof {
                assert(slots@ =~= Seq::new(k as nat, |k: int| None::<Answer>));
            }
        }
        Selection { hand, slots }
    }

    /// Picks the card at place `i` of the hand: it goes to the first free
    /// slot, or to the last slot where none is free; the card that was
    /// there goes back to the end of the hand.
    pub fn select(&mut self, i: usize)
        requires
            i < old(self).hand@.len(),
            old(self).slots@.len() > 0,
        ensures
            final(self).slots@ == old(self).slots@.update(
                target(old(self).slots@),
                Some(old(self).hand@[i as int]),
            ),
            final(self).hand@ == match old(self).slots@[target(old(self).slots@)] {
                Some(back) => old(self).hand@.remove(i as int).push(back),
                None => old(self).hand@.remove(i as int),
            },
    {
        let ghost slots = self.slots@;
        let mut at: usize = self.slots.len() - 1;
        let mut k: usize = 0;
        let mut found = false;
        while k < self.slots.len() && !found
            invariant
                k <= self.slots.len(),
                self.slots@ == slots,
                slots.len() > 0,
                !found ==> at == slots.len() - 1 && forall|j: int|
                    0 <= j < k ==> (#[trigger] slots[j]) is Some,
                found ==> is_first_free(slots, at as int),
            decreases self.slots.len() - k + (if found { 0int } else { 1int }),
        {
            if self.slots[k].is_none() {
                at = k;
                found = true;
            } else {
                k += 1;
            }
        }
        proof {
            if found {
                lemma_first_free(slots, at as int);
            } else {
                assert(!exists|k: int| is_first_free(slots, k));
            }
        }
        let card = self.hand.remove(i);
        let mut moved = Some(card);
        std::mem::swap(&mut self.slots[at], &mut moved);
        match moved {
            Some(back) => {
                self.hand.push(back);
            },
            None => {},
        }
    }

    /// Takes the card out of slot `i`, back to the end of the hand.
    pub fn unselect(&mut self, i: usize)
        requires
            i < old(self).slots@.len(),
        ensures
            final(self).slots@ == old(self).slots@.update(i as int, None),
            final(self).hand@ == match old(self).slots@[i as int] {
                Some(back) => old(self).hand@.push(back),
                None => old(self).hand@,
            },
    {
        let mut moved: Option<Answer> = None;
        std::mem::swap(&mut self.slots[i], &mut moved);
        match moved {
            Some(back) => {
                self.hand.push(back);
            },
            None => {},
        }
    }

    /// Whether every slot is filled.
    pub fn can_submit(&self) -> (full: bool)
        ensures
            full == forall|k: int| 0 <= k < self.slots@.len() ==> (#[trigger] self.slots@[k]) is Some,
    {
        let mut k: usize = 0;
        while k < self.slots.len()
            invariant
                k <= self.slots.len(),
                forall|j: int| 0 <= j < k ==> (#[trigger] self.slots@[j]) is Some,
            decreases self.slots.len() - k,
        {
            if self.slots[k].is_none() {
                return false;
            }
            k += 1;
        }
        true
    }

    /// The answer to submit: copies of the cards in the filled slots, in
    /// the order of the slots.
    pub fn chosen(&self) -> (cards: Vec<Answer>)
        ensures
            cards.deep_view() == picked(self.slots@),
    {
        let mut cards: Vec<Answer> = Vec::new();
        let mut k: usize = 0;
        while k < self.slots.len()
            invariant
                k <= self.slots.len(),
                cards.deep_view() == picked(self.slots@.take(k as int)),
            decreases self.slots.len() - k,
        {
            let ghost before = cards.deep_view();
            proof {
                assert(self.slots@.take(k + 1).drop_last() =~= self.slots@.take(k as int));
                assert(self.slots@.take(k + 1).last() == self.slots@[k as int]);
            }
            match &self.slots[k] {
                Some(card) => {
                    cards.push(card.clone());
                    proof {
                        assert(cards.deep_view() =~= before.push(card@));
                    }
                },
                None => {},
            }
            k += 1;
        }
        proof {
            assert(self.slots@.take(k as int) =~= self.slots@);
        }
        cards
    }
}

/// The czar's choice among the answers handed in.
#[derive(Debug, Clone, Copy, PartialEq, Eq, Structural)]
pub struct Verdict {
    /// Whether this player is the one to judge.
    pub can_judge: bool,
    /// The player whose answer is marked.
    pub selection: Option<usize>,
}

impl Verdict {
    /// Nothing is marked yet.
    pub fn new(can_judge: bool) -> (verdict: Verdict)
        ensures
            verdict == (Verdict { can_judge, selection: None }),
    {
        Verdict { can_judge, selection: None }
    }

    /// Marks the answer of the player `player`, where this player judges.
    /// Says whether anything changed.
    pub fn select(&mut self, player: usize) -> (changed: bool)
        ensures
            changed == old(self).can_judge,
            final(self).can_judge == old(self).can_judge,
            final(self).selection == if old(self).can_judge {
                Some(player)
            } else {
                old(self).selection
            },
    {
        if self.can_judge {
            self.selection = Some(player);
            true
        } else {
            false
        }
    }

    /// The judgement to submit: the player marked, where this player
    /// judges and has marked one.
    pub fn submit(&self) -> (winner: Option<usize>)
        ensures
            winner == if self.can_judge {
                self.selection
            } else {
                None
            },
    {
        if self.can_judge {
            self.selection
        } else {
            None
        }
    }
}

/// Where a player stands in a round.
#[derive(Debug, Clone, PartialEq)]
pub enum Phase {
    /// A player picks an answer.
    SelectingAnswers,
    /// A player has sent an answer that the server has yet to accept.
    WaitingForAnswersApproval(Vec<Answer>),
    /// A player's answer is accepted; others are still to answer.
    WaitingForOtherPlayers(Vec<Answer>),
    /// A player waits for the czar to judge these answers.
    AwaitingJudgement(HashMap<usize, Vec<Answer>>),
    /// The czar waits for the answers.
    WaitingForAnswers,
    /// The czar judges these answers.
    JudgingAnswers(HashMap<usize, Vec<Answer>>),
}

/// How a round ended.
#[derive(Debug, Clone, PartialEq)]
pub struct RoundResults {
    pub prompt: Prompt,
    pub winner: String,
    pub winning_answers: Vec<Answer>,
    pub scores: Vec<(String, u64)>,
}

/// A round as a player sees it.
#[derive(Debug, Clone, PartialEq)]
pub struct RoundScreen {
    pub role: Role,
    pub prompt: Prompt,
    pub hand: Vec<Answer>,
    pub state: Phase,
    pub results: Option<RoundResults>,
}

/// What happens to a round on a player's screen.
#[derive(Debug, Clone, PartialEq)]
pub enum RoundEvent {
    /// The player submits these cards.
    SubmitAnswer(Vec<Answer>),
    /// The player, as czar, names this player the winner.
    SubmitJudgement(usize),
    /// The player leaves the results of the round.
    RoundExited,
    /// The server sent this message.
    Server(Message),
}

/// What follows from an event on a player's screen.
#[derive(Debug, Clone, PartialEq)]
pub struct Step {
    /// Whether the screen is to be drawn again.
    pub render: bool,
    /// The message to send to the server, if any.
    pub send: Option<Message>,
    /// Whether the round is left.
    pub exit: bool,
}

/// The phase in which a round starts for a player with the part `role`.
pub open spec fn first_phase(role: Role) -> Phase {
    match role {
        Role::Player => Phase::SelectingAnswers,
        Role::Czar => Phase::WaitingForAnswers,
    }
}

/// `card` says what one of `played` says.
pub open spec fn played(cards: Seq<Answer>, card: Answer) -> bool {
    exists|k: int| 0 <= k < cards.len() && (#[trigger] cards[k])@ == card@
}

/// Whether `cards` holds a card that says what `card` says.
fn was_played(cards: &Vec<Answer>, card: &Answer) -> (found: bool)
    ensures
        found == played(cards@, *card),
{
    let mut k: usize = 0;
    while k < cards.len()
        invariant
            k <= cards.len(),
            forall|j: int| 0 <= j < k ==> (#[trigger] cards@[j])@ != card@,
        decreases cards.len() - k,
    {
        if cards[k] == *card {
            return true;
        }
        k += 1;
    }
    false
}

/// The cards of `hand` that are not among `cards`, in the order of the
/// hand.
fn keep_unplayed(hand: Vec<Answer>, cards: &Vec<Answer>) -> (rest: Vec<Answer>)
    ensures
        rest@ == hand@.filter(|card: Answer| !played(cards@, card)),
{
    let ghost all = hand@;
    let ghost unplayed = |card: Answer| !played(cards@, card);
    let mut rest: Vec<Answer> = Vec::new();
    proof {
        reveal(Seq::filter);
        assert(all.take(0).filter(unplayed) =~= Seq::<Answer>::empty());
    }
    for card in it: hand
        invariant
            it.seq() == all,
            unplayed == |card: Answer| !played(cards@, card),
            rest@ == all.take(it.index() as int).filter(unplayed),
    {
        proof {
            reveal(Seq::filter);
            let at = it.index() as int;
            assert(all.take(at + 1).drop_last() =~= all.take(at));
            assert(all.take(at + 1).last() == card);
        }
        if !was_played(cards, &card) {
            rest.push(card);
        }
    }
    proof {
        assert(all.take(all.len() as int) =~= all);
    }
    rest
}

impl RoundScreen {
    /// The screen at the start of a round.
    pub fn new(role: Role, prompt: Prompt, hand: Vec<Answer>) -> (screen: RoundScreen)
        ensures
            screen == (RoundScreen {
                role,
                prompt,
                hand,
                state: first_phase(role),
                results: None,
            }),
    {
        let state = match role {
            Role::Player => Phase::SelectingAnswers,
            Role::Czar => Phase::WaitingForAnswers,
        };
        RoundScreen { role, prompt, hand, state, results: None }
    }

    /// Takes over the part, the prompt and the hand of a new round. The
    /// results shown stay until the player leaves them.
    pub fn change(&mut self, role: Role, prompt: Prompt, hand: Vec<Answer>)
        ensures
            *final(self) == (RoundScreen {
                role,
                prompt,
                hand,
                state: first_phase(role),
                results: old(self).results,
            }),
    {
        self.state = match role {
            Role::Player => Phase::SelectingAnswers,
            Role::Czar => Phase::WaitingForAnswers,
        };
        self.role = role;
        self.prompt = prompt;
        self.hand = hand;
    }

    /// Takes an event and says what follows from it.
    ///
    /// An answer or a judgement of the player is sent to the server. When
    /// the server accepts the answer, the cards played leave the hand.
    /// When all answers are in, the czar judges and the others wait. When
    /// the round has ended, its results are kept until the player leaves
    /// them. Every other message of the server goes by.
    pub fn step(&mut self, event: RoundEvent) -> (step: Step)
        requires
            !(event matches RoundEvent::Server(Message::AnswerRejected)),
        ensures
            final(self).role == old(self).role,
            final(self).prompt == old(self).prompt,
            match event {
                RoundEvent::SubmitAnswer(answers) => {
                    &&& final(self).state == Phase::WaitingForAnswersApproval(answers)
                    &&& final(self).hand == old(self).hand
                    &&& final(self).results == old(self).results
                    &&& !step.render && !step.exit
                    &&& step.send matches Some(Message::SubmitAnswer(cards))
                    &&& cards.deep_view() == answers.deep_view()
                },
                RoundEvent::SubmitJudgement(winner) => {
                    &&& *final(self) == *old(self)
                    &&& step == (Step {
                        render: false,
                        send: Some(Message::SubmitJudgement(winner)),
                        exit: false,
                    })
                },
                RoundEvent::RoundExited => {
                    &&& final(self).state == old(self).state
                    &&& final(self).hand == old(self).hand
                    &&& final(self).results is None
                    &&& step == (Step { render: true, send: None, exit: true })
                },
                RoundEvent::Server(Message::AnswerAccepted) => match old(self).state {
                    Phase::WaitingForAnswersApproval(answers) => {
                        &&& final(self).state == Phase::WaitingForOtherPlayers(answers)
                        &&& final(self).hand@ == old(self).hand@.filter(
                            |card: Answer| !played(answers@, card),
                        )
                        &&& final(self).results == old(self).results
                        &&& step == (Step { render: true, send: None, exit: false })
                    },
                    _ => {
                        &&& *final(self) == *old(self)
                        &&& step == (Step { render: false, send: None, exit: false })
                    },
                },
                RoundEvent::Server(Message::ReadyToJudge(answers)) => {
                    &&& final(self).state == match old(self).role {
                        Role::Czar => Phase::JudgingAnswers(answers),
                        Role::Player => Phase::AwaitingJudgement(answers),
                    }
                    &&& final(self).hand == old(self).hand
                    &&& final(self).results == old(self).results
                    &&& step == (Step { render: true, send: None, exit: false })
                },
                RoundEvent::Server(Message::RoundEnded { winner, winning_answers, scores }) => {
                    &&& final(self).state == old(self).state
                    &&& final(self).hand == old(self).hand
                    &&& final(self).results == Some(
                        RoundResults { prompt: old(self).prompt, winner, winning_answers, scores },
                    )
                    &&& step == (Step { render: true, send: None, exit: false })
                },
                RoundEvent::Server(_) => {
                    &&& *final(self) == *old(self)
                    &&& step == (Step { render: false, send: None, exit: false })
                },
            },
    {
        match event {
            RoundEvent::SubmitAnswer(answers) => {
                let cards = copy_answers(&answers);
                self.state = Phase::WaitingForAnswersApproval(answers);
                Step { render: false, send: Some(Message::SubmitAnswer(cards)), exit: false }
            },
            RoundEvent::SubmitJudgement(winner) => Step {
                render: false,
                send: Some(Message::SubmitJudgement(winner)),
                exit: false,
            },
            RoundEvent::RoundExited => {
                self.results = None;
                Step { render: true, send: None, exit: true }
            },
            RoundEvent::Server(message) => match message {
                Message::AnswerAccepted => {
                    let mut state = Phase::SelectingAnswers;
                    std::mem::swap(&mut self.state, &mut state);
                    match state {
                        Phase::WaitingForAnswersApproval(answers) => {
                            let mut hand: Vec<Answer> = Vec::new();
                            std::mem::swap(&mut self.hand, &mut hand);
                            self.hand = keep_unplayed(hand, &answers);
                            self.state = Phase::WaitingForOtherPlayers(answers);
                            Step { render: true, send: None, exit: false }
                        },
                        other => {
                            self.state = other;
                            Step { render: false, send: None, exit: false }
                        },
                    }
                },
                Message::ReadyToJudge(answers) => {
                    self.state = match self.role {
                        Role::Czar => Phase::JudgingAnswers(answers),
                        Role::Player => Phase::AwaitingJudgement(answers),
                    };
                    Step { render: true, send: None, exit: false }
                },
                Message::RoundEnded { winner, winning_answers, scores } => {
                    self.results = Some(
                        RoundResults {
                            prompt: self.prompt.clone(),
                            winner,
                            winning_answers,
                            scores,
                        },
                    );
                    Step { render: true, send: None, exit: false }
                },
                _ => Step { render: false, send: None, exit: false },
            },
        }
    }
}

/// What a player's screen shows.
#[derive(Debug, Clone, PartialEq)]
pub enum Screen {
    /// The login, with the reason for which the last one was turned down.
    LoggingIn { error: Option<LoginRejectedReason> },
    /// The player is logged in; no round is on.
    WaitingForNextRound,
    /// A round is on.
    OngoingRound { role: Role, prompt: Prompt, hand: Vec<Answer> },
}

impl Screen {
    /// The screen before anything has happened.
    pub fn new() -> (screen: Screen)
        ensures
            screen == (Screen::LoggingIn { error: None }),
    {
        Screen::LoggingIn { error: None }
    }

    /// Takes a message of the server and says whether the screen is to be
    /// drawn again.
    pub fn on_message(&mut self, message: Message) -> (render: bool)
        requires
            !(message is JoinedLobby),
        ensures
            match message {
                Message::LoginAccepted => render && *final(self) == Screen::WaitingForNextRound,
                Message::LoginRejected(reason) => render && *final(self) == (Screen::LoggingIn {
                    error: Some(reason),
                }),
                Message::NewRound { role, prompt, hand } => render && *final(self) == (
                Screen::OngoingRound { role, prompt, hand }),
                Message::GameEnded => render && *final(self) == Screen::WaitingForNextRound,
                _ => !render && *final(self) == *old(self),
            },
    {
        match message {
            Message::LoginAccepted => {
                *self = Screen::WaitingForNextRound;
                true
            },
            Message::LoginRejected(reason) => {
                *self = Screen::LoggingIn { error: Some(reason) };
                true
            },
            Message::NewRound { role, prompt, hand } => {
                *self = Screen::OngoingRound { role, prompt, hand };
                true
            },
            Message::GameEnded => {
                *self = Screen::WaitingForNextRound;
                true
            },
            _ => false,
        }
    }
}

/// The line that tells the player of a message, for the messages that are
/// worth one.
pub open spec fn notice_text(message: Message) -> Option<Seq<char>> {
    match message {
        Message::LoginRejected(_) => Some("Login rejected"@),
        Message::PlayerJoined { name } => Some(name@ + " joined the game"@),
        Message::PlayerLeft { name } => Some(name@ + " left the game"@),
        _ => None,
    }
}

/// The line that tells the player of a message, if it is worth one.
pub fn notice(message: &Message) -> (text: Option<String>)
    ensures
        match text {
            Some(line) => notice_text(*message) == Some(line@),
            None => notice_text(*message) is None,
        },
{
    match message {
        Message::LoginRejected(_) => Some("Login rejected".to_owned()),
        Message::PlayerJoined { name } => {
            let mut line = name.clone();
            line.append(" joined the game");
            Some(line)
        },
        Message::PlayerLeft { name } => {
            let mut line = name.clone();
            line.append(" left the game");
            Some(line)
        },
        _ => None,
    }
}

/// The board with `entry` put in its place: behind every entry with as
/// many points or more.
pub open spec fn placed(board: Seq<(Seq<char>, u64)>, entry: (Seq<char>, u64)) -> Seq<
    (Seq<char>, u64),
>
    decreases board.len(),
{
    if board.len() == 0 || board.last().1 >= entry.1 {
        board.push(entry)
    } else {
        placed(board.drop_last(), entry).push(board.last())
    }
}

/// The scores from high to low; entries with the same points stay in the
/// order in which they came.
pub open spec fn ranked_scores(scores: Seq<(Seq<char>, u64)>) -> Seq<(Seq<char>, u64)>
    decreases scores.len(),
{
    if scores.len() == 0 {
        Seq::empty()
    } else {
        placed(ranked_scores(scores.drop_last()), scores.last())
    }
}

/// The points fall along the board, or stay.
pub open spec fn falling(board: Seq<(Seq<char>, u64)>) -> bool {
    forall|i: int, j: int| 0 <= i < j < board.len() ==> board[i].1 >= board[j].1
}

/// Putting an entry in its place is an insertion at the place behind
/// which every entry has fewer points.
pub proof fn lemma_placed_at(board: Seq<(Seq<char>, u64)>, entry: (Seq<char>, u64), at: int)
    requires
        0 <= at <= board.len(),
        at > 0 ==> board[at - 1].1 >= entry.1,
        forall|k: int| at <= k < board.len() ==> (#[trigger] board[k]).1 < entry.1,
    ensures
        placed(board, entry) == board.insert(at, entry),
    decreases board.len() - at,
{
    if at == board.len() {
        assert(board.insert(at, entry) =~= board.push(entry));
    } else {
        assert(board.last().1 < entry.1) by {
            assert(board[board.len() - 1].1 < entry.1);
        }
        lemma_placed_at(board.drop_last(), entry, at);
        assert(board.drop_last().insert(at, entry).push(board.last()) =~= board.insert(at, entry));
    }
}

/// Putting an entry in its place keeps a falling board falling and adds
/// nothing but the entry.
pub proof fn lemma_placed(board: Seq<(Seq<char>, u64)>, entry: (Seq<char>, u64))
    requires
        falling(board),
    ensures
        falling(placed(board, entry)),
        placed(board, entry).to_multiset() == board.to_multiset().insert(entry),
        placed(board, entry).len() == board.len() + 1,
    decreases board.len(),
{
    broadcast use vstd::multiset::group_multiset_axioms;
    broadcast use vstd::seq_lib::group_to_multiset_ensures;

    if board.len() == 0 || board.last().1 >= entry.1 {
        let after = board.push(entry);
        assert forall|i: int, j: int| 0 <= i < j < after.len() implies after[i].1 >= after[j].1 by {
            if j == board.len() {
                if i < board.len() - 1 {
                    assert(board[i].1 >= board[board.len() - 1].1);
                }
            } else {
                assert(board[i].1 >= board[j].1);
            }
        }
    } else {
        let front = board.drop_last();
        assert(falling(front)) by {
            assert forall|i: int, j: int| 0 <= i < j < front.len() implies front[i].1
                >= front[j].1 by {
                assert(board[i].1 >= board[j].1);
            }
        }
        lemma_placed(front, entry);
        let inner = placed(front, entry);
        let after = inner.push(board.last());
        assert(front.push(board.last()) =~= board);
        assert(after.to_multiset() =~= board.to_multiset().insert(entry));
        assert forall|i: int, j: int| 0 <= i < j < after.len() implies after[i].1 >= after[j].1 by {
            if j == inner.len() {
                assert(inner.contains(inner[i]));
                assert(inner.to_multiset().count(inner[i]) > 0);
                if inner[i] != entry {
                    assert(front.to_multiset().count(inner[i]) > 0);
                    assert(front.contains(inner[i]));
                    let w = choose|w: int| 0 <= w < front.len() && front[w] == inner[i];
                    assert(board[w].1 >= board[board.len() - 1].1);
                }
            } else {
                assert(inner[i].1 >= inner[j].1);
            }
        }
    }
}

/// The ranked scores fall along the board and are the scores given, each
/// as often as given.
pub proof fn lemma_ranked_scores(scores: Seq<(Seq<char>, u64)>)
    ensures
        falling(ranked_scores(scores)),
        ranked_scores(scores).to_multiset() == scores.to_multiset(),
        ranked_scores(scores).len() == scores.len(),
    decreases scores.len(),
{
    broadcast use vstd::multiset::group_multiset_axioms;
    broadcast use vstd::seq_lib::group_to_multiset_ensures;

    if scores.len() > 0 {
        lemma_ranked_scores(scores.drop_last());
        lemma_placed(ranked_scores(scores.drop_last()), scores.last());
        assert(scores.drop_last().push(scores.last()) =~= scores);
    }
}

/// Orders the scores from high to low for the score board; entries with
/// the same points stay in the order in which they came.
pub fn ranked(scores: Vec<(String, u64)>) -> (board: Vec<(String, u64)>)
    ensures
        board.deep_view() == ranked_scores(scores.deep_view()),
{
    let ghost all = scores.deep_view();
    let ghost raw = scores@;
    let mut board: Vec<(String, u64)> = Vec::new();
    for entry in it: scores
        invariant
            it.seq() == raw,
            all.len() == raw.len(),
            forall|k: int| 0 <= k < raw.len() ==> all[k] == (#[trigger] raw[k]).deep_view(),
            board.deep_view() == ranked_scores(all.take(it.index() as int)),
    {
        let ghost before = board.deep_view();
        proof {
            let at = it.index() as int;
            assert(all.take(at + 1).drop_last() =~= all.take(at));
            assert(all.take(at + 1).last() == entry.deep_view());
        }
        let mut at: usize = board.len();
        while at > 0 && board[at - 1].1 < entry.1
            invariant
                at <= board.len(),
                before == board.deep_view(),
                forall|k: int| at <= k < before.len() ==> (#[trigger] before[k]).1 < entry.1,
            decreases at,
        {
            at -= 1;
        }
        proof {
            lemma_placed_at(before, entry.deep_view(), at as int);
        }
        board.insert(at, entry);
        proof {
            assert(board.deep_view() =~= before.insert(at as int, entry.deep_view()));
        }
    }
    proof {
        assert(all.take(all.len() as int) =~= all);
    }
    board
}

} // verus!
