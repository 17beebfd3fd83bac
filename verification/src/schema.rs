//! The cards and the messages exchanged between the game and its clients.

use std::collections::HashMap;
use vstd::prelude::*;
use vstd::std_specs::cmp::PartialEqSpecImpl;

verus! {

/// A request to submit cards, as a client may phrase it.
#[derive(Debug)]
pub struct SubmitRequest {
    pub user_id: u64,
    pub cards: Vec<String>,
}

/// The part a player has in a round.
#[derive(Debug, Clone, Copy, PartialEq, Eq, Structural)]
pub enum Role {
    Player,
    Czar,
}

impl DeepView for Role {
    type V = Role;

    open spec fn deep_view(&self) -> Role {
        *self
    }
}

/// The number of answers that a prompt asks for when it does not say.
pub fn default_n_answers() -> (n: u8)
    ensures
        n == 1,
{
    1
}

/// A card with a phrase to complete and the number of answers it takes.
#[derive(Debug)]
pub struct Prompt {
    pub content: String,
    pub n_answers: u8,
}

/// What a [`Prompt`] says.
pub struct PromptView {
    pub content: Seq<char>,
    pub n_answers: u8,
}

impl DeepView for Prompt {
    type V = PromptView;

    open spec fn deep_view(&self) -> PromptView {
        PromptView { content: self.content@, n_answers: self.n_answers }
    }
}

impl View for Prompt {
    type V = PromptView;

    open spec fn view(&self) -> PromptView {
        self.deep_view()
    }
}

impl Prompt {
    pub fn new(content: String, n_answers: u8) -> (prompt: Self)
        ensures
            prompt.content == content,
            prompt.n_answers == n_answers,
    {
        Prompt { content, n_answers }
    }
}

impl PartialEq for Prompt {
    fn eq(&self, other: &Self) -> (same: bool) {
        self.content == other.content && self.n_answers == other.n_answers
    }
}

impl PartialEqSpecImpl for Prompt {
    open spec fn obeys_eq_spec() -> bool {
        true
    }

    open spec fn eq_spec(&self, other: &Self) -> bool {
        self.content@ == other.content@ && self.n_answers == other.n_answers
    }
}

impl Eq for Prompt {

}

impl Clone for Prompt {
    fn clone(&self) -> (copy: Self)
        ensures
            copy == *self,
    {
        Prompt { content: self.content.clone(), n_answers: self.n_answers }
    }
}

/// A card with a phrase that answers a prompt.
#[derive(Debug, Hash)]
pub struct Answer {
    pub content: String,
}

impl DeepView for Answer {
    type V = Seq<char>;

    open spec fn deep_view(&self) -> Seq<char> {
        self.content@
    }
}

impl View for Answer {
    type V = Seq<char>;

    open spec fn view(&self) -> Seq<char> {
        self.content@
    }
}

impl Answer {
    pub fn new(content: String) -> (answer: Self)
        ensures
            answer.content == content,
    {
        Answer { content }
    }
}

impl PartialEq for Answer {
    fn eq(&self, other: &Self) -> (same: bool) {
        self.content == other.content
    }
}

impl PartialEqSpecImpl for Answer {
    open spec fn obeys_eq_spec() -> bool {
        true
    }

    open spec fn eq_spec(&self, other: &Self) -> bool {
        self.content@ == other.content@
    }
}

impl Eq for Answer {

}

impl Clone for Answer {
    fn clone(&self) -> (copy: Self)
        ensures
            copy == *self,
    {
        Answer { content: self.content.clone() }
    }
}

/// Why a login was turned down.
#[derive(Debug, Clone, Copy, PartialEq, Eq, Structural)]
pub enum LoginRejectedReason {
    UsernameIsTaken,
    GameIsFull,
}

impl DeepView for LoginRejectedReason {
    type V = LoginRejectedReason;

    open spec fn deep_view(&self) -> LoginRejectedReason {
        *self
    }
}

/// A message between a client and the game, in either direction.
#[derive(Debug, Clone, PartialEq)]
pub enum Message {
    Login(String),
    LoginAccepted,
    LoginRejected(LoginRejectedReason),
    JoinedLobby,
    Ready,
    NotReady,
    NewGame { hand: Vec<Answer> },
    NewRound { role: Role, prompt: Prompt, hand: Vec<Answer> },
    SubmitAnswer(Vec<Answer>),
    AnswerAccepted,
    AnswerRejected,
    /// The answers of the round, by the number of the player.
    ReadyToJudge(HashMap<usize, Vec<Answer>>),
    SubmitJudgement(usize),
    JudgementRejected,
    /// The winner's name and cards, and every player's name and score, by
    /// rising player number. A list, not a map: a name is a `String`, and
    /// for maps keyed by strings nothing could be proved of what they
    /// hold.
    RoundEnded { winner: String, winning_answers: Vec<Answer>, scores: Vec<(String, u64)> },
    GameEnded,
    PlayerJoined { name: String },
    PlayerLeft { name: String },
}

/// What a [`Message`] says.
pub enum MessageView {
    Login(Seq<char>),
    LoginAccepted,
    LoginRejected(LoginRejectedReason),
    JoinedLobby,
    Ready,
    NotReady,
    NewGame { hand: Seq<Seq<char>> },
    NewRound { role: Role, prompt: PromptView, hand: Seq<Seq<char>> },
    SubmitAnswer(Seq<Seq<char>>),
    AnswerAccepted,
    AnswerRejected,
    ReadyToJudge(Map<usize, Seq<Seq<char>>>),
    SubmitJudgement(usize),
    JudgementRejected,
    RoundEnded { winner: Seq<char>, winning_answers: Seq<Seq<char>>, scores: Seq<(Seq<char>, u64)> },
    GameEnded,
    PlayerJoined { name: Seq<char> },
    PlayerLeft { name: Seq<char> },
}

impl DeepView for Message {
    type V = MessageView;

    open spec fn deep_view(&self) -> MessageView {
        match self {
            Message::Login(name) => MessageView::Login(name@),
            Message::LoginAccepted => MessageView::LoginAccepted,
            Message::LoginRejected(reason) => MessageView::LoginRejected(*reason),
            Message::JoinedLobby => MessageView::JoinedLobby,
            Message::Ready => MessageView::Ready,
            Message::NotReady => MessageView::NotReady,
            Message::NewGame { hand } => MessageView::NewGame { hand: hand.deep_view() },
            Message::NewRound { role, prompt, hand } => MessageView::NewRound {
                role: *role,
                prompt: prompt.deep_view(),
                hand: hand.deep_view(),
            },
            Message::SubmitAnswer(cards) => MessageView::SubmitAnswer(cards.deep_view()),
            Message::AnswerAccepted => MessageView::AnswerAccepted,
            Message::AnswerRejected => MessageView::AnswerRejected,
            Message::ReadyToJudge(answers) => MessageView::ReadyToJudge(answers.deep_view()),
            Message::SubmitJudgement(winner) => MessageView::SubmitJudgement(*winner),
            Message::JudgementRejected => MessageView::JudgementRejected,
            Message::RoundEnded { winner, winning_answers, scores } => MessageView::RoundEnded {
                winner: winner@,
                winning_answers: winning_answers.deep_view(),
                scores: scores.deep_view(),
            },
            Message::GameEnded => MessageView::GameEnded,
            Message::PlayerJoined { name } => MessageView::PlayerJoined { name: name@ },
            Message::PlayerLeft { name } => MessageView::PlayerLeft { name: name@ },
        }
    }
}

impl View for Message {
    type V = MessageView;

    open spec fn view(&self) -> MessageView {
        self.deep_view()
    }
}

/// The character that stands for the digit `d`.
pub open spec fn digit(d: int) -> char {
    (d + 48) as char
}

/// The number `n` in decimal digits.
pub open spec fn decimal(n: nat) -> Seq<char>
    decreases n,
{
    if n < 10 {
        seq![digit(n as int)]
    } else {
        decimal(n / 10).push(digit((n % 10) as int))
    }
}

/// The text between double quotes.
pub open spec fn quoted(content: Seq<char>) -> Seq<char> {
    seq!['"'] + content + seq!['"']
}

impl PromptView {
    /// The prompt as a line of text: its content in quotes, followed by
    /// the number of answers where that is not one.
    pub open spec fn text(self) -> Seq<char> {
        if self.n_answers == 1 {
            quoted(self.content)
        } else {
            quoted(self.content) + " ("@ + decimal(self.n_answers as nat) + " answers)"@
        }
    }
}

/// Appends the digit `d`.
fn push_digit(text: &mut String, d: u8)
    requires
        d < 10,
    ensures
        final(text)@ == old(text)@.push(digit(d as int)),
{
    crate::util::push_char(text, (d + 48) as char);
}

/// Appends `n` in decimal digits.
fn push_decimal(text: &mut String, n: u8)
    ensures
        final(text)@ == old(text)@ + decimal(n as nat),
{
    let ghost before = text@;
    if n >= 100 {
        push_digit(text, n / 100);
        push_digit(text, (n / 10) % 10);
        push_digit(text, n % 10);
        proof {
            let all = n as nat;
            assert(decimal(all / 100) =~= seq![digit((n / 100) as int)]);
            assert((all / 10) / 10 == all / 100);
            assert(decimal(all / 10) =~= decimal(all / 100).push(digit(((n / 10) % 10) as int)));
            assert(text@ =~= before + decimal(all));
        }
    } else if n >= 10 {
        push_digit(text, n / 10);
        push_digit(text, n % 10);
        proof {
            let all = n as nat;
            assert(decimal(all / 10) =~= seq![digit((n / 10) as int)]);
            assert(text@ =~= before + decimal(all));
        }
    } else {
        push_digit(text, n);
        proof {
            assert(text@ =~= before + decimal(n as nat));
        }
    }
}

impl Prompt {
    /// The prompt as a line of text: its content in quotes, followed by
    /// the number of answers where that is not one.
    pub fn to_string(&self) -> (text: String)
        ensures
            text@ == self.deep_view().text(),
    {
        let mut text = String::new();
        crate::util::push_char(&mut text, '"');
        text.append(self.content.as_str());
        crate::util::push_char(&mut text, '"');
        proof {
            assert(text@ =~= quoted(self.content@));
        }
        if self.n_answers != 1 {
            text.append(" (");
            push_decimal(&mut text, self.n_answers);
            text.append(" answers)");
        }
        text
    }
}

impl Answer {
    /// The answer as a line of text: its content in quotes.
    pub fn to_string(&self) -> (text: String)
        ensures
            text@ == quoted(self.deep_view()),
    {
        let mut text = String::new();
        crate::util::push_char(&mut text, '"');
        text.append(self.content.as_str());
        crate::util::push_char(&mut text, '"');
        proof {
            assert(text@ =~= quoted(self.content@));
        }
        text
    }
}

/// A prompt compares and clones by what it says.
pub proof fn lemma_prompt_cards()
    ensures
        crate::deck::compares_by_view::<Prompt>(),
        crate::deck::clones_keep_view::<Prompt>(),
{
}

/// An answer compares and clones by what it says.
pub proof fn lemma_answer_cards()
    ensures
        crate::deck::compares_by_view::<Answer>(),
        crate::deck::clones_keep_view::<Answer>(),
{
}

} // verus!
