use std::collections::HashMap;

use cardparty::client::{
    notice, ranked, Phase, RoundEvent, RoundResults, RoundScreen, Screen, Selection, Step, Verdict,
};
use cardparty::schema::{Answer, LoginRejectedReason, Message, Prompt, Role};

fn card(text: &str) -> Answer {
    Answer::new(text.to_string())
}

fn hand() -> Vec<Answer> {
    vec![card("a"), card("b"), card("c"), card("d")]
}

#[test]
fn selection_fills_slots_in_order() {
    let mut selection = Selection::new(hand(), 2);
    assert_eq!(selection.slots, vec![None, None]);
    assert!(!selection.can_submit());
    assert_eq!(selection.chosen(), vec![]);
    selection.select(1);
    assert_eq!(selection.slots, vec![Some(card("b")), None]);
    assert_eq!(selection.hand, vec![card("a"), card("c"), card("d")]);
    assert!(!selection.can_submit());
    selection.select(2);
    assert_eq!(selection.slots, vec![Some(card("b")), Some(card("d"))]);
    assert_eq!(selection.hand, vec![card("a"), card("c")]);
    assert!(selection.can_submit());
    assert_eq!(selection.chosen(), vec![card("b"), card("d")]);
}

#[test]
fn selection_replaces_the_last_slot_when_full() {
    let mut selection = Selection::new(hand(), 2);
    selection.select(0);
    selection.select(0);
    selection.select(0);
    assert_eq!(selection.slots, vec![Some(card("a")), Some(card("c"))]);
    assert_eq!(selection.hand, vec![card("d"), card("b")]);
}

#[test]
fn selection_gives_cards_back() {
    let mut selection = Selection::new(hand(), 3);
    selection.select(3);
    selection.select(0);
    selection.unselect(0);
    assert_eq!(selection.slots, vec![None, Some(card("a")), None]);
    assert_eq!(selection.hand, vec![card("b"), card("c"), card("d")]);
    assert_eq!(selection.chosen(), vec![card("a")]);
    selection.unselect(2);
    assert_eq!(selection.hand, vec![card("b"), card("c"), card("d")]);
    selection.select(1);
    assert_eq!(selection.slots, vec![Some(card("c")), Some(card("a")), None]);
}

#[test]
fn selection_without_slots_can_submit_nothing() {
    let selection = Selection::new(hand(), 0);
    assert!(selection.can_submit());
    assert_eq!(selection.chosen(), vec![]);
}

#[test]
fn only_the_czar_marks_an_answer() {
    let mut czar = Verdict::new(true);
    assert_eq!(czar.submit(), None);
    assert!(czar.select(3));
    assert!(czar.select(5));
    assert_eq!(czar.selection, Some(5));
    assert_eq!(czar.submit(), Some(5));
    let mut other = Verdict::new(false);
    assert!(!other.select(3));
    assert_eq!(other.selection, None);
    assert_eq!(other.submit(), None);
    let forged = Verdict { can_judge: false, selection: Some(2) };
    assert_eq!(forged.submit(), None);
}

#[test]
fn round_of_a_player() {
    let prompt = Prompt::new("Why _____?".to_string(), 1);
    let mut screen = RoundScreen::new(Role::Player, prompt.clone(), hand());
    assert_eq!(screen.state, Phase::SelectingAnswers);
    assert_eq!(screen.results, None);

    // an acceptance that was not asked for goes by
    let step = screen.step(RoundEvent::Server(Message::AnswerAccepted));
    assert_eq!(step, Step { render: false, send: None, exit: false });
    assert_eq!(screen.state, Phase::SelectingAnswers);

    let step = screen.step(RoundEvent::SubmitAnswer(vec![card("c")]));
    assert_eq!(
        step,
        Step { render: false, send: Some(Message::SubmitAnswer(vec![card("c")])), exit: false }
    );
    assert_eq!(screen.state, Phase::WaitingForAnswersApproval(vec![card("c")]));
    assert_eq!(screen.hand, hand());

    let step = screen.step(RoundEvent::Server(Message::AnswerAccepted));
    assert_eq!(step, Step { render: true, send: None, exit: false });
    assert_eq!(screen.state, Phase::WaitingForOtherPlayers(vec![card("c")]));
    assert_eq!(screen.hand, vec![card("a"), card("b"), card("d")]);

    let answers = HashMap::from([(2, vec![card("c")]), (3, vec![card("x")])]);
    let step = screen.step(RoundEvent::Server(Message::ReadyToJudge(answers.clone())));
    assert_eq!(step, Step { render: true, send: None, exit: false });
    assert_eq!(screen.state, Phase::AwaitingJudgement(answers.clone()));

    let scores = vec![("ann".to_string(), 0), ("bob".to_string(), 1)];
    let step = screen.step(RoundEvent::Server(Message::RoundEnded {
        winner: "bob".to_string(),
        winning_answers: vec![card("c")],
        scores: scores.clone(),
    }));
    assert_eq!(step, Step { render: true, send: None, exit: false });
    assert_eq!(
        screen.results,
        Some(RoundResults {
            prompt: prompt.clone(),
            winner: "bob".to_string(),
            winning_answers: vec![card("c")],
            scores,
        })
    );
    assert_eq!(screen.state, Phase::AwaitingJudgement(answers));

    // the next round comes while the results are shown
    let next = Prompt::new("_____ and _____".to_string(), 2);
    screen.change(Role::Czar, next.clone(), hand());
    assert_eq!(screen.state, Phase::WaitingForAnswers);
    assert_eq!(screen.prompt, next);
    assert!(screen.results.is_some());

    let step = screen.step(RoundEvent::RoundExited);
    assert_eq!(step, Step { render: true, send: None, exit: true });
    assert_eq!(screen.results, None);
    assert_eq!(screen.state, Phase::WaitingForAnswers);
}

#[test]
fn round_of_the_czar() {
    let prompt = Prompt::new("Why _____?".to_string(), 1);
    let mut screen = RoundScreen::new(Role::Czar, prompt, hand());
    assert_eq!(screen.state, Phase::WaitingForAnswers);
    let answers = HashMap::from([(2, vec![card("c")]), (3, vec![card("x")])]);
    screen.step(RoundEvent::Server(Message::ReadyToJudge(answers.clone())));
    assert_eq!(screen.state, Phase::JudgingAnswers(answers.clone()));
    let step = screen.step(RoundEvent::SubmitJudgement(3));
    assert_eq!(
        step,
        Step { render: false, send: Some(Message::SubmitJudgement(3)), exit: false }
    );
    assert_eq!(screen.state, Phase::JudgingAnswers(answers));
    for message in [
        Message::LoginAccepted,
        Message::GameEnded,
        Message::PlayerJoined { name: "dan".to_string() },
        Message::JudgementRejected,
    ] {
        let before = screen.clone();
        let step = screen.step(RoundEvent::Server(message));
        assert_eq!(step, Step { render: false, send: None, exit: false });
        assert_eq!(screen, before);
    }
}

#[test]
fn accepted_answer_takes_every_equal_card_from_the_hand() {
    let prompt = Prompt::new("p".to_string(), 2);
    let cards = vec![card("a"), card("b"), card("a"), card("c")];
    let mut screen = RoundScreen::new(Role::Player, prompt, cards);
    screen.step(RoundEvent::SubmitAnswer(vec![card("c"), card("a")]));
    screen.step(RoundEvent::Server(Message::AnswerAccepted));
    assert_eq!(screen.hand, vec![card("b")]);
}

#[test]
fn screen_follows_the_server() {
    let mut screen = Screen::new();
    assert_eq!(screen, Screen::LoggingIn { error: None });
    assert!(screen.on_message(Message::LoginRejected(LoginRejectedReason::GameIsFull)));
    assert_eq!(screen, Screen::LoggingIn { error: Some(LoginRejectedReason::GameIsFull) });
    assert!(!screen.on_message(Message::PlayerJoined { name: "ann".to_string() }));
    assert_eq!(screen, Screen::LoggingIn { error: Some(LoginRejectedReason::GameIsFull) });
    assert!(screen.on_message(Message::LoginAccepted));
    assert_eq!(screen, Screen::WaitingForNextRound);
    let prompt = Prompt::new("p".to_string(), 1);
    assert!(screen.on_message(Message::NewRound {
        role: Role::Czar,
        prompt: prompt.clone(),
        hand: hand(),
    }));
    assert_eq!(screen, Screen::OngoingRound { role: Role::Czar, prompt, hand: hand() });
    assert!(!screen.on_message(Message::AnswerAccepted));
    assert!(screen.on_message(Message::GameEnded));
    assert_eq!(screen, Screen::WaitingForNextRound);
}

#[test]
fn notices_for_the_player() {
    assert_eq!(
        notice(&Message::LoginRejected(LoginRejectedReason::UsernameIsTaken)),
        Some("Login rejected".to_string())
    );
    assert_eq!(
        notice(&Message::PlayerJoined { name: "ann".to_string() }),
        Some("ann joined the game".to_string())
    );
    assert_eq!(
        notice(&Message::PlayerLeft { name: "bob".to_string() }),
        Some("bob left the game".to_string())
    );
    assert_eq!(notice(&Message::LoginAccepted), None);
    assert_eq!(notice(&Message::GameEnded), None);
}

#[test]
fn scores_are_ranked_from_high_to_low() {
    let scores = vec![
        ("ann".to_string(), 1),
        ("bob".to_string(), 5),
        ("cid".to_string(), 1),
        ("dan".to_string(), 6),
        ("eve".to_string(), 0),
        ("fay".to_string(), 5),
    ];
    assert_eq!(
        ranked(scores),
        vec![
            ("dan".to_string(), 6),
            ("bob".to_string(), 5),
            ("fay".to_string(), 5),
            ("ann".to_string(), 1),
            ("cid".to_string(), 1),
            ("eve".to_string(), 0),
        ]
    );
    assert_eq!(ranked(vec![]), vec![]);
    assert_eq!(ranked(vec![("x".to_string(), u64::MAX)]), vec![("x".to_string(), u64::MAX)]);
}
