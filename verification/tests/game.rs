use std::collections::HashMap;

use cardparty::deck::DeckError;
use cardparty::game::{
    Game, GameError, Handled, Login, Outgoing, Processed, Recipient, Settings, Violation,
    MAX_N_PLAYERS, MIN_N_PLAYERS, N_CARDS_IN_HAND,
};
use cardparty::players::next_czar;
use cardparty::round::RoundState;
use cardparty::schema::{Answer, LoginRejectedReason, Message, Prompt, Role};

fn answers(n: usize) -> Vec<Answer> {
    (0..n).map(|i| Answer::new(format!("answer {}", i))).collect()
}

fn prompts(n: usize) -> Vec<Prompt> {
    (0..n).map(|i| Prompt::new(format!("prompt {} _____", i), 1)).collect()
}

fn table(settings: Settings) -> Game {
    Game::new(settings, prompts(6), answers(40))
}

fn join(game: &mut Game, name: &str) -> (usize, Vec<Outgoing>) {
    match game.on_login(name.to_string()) {
        Ok(Login::Accepted { id, events }) => (id, events),
        other => panic!("login of {} was not accepted: {:?}", name, other),
    }
}

fn done(handled: Handled) -> Vec<Outgoing> {
    match handled {
        Handled::Done(events) => events,
        Handled::Ignored(v) => panic!("ignored: {:?}", v),
    }
}

fn hand_of(game: &Game, id: usize) -> Vec<Answer> {
    game.players().iter().find(|p| p.id == id).unwrap().hand.clone()
}

#[test]
fn czar_rotation_follows_player_numbers() {
    assert_eq!(next_czar(&[1, 3, 5], Some(3)), Some(5));
    assert_eq!(next_czar(&[1, 3, 5], Some(5)), Some(1));
    assert_eq!(next_czar(&[1, 3, 5], Some(1)), Some(3));
    assert_eq!(next_czar(&[1, 3, 5], Some(2)), Some(3));
    assert_eq!(next_czar(&[1, 3, 5], None), Some(1));
}

#[test]
fn czar_rotation_skips_players_who_left() {
    assert_eq!(next_czar(&[1, 5], Some(1)), Some(5));
    assert_eq!(next_czar(&[1, 5], Some(5)), Some(1));
    assert_eq!(next_czar(&[1, 5], Some(3)), Some(5));
    assert_eq!(next_czar(&[1, 5], Some(6)), Some(1));
}

#[test]
fn czar_rotation_edge_cases() {
    assert_eq!(next_czar(&[], Some(3)), None);
    assert_eq!(next_czar(&[], None), None);
    assert_eq!(next_czar(&[7], Some(7)), Some(7));
    assert_eq!(next_czar(&[0, 2], None), Some(0));
    assert_eq!(next_czar(&[4, usize::MAX], Some(usize::MAX)), Some(4));
    assert_eq!(next_czar(&[4, usize::MAX], Some(4)), Some(usize::MAX));
    assert_eq!(next_czar(&[5, 1, 3], Some(1)), Some(3));
}

#[test]
fn default_settings() {
    let settings = Settings::default();
    assert_eq!(settings.hand_size, 4);
    assert_eq!(settings.min_players, 3);
    assert_eq!(settings.max_players, 3);
    assert_eq!((N_CARDS_IN_HAND, MIN_N_PLAYERS, MAX_N_PLAYERS), (4, 3, 3));
}

#[test]
fn new_game_is_empty() {
    let game = table(Settings::default());
    assert!(game.players().is_empty());
    assert!(game.round().is_none());
    assert_eq!(game.next_id(), 1);
    assert_eq!(game.settings(), Settings::default());
    assert_eq!(game.prompts().available(), 6);
    assert_eq!(game.answers().available(), 40);
    assert_eq!(game.answers().cards(), &answers(40));
}

#[test]
fn login_before_enough_players() {
    let mut game = table(Settings::default());
    let (id, events) = join(&mut game, "ann");
    assert_eq!(id, 1);
    assert_eq!(
        events,
        vec![
            Outgoing { to: Recipient::Player(1), message: Message::LoginAccepted },
            Outgoing {
                to: Recipient::EveryoneBut(1),
                message: Message::PlayerJoined { name: "ann".to_string() },
            },
        ]
    );
    assert_eq!(game.players().len(), 1);
    assert_eq!(game.players()[0].name, "ann");
    assert_eq!(game.players()[0].score, 0);
    assert_eq!(game.players()[0].hand.len(), 4);
    assert!(game.round().is_none());
    assert_eq!(game.answers().available(), 36);
    assert_eq!(game.next_id(), 2);
}

#[test]
fn login_is_rejected_when_name_is_taken() {
    let mut game = table(Settings::default());
    join(&mut game, "ann");
    assert_eq!(
        game.on_login("ann".to_string()),
        Ok(Login::Rejected(LoginRejectedReason::UsernameIsTaken))
    );
    assert_eq!(game.players().len(), 1);
    assert_eq!(game.next_id(), 2);
    assert_eq!(game.answers().available(), 36);
    // names are case sensitive
    let (id, _) = join(&mut game, "Ann");
    assert_eq!(id, 2);
}

#[test]
fn login_is_rejected_when_game_is_full() {
    let mut game = table(Settings::default());
    join(&mut game, "ann");
    join(&mut game, "bob");
    join(&mut game, "cid");
    assert_eq!(
        game.on_login("dan".to_string()),
        Ok(Login::Rejected(LoginRejectedReason::GameIsFull))
    );
    // a full game is reported before a taken name
    assert_eq!(
        game.on_login("ann".to_string()),
        Ok(Login::Rejected(LoginRejectedReason::GameIsFull))
    );
    assert_eq!(game.players().len(), 3);
}

#[test]
fn login_fails_when_answers_run_out() {
    let mut game = Game::new(Settings::default(), prompts(3), answers(6));
    join(&mut game, "ann");
    assert_eq!(
        game.on_login("bob".to_string()),
        Err(GameError::Answers(DeckError::SupplyExhausted))
    );
    assert_eq!(game.players().len(), 1);
    assert_eq!(game.next_id(), 2);
    assert_eq!(game.answers().available(), 2);
}

#[test]
fn login_fails_when_no_prompt_is_left_for_the_round() {
    let settings = Settings { hand_size: 2, min_players: 1, max_players: 4 };
    let mut game = Game::new(settings, vec![], answers(10));
    assert_eq!(
        game.on_login("ann".to_string()),
        Err(GameError::Prompts(DeckError::SupplyExhausted))
    );
    assert!(game.players().is_empty());
    assert_eq!(game.answers().available(), 10);
}

#[test]
fn third_login_starts_the_round() {
    let mut game = table(Settings::default());
    join(&mut game, "ann");
    join(&mut game, "bob");
    let (id, events) = join(&mut game, "cid");
    assert_eq!(id, 3);
    let round = game.round().as_ref().unwrap();
    assert_eq!(round.czar, 1);
    assert_eq!(round.state, RoundState::Answering);
    assert!(round.answers.is_empty());
    assert!(prompts(6).contains(&round.prompt));
    assert_eq!(game.prompts().available(), 5);
    assert_eq!(game.answers().available(), 28);
    assert_eq!(events.len(), 5);
    assert_eq!(events[0], Outgoing { to: Recipient::Player(3), message: Message::LoginAccepted });
    assert_eq!(
        events[1],
        Outgoing {
            to: Recipient::EveryoneBut(3),
            message: Message::PlayerJoined { name: "cid".to_string() },
        }
    );
    for (k, player) in game.players().iter().enumerate() {
        let role = if player.id == 1 { Role::Czar } else { Role::Player };
        assert_eq!(
            events[2 + k],
            Outgoing {
                to: Recipient::Player(player.id),
                message: Message::NewRound {
                    role,
                    prompt: round.prompt.clone(),
                    hand: player.hand.clone(),
                },
            }
        );
        assert_eq!(player.hand.len(), 4);
    }
}

#[test]
fn hands_hold_different_cards() {
    let mut game = table(Settings::default());
    join(&mut game, "ann");
    join(&mut game, "bob");
    join(&mut game, "cid");
    let mut all: Vec<String> = game
        .players()
        .iter()
        .flat_map(|p| p.hand.iter().map(|a| a.content.clone()))
        .collect();
    all.sort();
    all.dedup();
    assert_eq!(all.len(), 12);
}

#[test]
fn late_login_is_shown_the_round() {
    let settings = Settings { hand_size: 3, min_players: 2, max_players: 5 };
    let mut game = table(settings);
    join(&mut game, "ann");
    join(&mut game, "bob");
    let (id, events) = join(&mut game, "cid");
    let round = game.round().as_ref().unwrap();
    assert_eq!(round.czar, 1);
    assert_eq!(
        events,
        vec![
            Outgoing { to: Recipient::Player(id), message: Message::LoginAccepted },
            Outgoing {
                to: Recipient::EveryoneBut(id),
                message: Message::PlayerJoined { name: "cid".to_string() },
            },
            Outgoing {
                to: Recipient::Player(id),
                message: Message::NewRound {
                    role: Role::Player,
                    prompt: round.prompt.clone(),
                    hand: hand_of(&game, id),
                },
            },
        ]
    );
}

#[test]
fn late_login_during_judging_is_not_shown_the_round() {
    let settings = Settings { hand_size: 3, min_players: 2, max_players: 5 };
    let mut game = table(settings);
    join(&mut game, "ann");
    join(&mut game, "bob");
    let card = hand_of(&game, 2)[0].clone();
    done(game.on_submit_answer(2, vec![card]));
    assert_eq!(game.round().as_ref().unwrap().state, RoundState::Judging);
    let (_, events) = join(&mut game, "cid");
    assert_eq!(events.len(), 2);
    assert_eq!(game.round().as_ref().unwrap().state, RoundState::Judging);
}

#[test]
fn round_completes_with_the_last_answer() {
    let mut game = table(Settings::default());
    join(&mut game, "ann");
    join(&mut game, "bob");
    join(&mut game, "cid");
    let b = hand_of(&game, 2)[1].clone();
    let c = hand_of(&game, 3)[0].clone();

    let events = done(game.on_submit_answer(2, vec![b.clone()]));
    assert_eq!(
        events,
        vec![Outgoing { to: Recipient::Player(2), message: Message::AnswerAccepted }]
    );
    let round = game.round().as_ref().unwrap();
    assert_eq!(round.state, RoundState::Answering);
    assert_eq!(round.answers, HashMap::from([(2, vec![b.clone()])]));
    assert_eq!(hand_of(&game, 2).len(), 3);
    assert!(!hand_of(&game, 2).contains(&b));

    // a second answer of the same player is ignored
    let again = hand_of(&game, 2)[0].clone();
    assert_eq!(
        game.on_submit_answer(2, vec![again]),
        Handled::Ignored(Violation::AlreadySubmitted)
    );
    let round = game.round().as_ref().unwrap();
    assert_eq!(round.state, RoundState::Answering);
    assert_eq!(round.answers, HashMap::from([(2, vec![b.clone()])]));
    assert_eq!(hand_of(&game, 2).len(), 3);

    let events = done(game.on_submit_answer(3, vec![c.clone()]));
    let both = HashMap::from([(2, vec![b.clone()]), (3, vec![c.clone()])]);
    assert_eq!(
        events,
        vec![
            Outgoing { to: Recipient::Player(3), message: Message::AnswerAccepted },
            Outgoing {
                to: Recipient::Everyone,
                message: Message::ReadyToJudge(both.clone()),
            },
        ]
    );
    let round = game.round().as_ref().unwrap();
    assert_eq!(round.state, RoundState::Judging);
    assert_eq!(round.answers, both);
}

#[test]
fn answers_that_break_the_rules_are_ignored() {
    let mut game = table(Settings::default());
    let card = Answer::new("answer 0".to_string());
    assert_eq!(
        game.on_submit_answer(1, vec![card.clone()]),
        Handled::Ignored(Violation::NoRound)
    );
    join(&mut game, "ann");
    join(&mut game, "bob");
    join(&mut game, "cid");
    let czar_card = hand_of(&game, 1)[0].clone();
    assert_eq!(
        game.on_submit_answer(1, vec![czar_card]),
        Handled::Ignored(Violation::IsCzar)
    );
    assert_eq!(
        game.on_submit_answer(9, vec![]),
        Handled::Ignored(Violation::NotAPlayer)
    );
    let foreign = hand_of(&game, 3)[0].clone();
    assert_eq!(
        game.on_submit_answer(2, vec![foreign]),
        Handled::Ignored(Violation::CardsNotInHand)
    );
    let own = hand_of(&game, 2)[0].clone();
    assert_eq!(
        game.on_submit_answer(2, vec![own.clone(), own.clone()]),
        Handled::Ignored(Violation::CardsNotInHand)
    );
    assert_eq!(hand_of(&game, 2).len(), 4);
    assert!(game.round().as_ref().unwrap().answers.is_empty());
    done(game.on_submit_answer(2, vec![own]));
    let other = hand_of(&game, 3)[0].clone();
    done(game.on_submit_answer(3, vec![other]));
    let late = hand_of(&game, 3)[0].clone();
    assert_eq!(
        game.on_submit_answer(3, vec![late]),
        Handled::Ignored(Violation::NotAnswering)
    );
}

#[test]
fn answer_of_several_cards_leaves_the_rest_in_order() {
    let mut game = table(Settings::default());
    join(&mut game, "ann");
    join(&mut game, "bob");
    join(&mut game, "cid");
    let hand = hand_of(&game, 2);
    done(game.on_submit_answer(2, vec![hand[2].clone(), hand[0].clone()]));
    assert_eq!(hand_of(&game, 2), vec![hand[1].clone(), hand[3].clone()]);
    assert_eq!(
        game.round().as_ref().unwrap().answers,
        HashMap::from([(2, vec![hand[2].clone(), hand[0].clone()])])
    );
}

#[test]
fn judgements_that_break_the_rules_are_ignored() {
    let mut game = table(Settings::default());
    assert_eq!(game.on_submit_judgement(1, 2), Ok(Handled::Ignored(Violation::NoRound)));
    join(&mut game, "ann");
    join(&mut game, "bob");
    join(&mut game, "cid");
    assert_eq!(game.on_submit_judgement(1, 2), Ok(Handled::Ignored(Violation::NotJudging)));
    let b = hand_of(&game, 2)[0].clone();
    let c = hand_of(&game, 3)[0].clone();
    done(game.on_submit_answer(2, vec![b]));
    done(game.on_submit_answer(3, vec![c]));
    assert_eq!(game.on_submit_judgement(2, 3), Ok(Handled::Ignored(Violation::NotCzar)));
    assert_eq!(
        game.on_submit_judgement(1, 1),
        Ok(Handled::Ignored(Violation::NoSuchSubmission))
    );
    assert_eq!(
        game.on_submit_judgement(1, 7),
        Ok(Handled::Ignored(Violation::NoSuchSubmission))
    );
    assert_eq!(game.round().as_ref().unwrap().state, RoundState::Judging);
    assert!(game.players().iter().all(|p| p.score == 0));
}

#[test]
fn full_round_from_login_to_next_round() {
    let mut game = table(Settings::default());
    join(&mut game, "ann");
    join(&mut game, "bob");
    join(&mut game, "cid");
    let first_prompt = game.round().as_ref().unwrap().prompt.clone();
    assert_eq!(game.round().as_ref().unwrap().czar, 1);
    let b = hand_of(&game, 2)[0].clone();
    let c = hand_of(&game, 3)[3].clone();
    done(game.on_submit_answer(2, vec![b.clone()]));
    let events = done(game.on_submit_answer(3, vec![c.clone()]));
    assert_eq!(
        events[1],
        Outgoing {
            to: Recipient::Everyone,
            message: Message::ReadyToJudge(HashMap::from([
                (2, vec![b.clone()]),
                (3, vec![c.clone()]),
            ])),
        }
    );
    let czar_hand = hand_of(&game, 1);
    let bob_hand = hand_of(&game, 2);

    let events = match game.on_submit_judgement(1, 3) {
        Ok(Handled::Done(events)) => events,
        other => panic!("judgement failed: {:?}", other),
    };
    assert_eq!(events.len(), 4);
    assert_eq!(
        events[0],
        Outgoing {
            to: Recipient::Everyone,
            message: Message::RoundEnded {
                winner: "cid".to_string(),
                winning_answers: vec![c.clone()],
                scores: vec![("ann".to_string(), 0), ("bob".to_string(), 0), ("cid".to_string(), 1)],
            },
        }
    );
    let round = game.round().as_ref().unwrap();
    assert_eq!(round.czar, 2);
    assert_eq!(round.state, RoundState::Answering);
    assert!(round.answers.is_empty());
    assert_ne!(round.prompt, first_prompt);
    assert_eq!(game.prompts().available(), 5);
    for (k, player) in game.players().iter().enumerate() {
        assert_eq!(player.hand.len(), 4);
        let role = if player.id == 2 { Role::Czar } else { Role::Player };
        assert_eq!(
            events[1 + k],
            Outgoing {
                to: Recipient::Player(player.id),
                message: Message::NewRound {
                    role,
                    prompt: round.prompt.clone(),
                    hand: player.hand.clone(),
                },
            }
        );
    }
    assert_eq!(hand_of(&game, 1), czar_hand);
    assert_eq!(hand_of(&game, 2)[..3], bob_hand[..]);
    assert!(!hand_of(&game, 2).contains(&b));
    let scores: Vec<u64> = game.players().iter().map(|p| p.score).collect();
    assert_eq!(scores, vec![0, 0, 1]);
    // 40 answers: 12 in hands, the two played lie in the discard pile
    assert_eq!(game.answers().available(), 28);
}

#[test]
fn czar_rotates_over_rounds() {
    let mut game = table(Settings::default());
    join(&mut game, "ann");
    join(&mut game, "bob");
    join(&mut game, "cid");
    let mut czars = vec![];
    for _ in 0..7 {
        let czar = game.round().as_ref().unwrap().czar;
        czars.push(czar);
        let others: Vec<usize> =
            game.players().iter().map(|p| p.id).filter(|id| *id != czar).collect();
        for id in &others {
            let card = hand_of(&game, *id)[0].clone();
            done(game.on_submit_answer(*id, vec![card]));
        }
        match game.on_submit_judgement(czar, others[0]) {
            Ok(Handled::Done(_)) => {}
            other => panic!("judgement failed: {:?}", other),
        }
    }
    assert_eq!(czars, vec![1, 2, 3, 1, 2, 3, 1]);
    let total: u64 = game.players().iter().map(|p| p.score).sum();
    assert_eq!(total, 7);
}

#[test]
fn many_rounds_never_run_out_of_cards() {
    let settings = Settings { hand_size: 4, min_players: 3, max_players: 3 };
    let mut game = Game::new(settings, prompts(2), answers(14));
    join(&mut game, "ann");
    join(&mut game, "bob");
    join(&mut game, "cid");
    for _ in 0..40 {
        let czar = game.round().as_ref().unwrap().czar;
        let others: Vec<usize> =
            game.players().iter().map(|p| p.id).filter(|id| *id != czar).collect();
        for id in &others {
            let card = hand_of(&game, *id)[0].clone();
            done(game.on_submit_answer(*id, vec![card]));
        }
        match game.on_submit_judgement(czar, others[1]) {
            Ok(Handled::Done(_)) => {}
            other => panic!("judgement failed: {:?}", other),
        }
        let mut held: Vec<String> = game
            .players()
            .iter()
            .flat_map(|p| p.hand.iter().map(|a| a.content.clone()))
            .collect();
        assert_eq!(held.len(), 12);
        held.sort();
        held.dedup();
        assert_eq!(held.len(), 12);
        assert_eq!(game.answers().available(), 2);
    }
}

#[test]
fn round_cannot_start_without_players() {
    let mut game = table(Settings::default());
    assert_eq!(game.new_round(), Err(GameError::NoPlayers));
    assert!(game.round().is_none());
}

#[test]
fn round_start_fails_when_hands_cannot_be_filled() {
    let settings = Settings { hand_size: 2, min_players: 2, max_players: 2 };
    let mut game = Game::new(settings, prompts(3), answers(4));
    join(&mut game, "ann");
    join(&mut game, "bob");
    assert_eq!(game.round().as_ref().unwrap().czar, 1);
    let hand = hand_of(&game, 2);
    done(game.on_submit_answer(2, vec![hand[0].clone()]));
    // the card played comes back for the next round
    match game.on_submit_judgement(1, 2) {
        Ok(Handled::Done(_)) => {}
        other => panic!("judgement failed: {:?}", other),
    }
    assert_eq!(hand_of(&game, 2), vec![hand[1].clone(), hand[0].clone()]);
    assert_eq!(game.answers().available(), 0);
}

#[test]
fn player_leaving_takes_cards_back_to_the_supply() {
    let settings = Settings { hand_size: 3, min_players: 2, max_players: 5 };
    let mut game = table(settings);
    join(&mut game, "ann");
    join(&mut game, "bob");
    join(&mut game, "cid");
    assert_eq!(game.answers().available(), 31);
    let card = hand_of(&game, 3)[0].clone();
    done(game.on_submit_answer(3, vec![card]));
    let events = game.on_disconnect(3).unwrap();
    assert_eq!(
        events,
        vec![Outgoing {
            to: Recipient::Everyone,
            message: Message::PlayerLeft { name: "cid".to_string() },
        }]
    );
    assert_eq!(game.players().len(), 2);
    assert_eq!(game.answers().available(), 34);
    let round = game.round().as_ref().unwrap();
    assert!(round.answers.is_empty());
    assert_eq!(round.czar, 1);
    assert_eq!(round.state, RoundState::Answering);
}

#[test]
fn czar_leaving_restarts_the_round() {
    let settings = Settings { hand_size: 3, min_players: 2, max_players: 5 };
    let mut game = table(settings);
    join(&mut game, "ann");
    join(&mut game, "bob");
    join(&mut game, "cid");
    let bob_hand = hand_of(&game, 2);
    done(game.on_submit_answer(2, vec![bob_hand[1].clone()]));
    assert_eq!(game.prompts().available(), 5);
    let events = game.on_disconnect(1).unwrap();
    let round = game.round().as_ref().unwrap();
    assert_eq!(round.czar, 2);
    assert_eq!(round.state, RoundState::Answering);
    assert!(round.answers.is_empty());
    assert_eq!(game.prompts().available(), 5);
    // the answer handed in is back at the end of the hand
    assert_eq!(
        hand_of(&game, 2),
        vec![bob_hand[0].clone(), bob_hand[2].clone(), bob_hand[1].clone()]
    );
    assert_eq!(events.len(), 3);
    assert_eq!(
        events[0],
        Outgoing {
            to: Recipient::Player(2),
            message: Message::NewRound {
                role: Role::Czar,
                prompt: round.prompt.clone(),
                hand: hand_of(&game, 2),
            },
        }
    );
    assert_eq!(
        events[1],
        Outgoing {
            to: Recipient::Player(3),
            message: Message::NewRound {
                role: Role::Player,
                prompt: round.prompt.clone(),
                hand: hand_of(&game, 3),
            },
        }
    );
    assert_eq!(
        events[2],
        Outgoing {
            to: Recipient::Everyone,
            message: Message::PlayerLeft { name: "ann".to_string() },
        }
    );
    assert_eq!(game.answers().available(), 34);
}

#[test]
fn game_ends_when_players_are_too_few() {
    let mut game = table(Settings::default());
    join(&mut game, "ann");
    join(&mut game, "bob");
    join(&mut game, "cid");
    let card = hand_of(&game, 2)[0].clone();
    done(game.on_submit_answer(2, vec![card]));
    let events = game.on_disconnect(3).unwrap();
    assert_eq!(
        events,
        vec![
            Outgoing {
                to: Recipient::Everyone,
                message: Message::PlayerLeft { name: "cid".to_string() },
            },
            Outgoing { to: Recipient::Everyone, message: Message::GameEnded },
        ]
    );
    assert!(game.round().is_none());
    assert_eq!(game.players().len(), 2);
    assert!(game.players().iter().all(|p| p.hand.is_empty()));
    assert_eq!(game.answers().available(), 40);
    assert_eq!(game.prompts().available(), 6);
    // the game starts again with the next login, under a new number
    let (id, events) = join(&mut game, "dan");
    assert_eq!(id, 4);
    assert_eq!(events.len(), 5);
    assert_eq!(game.round().as_ref().unwrap().czar, 1);
    assert!(game.players().iter().all(|p| p.hand.len() == 4));
}

#[test]
fn czar_leaving_a_small_game_ends_it() {
    let mut game = table(Settings::default());
    join(&mut game, "ann");
    join(&mut game, "bob");
    join(&mut game, "cid");
    let events = game.on_disconnect(1).unwrap();
    assert_eq!(events.len(), 4);
    assert_eq!(
        events[2],
        Outgoing {
            to: Recipient::Everyone,
            message: Message::PlayerLeft { name: "ann".to_string() },
        }
    );
    assert_eq!(events[3], Outgoing { to: Recipient::Everyone, message: Message::GameEnded });
    assert!(game.round().is_none());
    assert_eq!(game.answers().available(), 40);
}

#[test]
fn last_player_leaving_empties_the_game() {
    let settings = Settings { hand_size: 2, min_players: 1, max_players: 2 };
    let mut game = table(settings);
    join(&mut game, "ann");
    assert_eq!(game.round().as_ref().unwrap().czar, 1);
    let events = game.on_disconnect(1).unwrap();
    assert_eq!(
        events,
        vec![
            Outgoing {
                to: Recipient::Everyone,
                message: Message::PlayerLeft { name: "ann".to_string() },
            },
            Outgoing { to: Recipient::Everyone, message: Message::GameEnded },
        ]
    );
    assert!(game.players().is_empty());
    assert!(game.round().is_none());
}

#[test]
fn disconnect_of_a_stranger_only_checks_the_player_count() {
    let settings = Settings { hand_size: 3, min_players: 2, max_players: 5 };
    let mut game = table(settings);
    join(&mut game, "ann");
    let events = game.on_disconnect(42).unwrap();
    assert_eq!(events, vec![Outgoing { to: Recipient::Everyone, message: Message::GameEnded }]);
    assert!(game.players()[0].hand.is_empty());
    assert_eq!(game.answers().available(), 40);
    join(&mut game, "bob");
    assert_eq!(game.on_disconnect(42), Ok(vec![]));
    assert_eq!(game.settle(), vec![]);
    assert!(game.round().is_some());
}

#[test]
fn messages_are_dispatched() {
    let mut game = table(Settings::default());
    for (k, name) in ["ann", "bob", "cid"].iter().enumerate() {
        match game.process_message(None, Message::Login(name.to_string())) {
            Ok(Processed::Login(Login::Accepted { id, .. })) => assert_eq!(id, k + 1),
            other => panic!("login failed: {:?}", other),
        }
    }
    assert_eq!(
        game.process_message(None, Message::Login("dan".to_string())),
        Ok(Processed::Login(Login::Rejected(LoginRejectedReason::GameIsFull)))
    );
    assert_eq!(
        game.process_message(Some(2), Message::Login("bob again".to_string())),
        Ok(Processed::Login(Login::Rejected(LoginRejectedReason::GameIsFull)))
    );
    let b = hand_of(&game, 2)[0].clone();
    let c = hand_of(&game, 3)[0].clone();
    assert_eq!(
        game.process_message(None, Message::SubmitAnswer(vec![b.clone()])),
        Ok(Processed::Request(Handled::Ignored(Violation::NotAPlayer)))
    );
    assert_eq!(
        game.process_message(Some(2), Message::SubmitAnswer(vec![b.clone()])),
        Ok(Processed::Request(Handled::Done(vec![Outgoing {
            to: Recipient::Player(2),
            message: Message::AnswerAccepted,
        }])))
    );
    match game.process_message(Some(3), Message::SubmitAnswer(vec![c])) {
        Ok(Processed::Request(Handled::Done(events))) => assert_eq!(events.len(), 2),
        other => panic!("answer failed: {:?}", other),
    }
    assert_eq!(
        game.process_message(None, Message::SubmitJudgement(2)),
        Ok(Processed::Request(Handled::Ignored(Violation::NotAPlayer)))
    );
    assert_eq!(
        game.process_message(Some(3), Message::SubmitJudgement(2)),
        Ok(Processed::Request(Handled::Ignored(Violation::NotCzar)))
    );
    match game.process_message(Some(1), Message::SubmitJudgement(2)) {
        Ok(Processed::Request(Handled::Done(events))) => assert_eq!(events.len(), 4),
        other => panic!("judgement failed: {:?}", other),
    }
    assert_eq!(game.players()[1].score, 1);
    for message in [
        Message::LoginAccepted,
        Message::Ready,
        Message::NotReady,
        Message::JoinedLobby,
        Message::GameEnded,
        Message::AnswerAccepted,
        Message::AnswerRejected,
        Message::JudgementRejected,
        Message::NewGame { hand: vec![] },
        Message::PlayerLeft { name: "ann".to_string() },
    ] {
        assert_eq!(
            game.process_message(Some(1), message),
            Ok(Processed::Request(Handled::Ignored(Violation::UnexpectedMessage)))
        );
    }
}

#[test]
fn cards_circulate_without_loss_when_players_come_and_go() {
    let settings = Settings { hand_size: 3, min_players: 2, max_players: 4 };
    let mut game = Game::new(settings, prompts(4), answers(20));
    let names = ["ann", "bob", "cid", "dan", "eve", "fay", "gus", "hal"];
    let mut next_name = 0;
    for step in 0..60 {
        let ids: Vec<usize> = game.players().iter().map(|p| p.id).collect();
        if ids.len() < 4 && step % 3 != 2 {
            join(&mut game, &format!("{} {}", names[next_name % names.len()], next_name));
            next_name += 1;
        } else if step % 5 == 4 {
            let leaver = ids[step % ids.len()];
            game.on_disconnect(leaver).unwrap();
        } else if let Some(round) = game.round().as_ref() {
            let czar = round.czar;
            let waiting: Vec<usize> = ids
                .iter()
                .copied()
                .filter(|id| *id != czar && !round.answers.contains_key(id))
                .collect();
            if round.state == RoundState::Answering && !waiting.is_empty() {
                let card = hand_of(&game, waiting[0])[0].clone();
                done(game.on_submit_answer(waiting[0], vec![card]));
            } else if round.state == RoundState::Judging && !round.answers.is_empty() {
                let winner = *round.answers.keys().min().unwrap();
                game.on_submit_judgement(czar, winner).unwrap();
            }
        }
        let mut held: Vec<String> = game
            .players()
            .iter()
            .flat_map(|p| p.hand.iter().map(|a| a.content.clone()))
            .collect();
        if let Some(round) = game.round().as_ref() {
            held.extend(round.answers.iter().flat_map(|(_, c)| c.iter().map(|a| a.content.clone())));
            assert_eq!(game.prompts().available(), 3);
        } else {
            assert_eq!(game.prompts().available(), 4);
        }
        let n = held.len();
        held.sort();
        held.dedup();
        assert_eq!(held.len(), n);
        assert_eq!(n + game.answers().available(), 20);
    }
}

#[test]
fn twin_cards_make_the_supply_refuse_a_discard() {
    let settings = Settings { hand_size: 2, min_players: 3, max_players: 3 };
    let twins = vec![Answer::new("x".to_string()), Answer::new("x".to_string())];
    let mut game = Game::new(settings, prompts(2), twins);
    join(&mut game, "ann");
    assert_eq!(game.on_disconnect(1), Err(GameError::Answers(DeckError::DoubleDiscard)));
    assert_eq!(game.players().len(), 1);
    assert_eq!(game.players()[0].hand.len(), 2);
    assert_eq!(game.answers().available(), 0);
}

#[test]
fn czar_leaving_hands_the_turn_to_the_next_number() {
    let settings = Settings { hand_size: 3, min_players: 2, max_players: 5 };
    let mut game = table(settings);
    join(&mut game, "ann");
    join(&mut game, "bob");
    join(&mut game, "cid");
    join(&mut game, "dan");
    assert_eq!(game.round().as_ref().unwrap().czar, 1);
    for id in [2, 3, 4] {
        let card = hand_of(&game, id)[0].clone();
        done(game.on_submit_answer(id, vec![card]));
    }
    game.on_submit_judgement(1, 3).unwrap();
    assert_eq!(game.round().as_ref().unwrap().czar, 2);
    game.on_disconnect(2).unwrap();
    let ids: Vec<usize> = game.players().iter().map(|p| p.id).collect();
    assert_eq!(ids, vec![1, 3, 4]);
    assert_eq!(game.round().as_ref().unwrap().czar, 3);
    game.on_disconnect(3).unwrap();
    assert_eq!(game.round().as_ref().unwrap().czar, 4);
    game.on_disconnect(4).unwrap();
    assert!(game.round().is_none());
    assert_eq!(game.players().len(), 1);
}

#[test]
fn last_czar_leaving_hands_the_turn_to_the_first_number() {
    let settings = Settings { hand_size: 2, min_players: 2, max_players: 5 };
    let mut game = table(settings);
    join(&mut game, "ann");
    join(&mut game, "bob");
    join(&mut game, "cid");
    for czar in [1, 2] {
        let others: Vec<usize> = [1, 2, 3].iter().copied().filter(|id| *id != czar).collect();
        for id in &others {
            let card = hand_of(&game, *id)[0].clone();
            done(game.on_submit_answer(*id, vec![card]));
        }
        game.on_submit_judgement(czar, others[0]).unwrap();
    }
    assert_eq!(game.round().as_ref().unwrap().czar, 3);
    game.on_disconnect(3).unwrap();
    assert_eq!(game.round().as_ref().unwrap().czar, 1);
}

#[test]
fn a_judgement_that_breaks_a_rule_is_ignored_whatever_the_scores() {
    let mut game = table(Settings::default());
    join(&mut game, "ann");
    join(&mut game, "bob");
    join(&mut game, "cid");
    assert_eq!(game.check_judgement(1, 2), Some(Violation::NotJudging));
    assert_eq!(
        game.process_message(Some(1), Message::SubmitJudgement(2)),
        Ok(Processed::Request(Handled::Ignored(Violation::NotJudging)))
    );
    assert_eq!(game.check_login(&"dan".to_string()), Some(LoginRejectedReason::GameIsFull));
    game.on_disconnect(3).unwrap();
    assert_eq!(game.check_login(&"ann".to_string()), Some(LoginRejectedReason::UsernameIsTaken));
    assert_eq!(game.check_login(&"dan".to_string()), None);
    assert_eq!(game.check_judgement(1, 2), Some(Violation::NoRound));
}

#[test]
fn login_of_a_player_is_rejected_like_any_other() {
    let settings = Settings { hand_size: 3, min_players: 2, max_players: 3 };
    let mut game = table(settings);
    join(&mut game, "ann");
    join(&mut game, "bob");
    // a name that is taken, be it the sender's own
    assert_eq!(
        game.process_message(Some(1), Message::Login("bob".to_string())),
        Ok(Processed::Login(Login::Rejected(LoginRejectedReason::UsernameIsTaken)))
    );
    assert_eq!(
        game.process_message(Some(1), Message::Login("ann".to_string())),
        Ok(Processed::Login(Login::Rejected(LoginRejectedReason::UsernameIsTaken)))
    );
    // names differ by case
    let hand = hand_of(&game, 1);
    assert_eq!(
        game.process_message(Some(1), Message::Login("Ann".to_string())),
        Ok(Processed::Request(Handled::Ignored(Violation::AlreadyLoggedIn)))
    );
    assert_eq!(game.players().len(), 2);
    assert_eq!(hand_of(&game, 1), hand);
    assert_eq!(game.next_id(), 3);
    join(&mut game, "cid");
    // a full session comes before a taken name, and before a free one
    assert_eq!(
        game.process_message(Some(1), Message::Login("bob".to_string())),
        Ok(Processed::Login(Login::Rejected(LoginRejectedReason::GameIsFull)))
    );
    assert_eq!(
        game.process_message(Some(3), Message::Login("dan".to_string())),
        Ok(Processed::Login(Login::Rejected(LoginRejectedReason::GameIsFull)))
    );
    assert_eq!(game.players().len(), 3);
    assert_eq!(game.answers().available(), 31);
}
