use std::collections::HashSet;

use cardparty::deck::{no_repeats, Deck, DeckError};

#[test]
fn test_deck_draw_no_repeat() {
    for _ in 0..100 {
        let mut deck = Deck::<i32>::default();
        for i in 0..12 {
            deck.add(i);
        }

        let mut set = HashSet::new();
        for _ in 0..3 {
            set.extend(deck.draw(4).unwrap());
        }

        assert_eq!(set, deck.cards().clone().into_iter().collect());
    }
}

#[test]
fn test_deck_wont_redraw() {
    let mut deck = Deck::<i32>::default();
    deck.add(1);
    deck.add(2);
    assert_ne!(deck.draw_once().unwrap(), deck.draw_once().unwrap());
}

#[test]
fn test_deck_wont_draw_discarded() {
    let mut deck = Deck::<i32>::default();
    deck.add(1);
    deck.add(2);
    let drawn = deck.draw_once().unwrap();
    deck.discard(&[drawn]).unwrap();
    assert_ne!(deck.draw_once().unwrap(), drawn);
}

#[test]
fn test_deck_reuse_discarded() {
    let mut deck = Deck::<i32>::default();
    deck.add(1);
    deck.add(2);
    deck.draw_once().unwrap();
    let drawn = deck.draw_once().unwrap();
    deck.discard(&[drawn]).unwrap();
    assert_eq!(deck.draw_once().unwrap(), drawn);
}

#[test]
fn test_deck_reset() {
    let mut deck = Deck::<i32>::default();
    deck.add(1);
    deck.add(2);
    deck.draw_once().unwrap();
    deck.reset();
    let mut drawn = deck.draw(2).unwrap();
    drawn.sort();
    assert_eq!(drawn, vec![1, 2]);
}

#[test]
fn test_deck_reset_discard() {
    let mut deck = Deck::<i32>::default();
    deck.add(1);
    deck.add(2);
    let card = deck.draw_once().unwrap();
    deck.discard(&[card]).unwrap();
    deck.reset();
    let drawn = deck.draw(2).unwrap();
    deck.discard(&drawn).unwrap();
}

#[test]
fn empty_deck_has_nothing_to_draw() {
    let mut deck = Deck::<i32>::default();
    assert_eq!(deck.available(), 0);
    assert_eq!(deck.draw_once(), Err(DeckError::SupplyExhausted));
    assert_eq!(deck.draw(1), Err(DeckError::SupplyExhausted));
    assert_eq!(deck.draw(0), Ok(vec![]));
}

#[test]
fn drawing_more_than_there_is_fails_and_changes_nothing() {
    let mut deck = Deck::<i32>::default();
    deck.extend(vec![10, 20, 30]);
    assert_eq!(deck.draw(4), Err(DeckError::SupplyExhausted));
    assert_eq!(deck.available(), 3);
    let mut all = deck.draw(3).unwrap();
    all.sort();
    assert_eq!(all, vec![10, 20, 30]);
}

#[test]
fn drawing_everything_leaves_both_piles_empty() {
    let mut deck = Deck::<i32>::default();
    deck.extend(vec![1, 2, 3, 4, 5]);
    let first = deck.draw(2).unwrap();
    assert_eq!(deck.available(), 3);
    let rest = deck.draw(3).unwrap();
    assert_eq!(deck.available(), 0);
    assert_eq!(deck.draw_once(), Err(DeckError::SupplyExhausted));
    let mut all: Vec<i32> = first.into_iter().chain(rest).collect();
    all.sort();
    assert_eq!(all, vec![1, 2, 3, 4, 5]);
}

#[test]
fn draw_spans_a_reshuffle() {
    let mut deck = Deck::<i32>::default();
    deck.extend(vec![1, 2, 3]);
    let a = deck.draw(2).unwrap();
    deck.discard(&a).unwrap();
    // one card is left in the draw pile, two lie in the discard pile
    let b = deck.draw(3).unwrap();
    assert!(!a.contains(&b[0]));
    let mut all = b.clone();
    all.sort();
    assert_eq!(all, vec![1, 2, 3]);
    assert_eq!(deck.available(), 0);
}

#[test]
fn shuffle_keeps_the_cards() {
    for _ in 0..50 {
        let mut deck = Deck::<u32>::default();
        deck.extend((0..40).collect());
        let mut drawn = deck.draw(40).unwrap();
        drawn.sort();
        assert_eq!(drawn, (0..40).collect::<Vec<u32>>());
    }
}

#[test]
fn shuffle_changes_the_order() {
    let mut seen = HashSet::new();
    for _ in 0..20 {
        let mut deck = Deck::<u32>::default();
        deck.extend((0..30).collect());
        seen.insert(deck.draw(30).unwrap());
    }
    assert!(seen.len() > 1);
}

#[test]
fn discard_of_unknown_card_is_refused() {
    let mut deck = Deck::<i32>::default();
    deck.add(1);
    deck.add(2);
    deck.draw(2).unwrap();
    assert_eq!(deck.discard(&[7]), Err(DeckError::UnknownCard));
    assert_eq!(deck.can_discard(&[7]), Err(DeckError::UnknownCard));
    assert_eq!(deck.available(), 0);
}

#[test]
fn discard_of_card_in_draw_pile_is_refused() {
    let mut deck = Deck::<i32>::default();
    deck.add(1);
    deck.add(2);
    let drawn = deck.draw_once().unwrap();
    let other = if drawn == 1 { 2 } else { 1 };
    assert_eq!(deck.discard(&[other]), Err(DeckError::NotCheckedOut));
    assert_eq!(deck.available(), 1);
    assert_eq!(deck.draw_once(), Ok(other));
}

#[test]
fn discard_twice_is_refused() {
    let mut deck = Deck::<i32>::default();
    deck.add(1);
    deck.add(2);
    let drawn = deck.draw_once().unwrap();
    assert_eq!(deck.discard(&[drawn]), Ok(()));
    assert_eq!(deck.discard(&[drawn]), Err(DeckError::DoubleDiscard));
    assert_eq!(deck.available(), 2);
}

#[test]
fn discard_of_fresh_card_is_refused_as_double() {
    let mut deck = Deck::<i32>::default();
    deck.add(1);
    assert_eq!(deck.discard(&[1]), Err(DeckError::DoubleDiscard));
}

#[test]
fn refused_discard_changes_nothing() {
    let mut deck = Deck::<i32>::default();
    deck.extend(vec![1, 2, 3]);
    let drawn = deck.draw(3).unwrap();
    assert_eq!(deck.discard(&[drawn[0], drawn[1], drawn[0]]), Err(DeckError::DoubleDiscard));
    assert_eq!(deck.available(), 0);
    assert_eq!(deck.discard(&[drawn[0], 9]), Err(DeckError::UnknownCard));
    assert_eq!(deck.available(), 0);
    assert_eq!(deck.can_discard(&drawn), Ok(()));
    assert_eq!(deck.available(), 0);
    assert_eq!(deck.discard(&drawn), Ok(()));
    assert_eq!(deck.available(), 3);
}

#[test]
fn discarded_cards_come_back_in_one_pile_order() {
    let mut deck = Deck::<i32>::default();
    deck.extend(vec![1, 2, 3, 4]);
    let drawn = deck.draw(4).unwrap();
    deck.discard(&[drawn[2]]).unwrap();
    assert_eq!(deck.draw(1), Ok(vec![drawn[2]]));
}

#[test]
fn equal_cards_are_found_at_their_first_position() {
    let mut deck = Deck::<i32>::default();
    deck.add(5);
    deck.add(5);
    let drawn = deck.draw(2).unwrap();
    assert_eq!(drawn, vec![5, 5]);
    assert_eq!(deck.discard(&[5]), Ok(()));
    assert_eq!(deck.discard(&[5]), Err(DeckError::DoubleDiscard));
}

#[test]
fn reset_returns_cards_in_order_of_addition() {
    let mut deck = Deck::<i32>::default();
    deck.extend(vec![3, 1, 2]);
    deck.draw(2).unwrap();
    deck.reset();
    assert_eq!(deck.available(), 3);
    assert_eq!(deck.cards(), &vec![3, 1, 2]);
    assert_eq!(deck.discard(&[3]), Err(DeckError::DoubleDiscard));
}

#[test]
fn repeats_are_found() {
    assert!(no_repeats::<i32>(&[]));
    assert!(no_repeats(&[1]));
    assert!(no_repeats(&[1, 2, 3]));
    assert!(!no_repeats(&[1, 2, 1]));
    assert!(!no_repeats(&[2, 2]));
    assert!(!no_repeats(&[1, 2, 3, 3]));
}
