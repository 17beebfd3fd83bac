//! Laws of the card supply: what holds of every well-formed supply, and how
//! drawing and discarding move cards between the draw pile, the discard pile
//! and the holders outside.

use crate::deck::{lemma_rearranged, DeckError, DeckView};
use vstd::multiset::Multiset;
use vstd::prelude::*;

verus! {

/// In a well-formed supply neither pile repeats a position, and the two
/// piles share none.
pub proof fn lemma_piles_disjoint<V>(deck: DeckView<V>)
    requires
        deck.wf(),
    ensures
        deck.remaining.no_duplicates(),
        deck.discarded.no_duplicates(),
        forall|i: usize| !(deck.remaining.contains(i) && deck.discarded.contains(i)),
{
    let both = deck.remaining + deck.discarded;
    let r = deck.remaining.len() as int;
    assert forall|a: int, b: int| 0 <= a < r && 0 <= b < r && a != b implies deck.remaining[a]
        != deck.remaining[b] by {
        assert(both[a] == deck.remaining[a] && both[b] == deck.remaining[b]);
    }
    assert forall|a: int, b: int|
        0 <= a < deck.discarded.len() && 0 <= b < deck.discarded.len() && a != b implies deck.discarded[a]
        != deck.discarded[b] by {
        assert(both[r + a] == deck.discarded[a] && both[r + b] == deck.discarded[b]);
    }
    assert forall|i: usize| !(deck.remaining.contains(i) && deck.discarded.contains(i)) by {
        if deck.remaining.contains(i) && deck.discarded.contains(i) {
            let a = choose|a: int| 0 <= a < r && deck.remaining[a] == i;
            let b = choose|b: int| 0 <= b < deck.discarded.len() && deck.discarded[b] == i;
            assert(both[a] == i && both[r + b] == i);
        }
    }
}

/// Every card of a well-formed supply is in exactly one place: the draw
/// pile, the discard pile, or checked out.
pub proof fn lemma_one_place<V>(deck: DeckView<V>, i: usize)
    requires
        deck.wf(),
        i < deck.cards.len(),
    ensures
        deck.remaining.contains(i) || deck.discarded.contains(i) || deck.is_out(i),
        !(deck.remaining.contains(i) && deck.discarded.contains(i)),
        !(deck.remaining.contains(i) && deck.is_out(i)),
        !(deck.discarded.contains(i) && deck.is_out(i)),
{
    lemma_piles_disjoint(deck);
}

/// Drawing checks out exactly the drawn positions: each was in a pile
/// before and is with a holder afterwards, none is drawn twice within the
/// draw, every card that was checked out before still is, and the piles
/// shrink by the number of cards drawn.
pub proof fn lemma_draw_checks_out<V>(before: DeckView<V>, after: DeckView<V>, ids: Seq<usize>)
    requires
        before.wf(),
        before.drew_ids(after, ids),
    ensures
        after.wf(),
        ids.no_duplicates(),
        forall|k: int|
            0 <= k < ids.len() ==> {
                &&& (#[trigger] ids[k]) < before.cards.len()
                &&& !before.is_out(ids[k])
                &&& after.is_out(ids[k])
            },
        forall|i: usize| #[trigger] after.is_out(i) <==> before.is_out(i) || ids.contains(i),
        after.available() + ids.len() == before.available(),
{
    lemma_piles_disjoint(before);
    let rem = before.remaining;
    let dis = before.discarded;
    let r = rem.len() as int;
    let d = dis.len() as int;
    let n = ids.len() as int;
    if n <= r {
        before.lemma_wf_shorter(r - n);
        assert(after == (DeckView {
            cards: before.cards,
            remaining: rem.take(r - n),
            discarded: dis,
        }));
        assert forall|k: int| 0 <= k < n implies #[trigger] ids[k] == rem[r - 1 - k] by {}
        assert forall|k: int| 0 <= k < n implies {
            &&& (#[trigger] ids[k]) < before.cards.len()
            &&& !before.is_out(ids[k])
            &&& after.is_out(ids[k])
        } by {
            assert(rem.contains(rem[r - 1 - k]));
            assert(rem[r - 1 - k] < before.cards.len());
            if after.remaining.contains(ids[k]) {
                let j = choose|j: int| 0 <= j < after.remaining.len() && after.remaining[j] == ids[k];
                assert(rem[j] == rem[r - 1 - k]);
            }
        }
        assert forall|i: usize| #[trigger] after.is_out(i) <==> before.is_out(i) || ids.contains(i) by {
            if before.is_out(i) {
                if after.remaining.contains(i) {
                    let j = choose|j: int| 0 <= j < after.remaining.len() && after.remaining[j] == i;
                    assert(rem[j] == i);
                }
            }
            if ids.contains(i) {
                let k = choose|k: int| 0 <= k < n && ids[k] == i;
                assert(after.is_out(ids[k]));
            }
            if after.is_out(i) && !before.is_out(i) {
                assert(rem.contains(i));
                let j = choose|j: int| 0 <= j < r && rem[j] == i;
                if j < r - n {
                    assert(after.remaining[j] == i);
                } else {
                    assert(ids[r - 1 - j] == i);
                }
            }
        }
    } else {
        let tail = ids.skip(r).reverse();
        let m = n - r;
        let pile = after.remaining + tail;
        lemma_rearranged(pile, dis, before.cards.len());
        let kept = after.remaining.len() as int;
        assert(kept + m == d);
        assert forall|k: int| 0 <= k < kept implies #[trigger] after.remaining[k] == pile[k] by {}
        assert forall|k: int| r <= k < n implies #[trigger] ids[k] == pile[kept + (n - 1 - k)] by {
            assert(ids[k] == ids.skip(r)[k - r]);
            assert(tail[n - 1 - k] == ids.skip(r)[k - r]);
        }
        assert forall|k: int| 0 <= k < r implies #[trigger] ids[k] == rem[r - 1 - k] by {
            assert(ids[k] == ids.take(r)[k]);
        }
        assert(after.wf()) by {
            assert(after.remaining + after.discarded =~= after.remaining);
            assert forall|k: int| 0 <= k < kept implies #[trigger] after.remaining[k]
                < after.cards.len() by {
                assert(after.remaining[k] == pile[k]);
            }
        }
        assert forall|k: int| 0 <= k < n implies {
            &&& (#[trigger] ids[k]) < before.cards.len()
            &&& !before.is_out(ids[k])
            &&& after.is_out(ids[k])
        } by {
            if k < r {
                assert(rem.contains(rem[r - 1 - k]));
                assert(rem[r - 1 - k] < before.cards.len());
                if after.remaining.contains(ids[k]) {
                    let j = choose|j: int| 0 <= j < kept && after.remaining[j] == ids[k];
                    assert(pile.contains(pile[j]));
                    assert(dis.contains(ids[k]));
                }
            } else {
                assert(pile.contains(pile[kept + (n - 1 - k)]));
                assert(dis.contains(ids[k]));
                assert(pile[kept + (n - 1 - k)] < before.cards.len());
                if after.remaining.contains(ids[k]) {
                    let j = choose|j: int| 0 <= j < kept && after.remaining[j] == ids[k];
                    assert(pile[j] == pile[kept + (n - 1 - k)]);
                }
            }
        }
        assert(ids.no_duplicates()) by {
            assert forall|a: int, b: int| 0 <= a < n && 0 <= b < n && a != b implies ids[a]
                != ids[b] by {
                if a < r && b < r {
                    assert(rem[r - 1 - a] != rem[r - 1 - b]);
                } else if a >= r && b >= r {
                    assert(pile[kept + (n - 1 - a)] != pile[kept + (n - 1 - b)]);
                } else if a < r {
                    assert(rem.contains(rem[r - 1 - a]));
                    assert(pile.contains(pile[kept + (n - 1 - b)]));
                } else {
                    assert(rem.contains(rem[r - 1 - b]));
                    assert(pile.contains(pile[kept + (n - 1 - a)]));
                }
            }
        }
        assert forall|i: usize| #[trigger] after.is_out(i) <==> before.is_out(i) || ids.contains(i) by {
            if before.is_out(i) {
                if after.remaining.contains(i) {
                    let j = choose|j: int| 0 <= j < kept && after.remaining[j] == i;
                    assert(pile.contains(pile[j]));
                }
            }
            if ids.contains(i) {
                let k = choose|k: int| 0 <= k < n && ids[k] == i;
                assert(after.is_out(ids[k]));
            }
            if after.is_out(i) && !before.is_out(i) {
                if rem.contains(i) {
                    let j = choose|j: int| 0 <= j < r && rem[j] == i;
                    assert(ids[r - 1 - j] == i);
                } else {
                    assert(dis.contains(i));
                    assert(pile.contains(i));
                    let j = choose|j: int| 0 <= j < pile.len() && pile[j] == i;
                    if j < kept {
                        assert(after.remaining[j] == i);
                    } else {
                        assert(ids[n - 1 - (j - kept)] == i);
                    }
                }
            }
        }
    }
}

/// A draw of no card leaves the supply as it is.
pub proof fn lemma_drew_nothing<V>(deck: DeckView<V>)
    ensures
        deck.drew(deck, Seq::empty()),
{
    let ids = Seq::<usize>::empty();
    assert(deck.remaining.take(deck.remaining.len() as int) =~= deck.remaining);
    assert(ids =~= deck.remaining.skip(deck.remaining.len() as int).reverse());
    assert(deck.drew_ids(deck, ids));
    assert(deck.picked(ids) =~= Seq::<V>::empty());
}

/// No card is drawn twice without a discard in between: the positions of
/// two draws in a row have nothing in common.
pub proof fn lemma_no_redraw<V>(
    start: DeckView<V>,
    between: DeckView<V>,
    end: DeckView<V>,
    first: Seq<usize>,
    second: Seq<usize>,
)
    requires
        start.wf(),
        start.drew_ids(between, first),
        between.drew_ids(end, second),
    ensures
        forall|a: int, b: int|
            0 <= a < first.len() && 0 <= b < second.len() ==> #[trigger] first[a]
                != #[trigger] second[b],
        forall|a: int| 0 <= a < first.len() ==> end.is_out(#[trigger] first[a]),
{
    lemma_draw_checks_out(start, between, first);
    lemma_draw_checks_out(between, end, second);
    assert forall|a: int, b: int| 0 <= a < first.len() && 0 <= b < second.len() implies #[trigger] first[a]
        != #[trigger] second[b] by {
        assert(between.is_out(first[a]));
        assert(!between.is_out(second[b]));
    }
    assert forall|a: int| 0 <= a < first.len() implies end.is_out(#[trigger] first[a]) by {
        assert(between.is_out(first[a]));
    }
}

/// A draw of as many cards as the two piles hold leaves both piles empty.
pub proof fn lemma_draw_everything<V>(before: DeckView<V>, after: DeckView<V>, ids: Seq<usize>)
    requires
        before.wf(),
        before.drew_ids(after, ids),
        ids.len() == before.available(),
    ensures
        after.remaining.len() == 0,
        after.discarded.len() == 0,
{
    lemma_draw_checks_out(before, after, ids);
}

/// A card that is discarded was checked out, lands in the discard pile, and
/// no other card moves.
pub proof fn lemma_discard_checks_in<V>(before: DeckView<V>, card: V)
    requires
        before.wf(),
        before.discard_one(card) is Ok,
    ensures
        ({
            let after = before.discard_one(card)->Ok_0;
            let i = before.position(card) as usize;
            &&& after.wf()
            &&& after.cards == before.cards
            &&& after.remaining == before.remaining
            &&& before.is_first_match(card, i as int)
            &&& before.is_out(i)
            &&& after.discarded.contains(i)
            &&& forall|j: usize| j != i ==> (after.is_out(j) <==> before.is_out(j))
            &&& after.available() == before.available() + 1
        }),
{
    let after = before.discard_one(card)->Ok_0;
    let w = choose|w: int| 0 <= w < before.cards.len() && #[trigger] before.cards[w] == card;
    lemma_some_first_match(before, card, w);
    let i = before.position(card) as usize;
    before.lemma_wf_discarded(i);
    assert(after.discarded[before.discarded.len() as int] == i);
    assert forall|j: usize| j != i implies (after.is_out(j) <==> before.is_out(j)) by {
        if before.discarded.contains(j) {
            let k = choose|k: int| 0 <= k < before.discarded.len() && before.discarded[k] == j;
            assert(after.discarded[k] == j);
        }
        if after.discarded.contains(j) {
            let k = choose|k: int| 0 <= k < after.discarded.len() && after.discarded[k] == j;
            assert(before.discarded[k] == j);
        }
    }
}

/// Where some position matches a card, a first matching position exists.
pub proof fn lemma_some_first_match<V>(deck: DeckView<V>, card: V, at: int)
    requires
        0 <= at < deck.cards.len(),
        deck.cards[at] == card,
    ensures
        deck.knows(card),
        deck.is_first_match(card, deck.position(card)),
        deck.position(card) <= at,
    decreases at,
{
    if exists|j: int| 0 <= j < at && #[trigger] deck.cards[j] == card {
        let j = choose|j: int| 0 <= j < at && #[trigger] deck.cards[j] == card;
        lemma_some_first_match(deck, card, j);
    } else {
        assert(deck.is_first_match(card, at));
        deck.lemma_first_match(card, at);
    }
}

/// Discarding a card that the supply has never seen is refused as unknown.
pub proof fn lemma_discard_unknown<V>(deck: DeckView<V>, card: V)
    requires
        forall|i: int| 0 <= i < deck.cards.len() ==> #[trigger] deck.cards[i] != card,
    ensures
        deck.discard_one(card) == Err::<DeckView<V>, DeckError>(DeckError::UnknownCard),
{
}

/// Discarding a card that lies in the draw pile is refused: it was not
/// checked out.
pub proof fn lemma_discard_undrawn<V>(deck: DeckView<V>, card: V)
    requires
        deck.knows(card),
        deck.remaining.contains(deck.position(card) as usize),
    ensures
        deck.discard_one(card) == Err::<DeckView<V>, DeckError>(DeckError::NotCheckedOut),
{
}

/// Discarding the same card twice in a row is refused the second time.
pub proof fn lemma_discard_twice<V>(deck: DeckView<V>, card: V)
    requires
        deck.wf(),
        deck.discard_one(card) is Ok,
    ensures
        (deck.discard_one(card)->Ok_0).discard_one(card) == Err::<DeckView<V>, DeckError>(
            DeckError::DoubleDiscard,
        ),
{
    lemma_discard_checks_in(deck, card);
    let after = deck.discard_one(card)->Ok_0;
    assert(after.is_first_match(card, deck.position(card)));
    after.lemma_first_match(card, deck.position(card));
}

/// Discarding a list of cards keeps the supply well formed and its cards
/// the same, leaves the draw pile alone, and lets the discard pile grow by
/// the length of the list.
pub proof fn lemma_discard_all<V>(before: DeckView<V>, cards: Seq<V>)
    requires
        before.wf(),
        before.discard_all(cards) is Ok,
    ensures
        ({
            let after = before.discard_all(cards)->Ok_0;
            &&& after.wf()
            &&& after.cards == before.cards
            &&& after.remaining == before.remaining
            &&& after.available() == before.available() + cards.len()
            &&& forall|j: usize| before.is_out(j) || !after.is_out(j)
        }),
    decreases cards.len(),
{
    if cards.len() > 0 {
        lemma_discard_all(before, cards.drop_last());
        let mid = before.discard_all(cards.drop_last())->Ok_0;
        lemma_discard_checks_in(mid, cards.last());
    }
}

/// In a supply whose cards all differ, each card is found at its own
/// position.
pub proof fn lemma_position_of<V>(deck: DeckView<V>, i: int)
    requires
        deck.cards.no_duplicates(),
        0 <= i < deck.cards.len(),
    ensures
        deck.knows(deck.cards[i]),
        deck.position(deck.cards[i]) == i,
{
    assert(deck.is_first_match(deck.cards[i], i));
    deck.lemma_first_match(deck.cards[i], i);
}

/// A card that the supply knows lies at the position found for it.
pub proof fn lemma_position_holds<V>(deck: DeckView<V>, card: V)
    requires
        deck.knows(card),
    ensures
        0 <= deck.position(card) < deck.cards.len(),
        deck.cards[deck.position(card)] == card,
{
    let w = choose|w: int| 0 <= w < deck.cards.len() && #[trigger] deck.cards[w] == card;
    lemma_some_first_match(deck, card, w);
}

/// Two supplies with the same cards find each card at the same position.
pub proof fn lemma_same_positions<V>(a: DeckView<V>, b: DeckView<V>, card: V)
    requires
        a.cards == b.cards,
    ensures
        a.knows(card) == b.knows(card),
        a.knows(card) ==> a.position(card) == b.position(card),
{
    if a.knows(card) {
        lemma_position_holds(a, card);
        let w = choose|w: int| 0 <= w < a.cards.len() && #[trigger] a.cards[w] == card;
        assert(b.cards[w] == card);
        lemma_some_first_match(a, card, w);
        assert(b.is_first_match(card, a.position(card)));
        b.lemma_first_match(card, a.position(card));
    }
    if b.knows(card) {
        let w = choose|w: int| 0 <= w < b.cards.len() && #[trigger] b.cards[w] == card;
        assert(a.cards[w] == card);
    }
}

/// Conservation under drawing: where the holders had exactly the cards
/// checked out, they have exactly those after a draw too, the cards drawn
/// included.
pub proof fn lemma_draw_conserves<V>(
    before: DeckView<V>,
    after: DeckView<V>,
    out: Seq<V>,
    held: Multiset<V>,
)
    requires
        before.wf(),
        before.cards.no_duplicates(),
        before.lends(held),
        before.drew(after, out),
    ensures
        after.wf(),
        after.cards == before.cards,
        after.lends(held.add(out.to_multiset())),
        after.available() + out.len() == before.available(),
{
    broadcast use vstd::multiset::group_multiset_axioms;
    broadcast use vstd::seq_lib::group_to_multiset_ensures;

    let ids = choose|ids: Seq<usize>| #[trigger] before.drew_ids(after, ids) && out == before.picked(ids);
    lemma_draw_checks_out(before, after, ids);
    assert(out.no_duplicates()) by {
        assert forall|a: int, b: int| 0 <= a < out.len() && 0 <= b < out.len() && a != b implies out[a]
            != out[b] by {
            assert(ids[a] != ids[b]);
            assert(ids[a] < before.cards.len() && ids[b] < before.cards.len());
        }
    }
    out.lemma_multiset_has_no_duplicates();
    let total = held.add(out.to_multiset());
    assert forall|v: V| #[trigger]
        total.count(v) == if after.knows(v) && after.is_out(after.position(v) as usize) {
            1nat
        } else {
            0nat
        } by {
        lemma_same_positions(before, after, v);
        assert(held.count(v) == if before.knows(v) && before.is_out(before.position(v) as usize) {
            1nat
        } else {
            0nat
        });
        assert(out.contains(v) <==> out.to_multiset().count(v) > 0);
        if before.knows(v) {
            lemma_position_holds(before, v);
            let p = before.position(v) as usize;
            assert(after.is_out(p) <==> before.is_out(p) || ids.contains(p));
            if out.contains(v) {
                let k = choose|k: int| 0 <= k < out.len() && out[k] == v;
                assert(ids[k] < before.cards.len());
                assert(before.cards[ids[k] as int] == before.cards[p as int]);
                assert(ids[k] == p);
                assert(!before.is_out(ids[k]));
                assert(out.to_multiset().contains(v));
            } else {
                if ids.contains(p) {
                    let k = choose|k: int| 0 <= k < ids.len() && ids[k] == p;
                    assert(out[k] == v);
                }
            }
        } else {
            if out.contains(v) {
                let k = choose|k: int| 0 <= k < out.len() && out[k] == v;
                assert(ids[k] < before.cards.len());
                assert(before.cards[ids[k] as int] == v);
            }
        }
    }
}

/// Conservation under several draws in a row.
pub proof fn lemma_draws_conserve<V>(
    before: DeckView<V>,
    after: DeckView<V>,
    outs: Seq<Seq<V>>,
    held: Multiset<V>,
)
    requires
        before.wf(),
        before.cards.no_duplicates(),
        before.lends(held),
        before.drew_many(after, outs),
    ensures
        after.wf(),
        after.cards == before.cards,
        after.lends(held.add(handed_out(outs))),
    decreases outs.len(),
{
    broadcast use vstd::multiset::group_multiset_axioms;

    if outs.len() == 0 {
        assert(held.add(handed_out(outs)) =~= held);
    } else {
        let mid = choose|mid: DeckView<V>|
            before.drew_many(mid, outs.drop_last()) && #[trigger] mid.drew(after, outs.last());
        lemma_draws_conserve(before, mid, outs.drop_last(), held);
        lemma_draw_conserves(mid, after, outs.last(), held.add(handed_out(outs.drop_last())));
        assert(held.add(handed_out(outs.drop_last())).add(outs.last().to_multiset()) =~= held.add(
            handed_out(outs),
        ));
    }
}

/// All cards of several lists together.
pub open spec fn handed_out<V>(outs: Seq<Seq<V>>) -> Multiset<V>
    decreases outs.len(),
{
    if outs.len() == 0 {
        Multiset::empty()
    } else {
        handed_out(outs.drop_last()).add(outs.last().to_multiset())
    }
}

/// Conservation under discarding one card: a card that a holder has can
/// be discarded, and the holders then have exactly the cards checked out,
/// less that card.
pub proof fn lemma_discard_conserves<V>(before: DeckView<V>, card: V, held: Multiset<V>)
    requires
        before.wf(),
        before.cards.no_duplicates(),
        before.lends(held),
        held.count(card) > 0,
    ensures
        before.discard_one(card) is Ok,
        (before.discard_one(card)->Ok_0).wf(),
        (before.discard_one(card)->Ok_0).cards == before.cards,
        (before.discard_one(card)->Ok_0).lends(held.remove(card)),
{
    broadcast use vstd::multiset::group_multiset_axioms;

    assert(held.count(card) == if before.knows(card) && before.is_out(
        before.position(card) as usize,
    ) {
        1nat
    } else {
        0nat
    });
    lemma_position_holds(before, card);
    let p = before.position(card) as usize;
    lemma_discard_checks_in(before, card);
    let after = before.discard_one(card)->Ok_0;
    let less = held.remove(card);
    assert forall|v: V| #[trigger]
        less.count(v) == if after.knows(v) && after.is_out(after.position(v) as usize) {
            1nat
        } else {
            0nat
        } by {
        lemma_same_positions(before, after, v);
        assert(held.count(v) == if before.knows(v) && before.is_out(before.position(v) as usize) {
            1nat
        } else {
            0nat
        });
        if v == card {
            assert(!after.is_out(p));
        } else if before.knows(v) {
            lemma_position_holds(before, v);
            let q = before.position(v) as usize;
            assert(q != p);
            assert(after.is_out(q) <==> before.is_out(q));
        }
    }
}

/// Conservation under discarding: cards that the holders have, each no
/// more often than they have it, can be discarded together, and the
/// holders then have exactly the cards checked out, less those.
pub proof fn lemma_discards_conserve<V>(before: DeckView<V>, cards: Seq<V>, held: Multiset<V>)
    requires
        before.wf(),
        before.cards.no_duplicates(),
        before.lends(held),
        cards.to_multiset().subset_of(held),
    ensures
        before.discard_all(cards) is Ok,
        (before.discard_all(cards)->Ok_0).wf(),
        (before.discard_all(cards)->Ok_0).cards == before.cards,
        (before.discard_all(cards)->Ok_0).lends(held.sub(cards.to_multiset())),
        (before.discard_all(cards)->Ok_0).available() == before.available() + cards.len(),
    decreases cards.len(),
{
    broadcast use vstd::multiset::group_multiset_axioms;
    broadcast use vstd::seq_lib::group_to_multiset_ensures;

    if cards.len() == 0 {
        assert(held.sub(cards.to_multiset()) =~= held);
    } else {
        let front = cards.drop_last();
        let last = cards.last();
        assert(front.push(last) =~= cards);
        assert(cards.to_multiset() =~= front.to_multiset().insert(last));
        assert(front.to_multiset().subset_of(held)) by {
            assert forall|v: V| front.to_multiset().count(v) <= held.count(v) by {
                assert(cards.to_multiset().count(v) <= held.count(v));
            }
        }
        lemma_discards_conserve(before, front, held);
        let mid = before.discard_all(front)->Ok_0;
        let left = held.sub(front.to_multiset());
        assert(left.count(last) > 0) by {
            assert(cards.to_multiset().count(last) <= held.count(last));
        }
        lemma_discard_conserves(mid, last, left);
        assert(left.remove(last) =~= held.sub(cards.to_multiset()));
        lemma_discard_all(before, cards);
    }
}

/// After a reset no card is checked out.
pub proof fn lemma_reset_conserves<V>(deck: DeckView<V>)
    requires
        deck.wf(),
    ensures
        deck.reset().wf(),
        deck.reset().lends(Multiset::empty()),
        deck.reset().available() == deck.cards.len(),
{
    broadcast use vstd::multiset::group_multiset_axioms;

    let after = deck.reset();
    assert(after.remaining + after.discarded =~= after.discarded);
    assert forall|v: V| #[trigger]
        Multiset::<V>::empty().count(v) == if after.knows(v) && after.is_out(
            after.position(v) as usize,
        ) {
            1nat
        } else {
            0nat
        } by {
        if after.knows(v) {
            lemma_position_holds(after, v);
            let p = after.position(v);
            assert(after.discarded[p] == p as usize);
        }
    }
}

/// A supply filled from nothing has all its cards in the discard pile:
/// none is checked out.
pub proof fn lemma_filled_conserves<V>(cards: Seq<V>)
    requires
        cards.len() <= usize::MAX,
    ensures
        DeckView::<V>::empty().added_all(cards) == DeckView::filled(cards),
        DeckView::filled(cards).wf(),
        DeckView::filled(cards).lends(Multiset::empty()),
        DeckView::filled(cards).available() == cards.len(),
    decreases cards.len(),
{
    let full = DeckView::<V>::empty().added_all(cards);
    let goal = DeckView::filled(cards);
    if cards.len() == 0 {
        assert(full.cards =~= goal.cards);
        assert(full.discarded =~= goal.discarded);
    } else {
        lemma_filled_conserves(cards.drop_last());
        let less = DeckView::filled(cards.drop_last());
        assert(full == less.added(cards.last()));
        assert(full.cards =~= cards);
        assert(full.discarded =~= goal.discarded);
        assert(full.remaining =~= goal.remaining);
    }
    assert(goal.remaining + goal.discarded =~= goal.discarded);
    assert(goal == goal.reset());
    lemma_reset_conserves(goal);
}

/// No card is dealt again before it came back: in a supply whose cards all
/// differ, the cards of a draw differ from each other, each is a card of
/// the supply, and none of them was checked out before the draw.
pub proof fn lemma_draw_fresh<V>(
    before: DeckView<V>,
    after: DeckView<V>,
    out: Seq<V>,
    held: Multiset<V>,
)
    requires
        before.wf(),
        before.cards.no_duplicates(),
        before.lends(held),
        before.drew(after, out),
    ensures
        out.no_duplicates(),
        forall|k: int| 0 <= k < out.len() ==> held.count(#[trigger] out[k]) == 0,
        forall|k: int| 0 <= k < out.len() ==> before.knows(#[trigger] out[k]),
{
    broadcast use vstd::multiset::group_multiset_axioms;
    broadcast use vstd::seq_lib::group_to_multiset_ensures;

    lemma_draw_conserves(before, after, out, held);
    let total = held.add(out.to_multiset());
    assert forall|v: V| total.count(v) <= 1 by {
        assert(total.count(v) == if after.knows(v) && after.is_out(after.position(v) as usize) {
            1nat
        } else {
            0nat
        });
    }
    assert forall|v: V| out.to_multiset().contains(v) implies out.to_multiset().count(v) == 1 by {
        assert(total.count(v) <= 1);
    }
    out.lemma_multiset_has_no_duplicates_conv();
    assert forall|k: int| 0 <= k < out.len() implies held.count(#[trigger] out[k]) == 0
        && before.knows(out[k]) by {
        assert(out.contains(out[k]));
        assert(out.to_multiset().count(out[k]) > 0);
        assert(total.count(out[k]) <= 1);
        assert(total.count(out[k]) == if after.knows(out[k]) && after.is_out(
            after.position(out[k]) as usize,
        ) {
            1nat
        } else {
            0nat
        });
        lemma_same_positions(before, after, out[k]);
    }
}

/// The positions at which the supply finds the cards of a list.
pub open spec fn positions_of<V>(deck: DeckView<V>, cards: Seq<V>) -> Seq<usize> {
    Seq::new(cards.len(), |k: int| deck.position(cards[k]) as usize)
}

/// Every card of the list is a card of the supply and is checked out, and
/// the list names no card twice.
pub open spec fn can_return<V>(deck: DeckView<V>, cards: Seq<V>) -> bool {
    &&& cards.no_duplicates()
    &&& forall|k: int|
        0 <= k < cards.len() ==> deck.knows(#[trigger] cards[k]) && deck.is_out(
            deck.position(cards[k]) as usize,
        )
}

/// In a supply whose cards all differ, a list of cards is taken back
/// exactly when each of its cards is known and checked out and none
/// occurs twice in it. The cards then lie on the discard pile in the
/// order of the list, and nothing else changed. A list that is not taken
/// back is refused with one of the three errors of a discard.
pub proof fn lemma_discard_exactly<V>(deck: DeckView<V>, cards: Seq<V>)
    requires
        deck.wf(),
        deck.cards.no_duplicates(),
    ensures
        deck.discard_all(cards) is Ok <==> can_return(deck, cards),
        deck.discard_all(cards) matches Ok(after) ==> after == (DeckView {
            cards: deck.cards,
            remaining: deck.remaining,
            discarded: deck.discarded + positions_of(deck, cards),
        }),
        deck.discard_all(cards) matches Err(e) ==> e == DeckError::UnknownCard || e
            == DeckError::NotCheckedOut || e == DeckError::DoubleDiscard,
    decreases cards.len(),
{
    if cards.len() == 0 {
        assert(deck.discarded + positions_of(deck, cards) =~= deck.discarded);
    } else {
        let front = cards.drop_last();
        let last = cards.last();
        let n = front.len() as int;
        lemma_discard_exactly(deck, front);
        assert forall|k: int| 0 <= k < n implies front[k] == cards[k] by {}
        if can_return(deck, cards) {
            assert(can_return(deck, front)) by {
                assert forall|a: int, b: int| 0 <= a < n && 0 <= b < n && a != b implies front[a]
                    != front[b] by {
                    assert(cards[a] != cards[b]);
                }
                assert forall|k: int| 0 <= k < n implies deck.knows(#[trigger] front[k])
                    && deck.is_out(deck.position(front[k]) as usize) by {
                    assert(deck.knows(cards[k]));
                }
            }
        }
        if deck.discard_all(front) is Ok {
            let mid = deck.discard_all(front)->Ok_0;
            lemma_discard_all(deck, front);
            lemma_same_positions(deck, mid, last);
            let went = positions_of(deck, front);
            if deck.knows(last) {
                lemma_position_holds(deck, last);
                let p = deck.position(last) as usize;
                assert(mid.discarded.contains(p) <==> deck.discarded.contains(p) || went.contains(
                    p,
                )) by {
                    if mid.discarded.contains(p) {
                        let w = choose|w: int| 0 <= w < mid.discarded.len() && mid.discarded[w] == p;
                        if w < deck.discarded.len() {
                            assert(deck.discarded[w] == p);
                        } else {
                            assert(went[w - deck.discarded.len()] == p);
                        }
                    }
                    if deck.discarded.contains(p) {
                        let w = choose|w: int| 0 <= w < deck.discarded.len() && deck.discarded[w]
                            == p;
                        assert(mid.discarded[w] == p);
                    }
                    if went.contains(p) {
                        let w = choose|w: int| 0 <= w < went.len() && went[w] == p;
                        assert(mid.discarded[deck.discarded.len() + w] == p);
                    }
                }
                assert(went.contains(p) <==> front.contains(last)) by {
                    if went.contains(p) {
                        let w = choose|w: int| 0 <= w < went.len() && went[w] == p;
                        assert(deck.knows(front[w]));
                        lemma_position_holds(deck, front[w]);
                        assert(front[w] == last);
                    }
                    if front.contains(last) {
                        let w = choose|w: int| 0 <= w < n && front[w] == last;
                        assert(went[w] == p);
                    }
                }
                if can_return(deck, cards) {
                    assert(!front.contains(last)) by {
                        if front.contains(last) {
                            let w = choose|w: int| 0 <= w < n && front[w] == last;
                            assert(cards[w] == cards[n]);
                        }
                    }
                    assert(deck.is_out(deck.position(cards[n]) as usize));
                }
                if mid.discard_one(last) is Ok {
                    assert(cards.no_duplicates()) by {
                        assert forall|a: int, b: int|
                            0 <= a < cards.len() && 0 <= b < cards.len() && a != b implies cards[a]
                            != cards[b] by {
                            if a < n && b < n {
                                assert(front[a] != front[b]);
                            } else if a < n {
                                assert(front.contains(front[a]));
                            } else {
                                assert(front.contains(front[b]));
                            }
                        }
                    }
                    assert forall|k: int| 0 <= k < cards.len() implies deck.knows(
                        #[trigger] cards[k],
                    ) && deck.is_out(deck.position(cards[k]) as usize) by {
                        if k < n {
                            assert(deck.knows(front[k]));
                        }
                    }
                    assert(deck.discarded + positions_of(deck, cards) =~= mid.discarded.push(p));
                }
            } else {
                if can_return(deck, cards) {
                    assert(deck.knows(cards[n]));
                }
            }
        }
    }
}

/// A draw of as many cards as the two piles hold hands out each position
/// of the piles once.
pub proof fn lemma_draw_everything_once<V>(
    before: DeckView<V>,
    after: DeckView<V>,
    ids: Seq<usize>,
)
    requires
        before.wf(),
        before.drew_ids(after, ids),
        ids.len() == before.available(),
    ensures
        ids.to_multiset() == (before.remaining + before.discarded).to_multiset(),
{
    broadcast use vstd::multiset::group_multiset_axioms;
    broadcast use vstd::seq_lib::group_to_multiset_ensures;
    broadcast use vstd::seq_lib::lemma_multiset_commutative;

    lemma_draw_everything(before, after, ids);
    let r = before.remaining.len() as int;
    before.remaining.lemma_reverse_to_multiset();
    if ids.len() <= r {
        assert(before.discarded =~= Seq::<usize>::empty());
        assert(before.remaining.skip(0) =~= before.remaining);
        assert(before.remaining + before.discarded =~= before.remaining);
    } else {
        let tail = ids.skip(r);
        tail.lemma_reverse_to_multiset();
        assert(after.remaining =~= Seq::<usize>::empty());
        assert(after.remaining + tail.reverse() =~= tail.reverse());
        assert(ids =~= ids.take(r) + tail);
        assert(ids.to_multiset() =~= ids.take(r).to_multiset().add(tail.to_multiset()));
    }
}

} // verus!
