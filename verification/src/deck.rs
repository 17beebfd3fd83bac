//! A shuffled supply of cards with a draw pile and a discard pile.
//!
//! Cards are never removed from a supply. Each card, identified by the
//! position at which it was added, is in exactly one of three places: the
//! draw pile (`remaining`), the discard pile (`discarded`), or checked out to
//! whoever drew it.

use rand::seq::SliceRandom;
use vstd::multiset::Multiset;
use vstd::prelude::*;
use vstd::std_specs::cmp::PartialEqSpec;

verus! {

/// Why a supply operation was refused.
#[derive(Debug, Clone, Copy, PartialEq, Eq, Structural)]
pub enum DeckError {
    /// More cards were requested than the draw and discard piles hold.
    SupplyExhausted,
    /// The card to discard was never added to this supply.
    UnknownCard,
    /// The card to discard is still in the draw pile.
    NotCheckedOut,
    /// The card to discard already lies in the discard pile.
    DoubleDiscard,
}

/// The mathematical content of a [`Deck`]: its cards, each taken by its
/// view, and the two piles.
pub struct DeckView<V> {
    /// Every card ever added, in the order of addition.
    pub cards: Seq<V>,
    /// Positions of the cards in the draw pile; the last one is drawn next.
    pub remaining: Seq<usize>,
    /// Positions of the cards in the discard pile, oldest first.
    pub discarded: Seq<usize>,
}

impl<V> DeckView<V> {
    /// The supply without any card.
    pub open spec fn empty() -> Self {
        DeckView { cards: Seq::empty(), remaining: Seq::empty(), discarded: Seq::empty() }
    }

    /// Both piles hold positions of known cards, and no position occurs twice
    /// over the two piles together.
    pub open spec fn wf(self) -> bool {
        &&& self.cards.len() <= usize::MAX
        &&& forall|k: int| 0 <= k < self.remaining.len() ==> #[trigger] self.remaining[k] < self.cards.len()
        &&& forall|k: int| 0 <= k < self.discarded.len() ==> #[trigger] self.discarded[k] < self.cards.len()
        &&& (self.remaining + self.discarded).no_duplicates()
    }

    /// The number of cards that can still be drawn before the supply runs dry.
    pub open spec fn available(self) -> nat {
        self.remaining.len() + self.discarded.len()
    }

    /// The card at position `i` is checked out: in neither pile.
    pub open spec fn is_out(self, i: usize) -> bool {
        &&& i < self.cards.len()
        &&& !self.remaining.contains(i)
        &&& !self.discarded.contains(i)
    }

    /// The supply after `card` was added: it starts in the discard pile.
    pub open spec fn added(self, card: V) -> Self {
        DeckView {
            cards: self.cards.push(card),
            remaining: self.remaining,
            discarded: self.discarded.push(self.cards.len() as usize),
        }
    }

    /// The supply after each of `cards` was added, in order.
    pub open spec fn added_all(self, cards: Seq<V>) -> Self
        decreases cards.len(),
    {
        if cards.len() == 0 {
            self
        } else {
            self.added_all(cards.drop_last()).added(cards.last())
        }
    }

    /// The supply of `cards` with every card in the discard pile, in the
    /// order of addition, and an empty draw pile.
    pub open spec fn filled(cards: Seq<V>) -> Self {
        DeckView {
            cards,
            remaining: Seq::empty(),
            discarded: Seq::new(cards.len(), |i: int| i as usize),
        }
    }

    /// The supply after a reset: every card lies in the discard pile, in the
    /// order of addition, and the draw pile is empty.
    pub open spec fn reset(self) -> Self {
        Self::filled(self.cards)
    }

    /// Drawing the positions `ids`, in that order, takes the supply from
    /// `self` to `after`.
    ///
    /// While the draw pile lasts, cards leave it from its end. When it runs
    /// dry in the middle of a draw, the discard pile is shuffled into a new
    /// draw pile, in an order that only the outcome shows: what is left of
    /// that pile, followed by the cards drawn from it (last drawn first), is
    /// a rearrangement of the old discard pile.
    pub open spec fn drew_ids(self, after: Self, ids: Seq<usize>) -> bool {
        let r = self.remaining.len() as int;
        let n = ids.len() as int;
        &&& after.cards == self.cards
        &&& if n <= r {
            &&& after.remaining == self.remaining.take(r - n)
            &&& after.discarded == self.discarded
            &&& ids == self.remaining.skip(r - n).reverse()
        } else {
            &&& n <= r + self.discarded.len()
            &&& after.discarded.len() == 0
            &&& ids.take(r) == self.remaining.reverse()
            &&& (after.remaining + ids.skip(r).reverse()).to_multiset()
                == self.discarded.to_multiset()
        }
    }
}

impl<V> DeckView<V> {
    /// The cards at the positions `ids`, in that order.
    pub open spec fn picked(self, ids: Seq<usize>) -> Seq<V> {
        Seq::new(ids.len(), |k: int| self.cards[ids[k] as int])
    }

    /// Drawing takes the supply from `self` to `after` and hands out `out`:
    /// the cards at the drawn positions, in the order drawn.
    pub open spec fn drew(self, after: Self, out: Seq<V>) -> bool {
        exists|ids: Seq<usize>| (#[trigger] self.drew_ids(after, ids)) && out == self.picked(ids)
    }

    /// Several draws in a row take the supply from `self` to `after` and
    /// hand out `outs`, one list for each draw.
    pub open spec fn drew_many(self, after: Self, outs: Seq<Seq<V>>) -> bool
        decreases outs.len(),
    {
        if outs.len() == 0 {
            after == self
        } else {
            exists|mid: Self|
                self.drew_many(mid, outs.drop_last()) && #[trigger] mid.drew(after, outs.last())
        }
    }

    /// The cards of `held`, each once, are exactly the cards that are
    /// checked out: nothing is held that the supply did not hand out, and
    /// nothing that it handed out is missing.
    pub open spec fn lends(self, held: Multiset<V>) -> bool {
        forall|v: V| #[trigger]
            held.count(v) == if self.knows(v) && self.is_out(self.position(v) as usize) {
                1nat
            } else {
                0nat
            }
    }

    /// Some card of the supply equals `card`.
    pub open spec fn knows(self, card: V) -> bool {
        exists|i: int| 0 <= i < self.cards.len() && #[trigger] self.cards[i] == card
    }

    /// `i` is the first position whose card equals `card`.
    pub open spec fn is_first_match(self, card: V, i: int) -> bool {
        &&& 0 <= i < self.cards.len()
        &&& self.cards[i] == card
        &&& forall|j: int| 0 <= j < i ==> #[trigger] self.cards[j] != card
    }

    /// The first position whose card equals `card`, where the supply knows
    /// such a card.
    pub open spec fn position(self, card: V) -> int {
        choose|i: int| self.is_first_match(card, i)
    }

    /// The outcome of discarding one card: it is found by equality, must be
    /// checked out, and then lands on top of the discard pile.
    pub open spec fn discard_one(self, card: V) -> Result<Self, DeckError> {
        if !self.knows(card) {
            Err(DeckError::UnknownCard)
        } else {
            let i = self.position(card) as usize;
            if self.remaining.contains(i) {
                Err(DeckError::NotCheckedOut)
            } else if self.discarded.contains(i) {
                Err(DeckError::DoubleDiscard)
            } else {
                Ok(
                    DeckView {
                        cards: self.cards,
                        remaining: self.remaining,
                        discarded: self.discarded.push(i),
                    },
                )
            }
        }
    }

    /// The outcome of discarding `cards` one after the other: the first card
    /// that is refused decides the error.
    pub open spec fn discard_all(self, cards: Seq<V>) -> Result<Self, DeckError>
        decreases cards.len(),
    {
        if cards.len() == 0 {
            Ok(self)
        } else {
            match self.discard_all(cards.drop_last()) {
                Ok(deck) => deck.discard_one(cards.last()),
                Err(e) => Err(e),
            }
        }
    }
}

/// `==` on `Card` compares views: two cards are equal exactly when their
/// views are.
pub open spec fn compares_by_view<Card: PartialEq + DeepView>() -> bool {
    &&& Card::obeys_eq_spec()
    &&& forall|a: Card, b: Card| #[trigger] a.eq_spec(&b) <==> a.deep_view() == b.deep_view()
}

/// `out[k]` is a clone of the card at place `ids[k]` of `originals`, for
/// every `k`.
pub open spec fn clones_of<Card: Clone>(originals: Seq<Card>, ids: Seq<usize>, out: Seq<Card>) -> bool {
    &&& ids.len() == out.len()
    &&& forall|k: int|
        0 <= k < ids.len() ==> (#[trigger] ids[k]) < originals.len() && cloned(
            originals[ids[k] as int],
            out[k],
        )
}

/// A clone of a `Card` has the view of the card it was made from.
pub open spec fn clones_keep_view<Card: Clone + DeepView>() -> bool {
    forall|a: Card, b: Card| #[trigger] cloned(a, b) ==> a.deep_view() == b.deep_view()
}

/// Whole numbers compare and clone by their value: as cards they obey both
/// laws.
pub proof fn lemma_number_cards()
    ensures
        compares_by_view::<i32>() && clones_keep_view::<i32>(),
        compares_by_view::<i64>() && clones_keep_view::<i64>(),
        compares_by_view::<u8>() && clones_keep_view::<u8>(),
        compares_by_view::<u32>() && clones_keep_view::<u32>(),
        compares_by_view::<u64>() && clones_keep_view::<u64>(),
        compares_by_view::<usize>() && clones_keep_view::<usize>(),
{
}

/// Whether no two of `cards` are equal.
pub fn no_repeats<Card: Eq + DeepView>(cards: &[Card]) -> (distinct: bool)
    ensures
        compares_by_view::<Card>() ==> distinct == cards.deep_view().no_duplicates(),
{
    let ghost list = cards.deep_view();
    let mut j: usize = 0;
    while j < cards.len()
        invariant
            j <= cards.len(),
            list == cards.deep_view(),
            compares_by_view::<Card>() ==> forall|a: int, b: int|
                0 <= a < b < j ==> list[a] != list[b],
        decreases cards.len() - j,
    {
        let mut i: usize = 0;
        while i < j
            invariant
                i <= j < cards.len(),
                list == cards.deep_view(),
                compares_by_view::<Card>() ==> forall|a: int| 0 <= a < i ==> list[a] != list[j as int],
            decreases j - i,
        {
            if cards[i] == cards[j] {
                proof {
                    if compares_by_view::<Card>() {
                        assert(cards@[i as int].eq_spec(&cards@[j as int]));
                        assert(list[i as int] == list[j as int]);
                    }
                }
                return false;
            }
            proof {
                if compares_by_view::<Card>() {
                    assert(!cards@[i as int].eq_spec(&cards@[j as int]));
                }
            }
            i += 1;
        }
        j += 1;
    }
    proof {
        if compares_by_view::<Card>() {
            assert forall|a: int, b: int| 0 <= a < list.len() && 0 <= b < list.len() && a
                != b implies list[a] != list[b] by {
                if a < b {
                    assert(list[a] != list[b]);
                } else {
                    assert(list[b] != list[a]);
                }
            }
        }
    }
    true
}

/// A supply of cards of type `Card`.
pub struct Deck<Card> {
    cards: Vec<Card>,
    remaining: Vec<usize>,
    discarded: Vec<usize>,
}

impl<Card: DeepView> View for Deck<Card> {
    type V = DeckView<Card::V>;

    closed spec fn view(&self) -> DeckView<Card::V> {
        DeckView {
            cards: self.cards.deep_view(),
            remaining: self.remaining@,
            discarded: self.discarded@,
        }
    }
}

impl<Card> Deck<Card> {
    /// The cards themselves, in the order of addition.
    pub closed spec fn originals(&self) -> Seq<Card> {
        self.cards@
    }
}

impl<Card: DeepView> Deck<Card> {
    /// The cards of the model are the views of the cards themselves.
    pub proof fn lemma_originals(&self)
        ensures
            self@.cards == Seq::new(
                self.originals().len(),
                |i: int| self.originals()[i].deep_view(),
            ),
    {
        assert(self@.cards =~= Seq::new(
            self.originals().len(),
            |i: int| self.originals()[i].deep_view(),
        ));
    }
}

impl<Card: DeepView> Default for Deck<Card> {
    /// An empty supply.
    fn default() -> (deck: Deck<Card>)
        ensures
            deck@.wf(),
            deck@ == DeckView::<Card::V>::empty(),
            deck.originals() == Seq::<Card>::empty(),
    {
        let deck = Deck { cards: Vec::new(), remaining: Vec::new(), discarded: Vec::new() };
        proof {
            assert(deck@.cards =~= Seq::empty());
            assert(deck@.remaining =~= Seq::empty());
            assert(deck@.discarded =~= Seq::empty());
            assert(deck@.remaining + deck@.discarded =~= Seq::empty());
            assert(deck.originals() =~= Seq::<Card>::empty());
        }
        deck
    }
}

/// Shuffles `pile` in place with `rand::seq::SliceRandom::shuffle`, driven by
/// the generator that `rand::thread_rng` hands out.
///
/// Believed, not proved: the shuffle only swaps elements of the slice, so the
/// pile afterwards holds the same positions as before, each as often as
/// before. Nothing is claimed about their order. (The generator is seeded
/// by the system on its first use in a thread; `rand` panics where the
/// system cannot provide the seed.)
#[verifier::external_body]
fn shuffle(pile: &mut Vec<usize>)
    ensures
        final(pile)@.to_multiset() == old(pile)@.to_multiset(),
{
    pile.shuffle(&mut rand::thread_rng());
}

/// Turns the discard pile into the new draw pile, in shuffled order.
fn reshuffle(remaining: &mut Vec<usize>, discarded: &mut Vec<usize>)
    ensures
        final(remaining)@.to_multiset() == old(discarded)@.to_multiset(),
        final(discarded)@.len() == 0,
{
    std::mem::swap(remaining, discarded);
    discarded.clear();
    shuffle(remaining);
}

/// Whether `pile` holds the position `i`.
fn holds(pile: &Vec<usize>, i: usize) -> (found: bool)
    ensures
        found == pile@.contains(i),
{
    let mut k: usize = 0;
    while k < pile.len()
        invariant
            k <= pile.len(),
            forall|j: int| 0 <= j < k ==> pile@[j] != i,
        decreases pile.len() - k,
    {
        if pile[k] == i {
            return true;
        }
        k += 1;
    }
    false
}

/// A rearrangement of a pile without repeats, below a bound, is again
/// without repeats and below that bound.
pub(crate) proof fn lemma_rearranged(pile: Seq<usize>, from: Seq<usize>, bound: nat)
    requires
        pile.to_multiset() == from.to_multiset(),
        from.no_duplicates(),
        forall|k: int| 0 <= k < from.len() ==> #[trigger] from[k] < bound,
    ensures
        pile.no_duplicates(),
        pile.len() == from.len(),
        forall|k: int| 0 <= k < pile.len() ==> #[trigger] pile[k] < bound,
        forall|i: usize| pile.contains(i) <==> from.contains(i),
{
    broadcast use vstd::seq_lib::group_to_multiset_ensures;

    from.lemma_multiset_has_no_duplicates();
    pile.lemma_multiset_has_no_duplicates_conv();
    assert(pile.len() == pile.to_multiset().len());
    assert(from.len() == from.to_multiset().len());
    assert forall|i: usize| pile.contains(i) <==> from.contains(i) by {
        assert(pile.contains(i) <==> pile.to_multiset().count(i) > 0);
        assert(from.contains(i) <==> from.to_multiset().count(i) > 0);
    }
    assert forall|k: int| 0 <= k < pile.len() implies #[trigger] pile[k] < bound by {
        assert(pile.contains(pile[k]));
        assert(from.contains(pile[k]));
    }
}

/// A pile without repeats whose positions lie below a bound is no longer
/// than that bound.
proof fn lemma_pile_fits(pile: Seq<usize>, bound: nat)
    requires
        pile.no_duplicates(),
        forall|k: int| 0 <= k < pile.len() ==> #[trigger] pile[k] < bound,
    ensures
        pile.len() <= bound,
{
    let ints = pile.map_values(|i: usize| i as int);
    assert(ints.no_duplicates()) by {
        assert forall|a: int, b: int| 0 <= a < ints.len() && 0 <= b < ints.len() && a != b implies ints[a] != ints[b] by {
            assert(pile[a] != pile[b]);
        }
    }
    ints.unique_seq_to_set();
    vstd::set_lib::lemma_int_range(0, bound as int);
    assert(ints.to_set().subset_of(vstd::set_lib::set_int_range(0, bound as int))) by {
        assert forall|x: int| ints.to_set().contains(x) implies vstd::set_lib::set_int_range(
            0,
            bound as int,
        ).contains(x) by {
            let k = choose|k: int| 0 <= k < ints.len() && ints[k] == x;
            assert(pile[k] < bound);
        }
    }
    vstd::set_lib::lemma_len_subset(ints.to_set(), vstd::set_lib::set_int_range(0, bound as int));
}

impl<V> DeckView<V> {
    /// The two piles together hold no more cards than the supply knows.
    pub proof fn lemma_available_bounded(self)
        requires
            self.wf(),
        ensures
            self.available() <= self.cards.len(),
    {
        let both = self.remaining + self.discarded;
        assert forall|k: int| 0 <= k < both.len() implies #[trigger] both[k] < self.cards.len() by {
            if k < self.remaining.len() {
                assert(both[k] == self.remaining[k]);
            } else {
                assert(both[k] == self.discarded[k - self.remaining.len()]);
            }
        }
        lemma_pile_fits(both, self.cards.len());
    }

    /// Shortening the draw pile keeps the supply well formed.
    pub(crate) proof fn lemma_wf_shorter(self, kept: int)
        requires
            self.wf(),
            0 <= kept <= self.remaining.len(),
        ensures
            (DeckView {
                cards: self.cards,
                remaining: self.remaining.take(kept),
                discarded: self.discarded,
            }).wf(),
    {
        let both = self.remaining + self.discarded;
        let short = self.remaining.take(kept) + self.discarded;
        let gap = self.remaining.len() - kept;
        assert forall|a: int, b: int| 0 <= a < short.len() && 0 <= b < short.len() && a != b implies short[a] != short[b] by {
            let a2 = if a < kept { a } else { a + gap };
            let b2 = if b < kept { b } else { b + gap };
            assert(short[a] == both[a2]);
            assert(short[b] == both[b2]);
        }
    }

    /// A position in neither pile may be put on the discard pile.
    pub(crate) proof fn lemma_wf_discarded(self, i: usize)
        requires
            self.wf(),
            self.is_out(i),
        ensures
            (DeckView {
                cards: self.cards,
                remaining: self.remaining,
                discarded: self.discarded.push(i),
            }).wf(),
    {
        let both = self.remaining + self.discarded;
        assert(self.remaining + self.discarded.push(i) =~= both.push(i));
        assert forall|k: int| 0 <= k < both.len() implies both[k] != i by {
            if k < self.remaining.len() {
                assert(self.remaining[k] == both[k]);
            } else {
                assert(self.discarded[k - self.remaining.len()] == both[k]);
            }
        }
    }
}

impl<V> DeckView<V> {
    /// A first match is the position that `position` names.
    pub(crate) proof fn lemma_first_match(self, card: V, i: int)
        requires
            self.is_first_match(card, i),
        ensures
            self.knows(card),
            self.position(card) == i,
    {
        let p = self.position(card);
        assert(self.is_first_match(card, p));
        if p < i {
            assert(self.cards[p] != card);
        } else if i < p {
            assert(self.cards[i] != card);
        }
    }

    /// Once a card of the list is refused, the whole list is refused with
    /// the same error.
    proof fn lemma_refusal_stays(self, cards: Seq<V>, upto: int, e: DeckError)
        requires
            0 <= upto <= cards.len(),
            self.discard_all(cards.take(upto)) == Err::<Self, DeckError>(e),
        ensures
            self.discard_all(cards) == Err::<Self, DeckError>(e),
        decreases cards.len() - upto,
    {
        if upto == cards.len() {
            assert(cards.take(upto) =~= cards);
        } else {
            assert(cards.take(upto + 1).drop_last() =~= cards.take(upto));
            self.lemma_refusal_stays(cards, upto + 1, e);
        }
    }
}

impl<Card: Clone + Eq + DeepView> Deck<Card> {
    /// Adds a card to the supply, on top of the discard pile.
    pub fn add(&mut self, card: Card)
        requires
            old(self)@.wf(),
        ensures
            final(self)@.wf(),
            final(self)@ == old(self)@.added(card.deep_view()),
            final(self).originals() == old(self).originals().push(card),
    {
        self.cards.push(card);
        let i: usize = self.cards.len() - 1;
        self.discarded.push(i);
        proof {
            let before = old(self)@;
            let after = self@;
            assert(after.remaining + after.discarded =~= (before.remaining + before.discarded).push(i));
            assert(after.discarded =~= before.discarded.push(i));
            assert(after.cards =~= before.cards.push(card.deep_view()));
        }
    }

    /// Adds each of `cards` to the supply, in order.
    pub fn extend(&mut self, cards: Vec<Card>)
        requires
            old(self)@.wf(),
        ensures
            final(self)@.wf(),
            final(self)@ == old(self)@.added_all(cards.deep_view()),
            final(self).originals() == old(self).originals() + cards@,
    {
        let ghost start = self@;
        let ghost held = self.originals();
        let ghost all = cards.deep_view();
        let ghost raw = cards@;
        for card in it: cards
            invariant
                it.seq() == raw,
                all.len() == raw.len(),
                forall|k: int| 0 <= k < raw.len() ==> all[k] == (#[trigger] raw[k]).deep_view(),
                self@.wf(),
                self@ == start.added_all(all.take(it.index() as int)),
                self.originals() == held + raw.take(it.index() as int),
        {
            let ghost so_far = self.originals();
            proof {
                let at = it.index() as int;
                assert(all.take(at + 1).drop_last() =~= all.take(at));
                assert(all.take(at + 1).last() == card.deep_view());
            }
            self.add(card);
            proof {
                assert(so_far.push(card) =~= held + raw.take(it.index() + 1));
            }
        }
        proof {
            assert(all.take(all.len() as int) =~= all);
            assert(raw.take(raw.len() as int) =~= raw);
        }
    }

    /// Moves the last `count` positions of the draw pile out of the supply
    /// and appends a copy of each of their cards to `out`.
    fn pop_cards(&mut self, count: usize, out: &mut Vec<Card>) -> (ids: Ghost<Seq<usize>>)
        requires
            old(self)@.wf(),
            count <= old(self)@.remaining.len(),
        ensures
            final(self)@.wf(),
            final(self)@.cards == old(self)@.cards,
            final(self)@.discarded == old(self)@.discarded,
            final(self)@.remaining == old(self)@.remaining.take(
                old(self)@.remaining.len() - count,
            ),
            ids@ == old(self)@.remaining.skip(old(self)@.remaining.len() - count).reverse(),
            final(out)@.len() == old(out)@.len() + count,
            final(out)@.take(old(out)@.len() as int) == old(out)@,
            final(self).originals() == old(self).originals(),
            clones_of(old(self).originals(), ids@, final(out)@.skip(old(out)@.len() as int)),
    {
        let ghost before = self@;
        let ghost originals = self.cards@;
        let ghost pile = self.remaining@;
        let ghost had = out@;
        let mut done: usize = 0;
        while done < count
            invariant
                done <= count <= pile.len(),
                before.wf(),
                before.remaining == pile,
                before.cards == self.cards.deep_view(),
                self.cards@ == originals,
                self.discarded@ == before.discarded,
                self.remaining@ == pile.take(pile.len() - done),
                out@.len() == had.len() + done,
                out@.take(had.len() as int) == had,
                forall|k: int|
                    0 <= k < done ==> pile[pile.len() - 1 - k] < originals.len() && cloned(
                        originals[pile[pile.len() - 1 - k] as int],
                        #[trigger] out@[had.len() + k],
                    ),
            decreases count - done,
        {
            let ghost out_before = out@;
            let top = self.remaining.pop();
            let i = top.unwrap();
            assert(i == pile[pile.len() - 1 - done]);
            assert(before.remaining[pile.len() - 1 - done] < before.cards.len());
            let card = self.cards[i].clone();
            assert(cloned(self.cards@[i as int], card));
            out.push(card);
            done += 1;
            proof {
                assert(self.remaining@ =~= pile.take(pile.len() - done));
                assert(out@.take(had.len() as int) =~= out_before.take(had.len() as int));
                assert forall|k: int| 0 <= k < done - 1 implies (#[trigger] out@[had.len() + k])
                    == out_before[had.len() + k] by {}
            }
        }
        proof {
            before.lemma_wf_shorter(pile.len() - count);
            let ids = pile.skip(pile.len() - count).reverse();
            let fresh = out@.skip(had.len() as int);
            assert forall|k: int| 0 <= k < ids.len() implies (#[trigger] ids[k]) < originals.len()
                && cloned(originals[ids[k] as int], fresh[k]) by {
                assert(ids[k] == pile[pile.len() - 1 - k]);
                assert(fresh[k] == out@[had.len() + k]);
            }
        }
        Ghost(pile.skip(pile.len() - count).reverse())
    }

    /// Draws `n_cards` cards, one at a time from the end of the draw pile.
    /// When the draw pile runs dry on the way, the discard pile is shuffled
    /// and becomes the new draw pile.
    ///
    /// The draw is refused, and nothing changes, exactly when the two piles
    /// together hold fewer than `n_cards` cards.
    pub fn draw(&mut self, n_cards: usize) -> (res: Result<Vec<Card>, DeckError>)
        requires
            old(self)@.wf(),
        ensures
            final(self)@.wf(),
            res is Ok <==> n_cards <= old(self)@.available(),
            res matches Err(e) ==> e == DeckError::SupplyExhausted && final(self)@ == old(self)@,
            final(self).originals() == old(self).originals(),
            res matches Ok(out) ==> {
                &&& out@.len() == n_cards
                &&& final(self)@.cards == old(self)@.cards
                &&& final(self)@.available() + n_cards == old(self)@.available()
                &&& exists|ids: Seq<usize>|
                    (#[trigger] old(self)@.drew_ids(final(self)@, ids)) && clones_of(
                        old(self).originals(),
                        ids,
                        out@,
                    )
                &&& clones_keep_view::<Card>() ==> old(self)@.drew(final(self)@, out.deep_view())
            },
    {
        let ghost before = self@;
        let ghost originals = self.cards@;
        let in_pile = self.remaining.len();
        if n_cards > in_pile && n_cards - in_pile > self.discarded.len() {
            return Err(DeckError::SupplyExhausted);
        }
        let mut out: Vec<Card> = Vec::new();
        let ghost ids: Seq<usize>;
        if n_cards <= in_pile {
            let popped = self.pop_cards(n_cards, &mut out);
            proof {
                ids = popped@;
                assert(out@.skip(0) =~= out@);
                assert(before.drew_ids(self@, ids));
            }
        } else {
            let first = self.pop_cards(in_pile, &mut out);
            let ghost mid = out@;
            assert(self.remaining@.len() == 0);
            reshuffle(&mut self.remaining, &mut self.discarded);
            let ghost pile = self.remaining@;
            proof {
                assert(before.discarded.no_duplicates()) by {
                    let both = before.remaining + before.discarded;
                    assert forall|a: int, b: int|
                        0 <= a < before.discarded.len() && 0 <= b < before.discarded.len() && a
                            != b implies before.discarded[a] != before.discarded[b] by {
                        assert(both[before.remaining.len() + a] == before.discarded[a]);
                        assert(both[before.remaining.len() + b] == before.discarded[b]);
                    }
                }
                lemma_rearranged(pile, before.discarded, before.cards.len());
                assert(self@.remaining + self@.discarded =~= pile);
            }
            let rest = self.pop_cards(n_cards - in_pile, &mut out);
            proof {
                ids = first@ + rest@;
                let cut = pile.len() - (n_cards - in_pile);
                assert(first@ =~= before.remaining.reverse()) by {
                    assert(before.remaining.skip(0) =~= before.remaining);
                }
                assert(ids.take(in_pile as int) =~= first@);
                assert(ids.skip(in_pile as int) =~= rest@);
                assert(rest@.reverse() =~= pile.skip(cut));
                assert(self@.remaining + ids.skip(in_pile as int).reverse() =~= pile);
                assert(before.drew_ids(self@, ids));
                assert(mid.skip(0) =~= mid);
                assert forall|k: int| 0 <= k < ids.len() implies (#[trigger] ids[k])
                    < originals.len() && cloned(originals[ids[k] as int], out@[k]) by {
                    if k < in_pile {
                        assert(ids[k] == first@[k]);
                        assert(out@[k] == out@.take(in_pile as int)[k]);
                        assert(out@[k] == mid[k]);
                    } else {
                        assert(ids[k] == rest@[k - in_pile]);
                        assert(out@[k] == out@.skip(in_pile as int)[k - in_pile]);
                    }
                }
            }
        }
        proof {
            assert(clones_of(originals, ids, out@));
            if clones_keep_view::<Card>() {
                assert forall|k: int| 0 <= k < ids.len() implies out.deep_view()[k]
                    == before.picked(ids)[k] by {
                    assert(ids[k] < originals.len());
                    assert(cloned(originals[ids[k] as int], out@[k]));
                }
                assert(out.deep_view() =~= before.picked(ids));
            }
        }
        Ok(out)
    }

    /// Draws one card: `draw(1)`, unwrapped.
    pub fn draw_once(&mut self) -> (res: Result<Card, DeckError>)
        requires
            old(self)@.wf(),
        ensures
            final(self)@.wf(),
            res is Ok <==> 1 <= old(self)@.available(),
            res matches Err(e) ==> e == DeckError::SupplyExhausted && final(self)@ == old(self)@,
            final(self).originals() == old(self).originals(),
            res matches Ok(card) ==> {
                &&& final(self)@.cards == old(self)@.cards
                &&& final(self)@.available() + 1 == old(self)@.available()
                &&& exists|ids: Seq<usize>|
                    (#[trigger] old(self)@.drew_ids(final(self)@, ids)) && clones_of(
                        old(self).originals(),
                        ids,
                        seq![card],
                    )
                &&& clones_keep_view::<Card>() ==> old(self)@.drew(
                    final(self)@,
                    seq![card.deep_view()],
                )
            },
    {
        match self.draw(1) {
            Ok(mut out) => {
                let ghost drawn = out.deep_view();
                let ghost raw = out@;
                let card = out.pop().unwrap();
                assert(drawn =~= seq![card.deep_view()]);
                assert(raw =~= seq![card]);
                Ok(card)
            },
            Err(e) => Err(e),
        }
    }

    /// The first position whose card equals `card`, if there is one.
    fn locate(&self, card: &Card) -> (found: Option<usize>)
        ensures
            compares_by_view::<Card>() ==> match found {
                Some(i) => self@.is_first_match(card.deep_view(), i as int),
                None => !self@.knows(card.deep_view()),
            },
            found matches Some(i) ==> i < self@.cards.len(),
    {
        let mut i: usize = 0;
        while i < self.cards.len()
            invariant
                i <= self.cards.len(),
                compares_by_view::<Card>() ==> forall|j: int|
                    0 <= j < i ==> (#[trigger] self.cards@[j]).deep_view() != card.deep_view(),
            decreases self.cards.len() - i,
        {
            if self.cards[i] == *card {
                proof {
                    if compares_by_view::<Card>() {
                        assert(self.cards@[i as int].eq_spec(card));
                        assert forall|j: int| 0 <= j < i implies #[trigger] self@.cards[j]
                            != card.deep_view() by {
                            assert(self.cards@[j].deep_view() != card.deep_view());
                        }
                    }
                }
                return Some(i);
            }
            proof {
                if compares_by_view::<Card>() {
                    assert(!self.cards@[i as int].eq_spec(card));
                }
            }
            i += 1;
        }
        None
    }

    /// Finds the positions that a discard of `cards` would put on the
    /// discard pile, or the error with which it would be refused.
    fn check_discard(&self, cards: &[Card]) -> (res: Result<Vec<usize>, DeckError>)
        requires
            self@.wf(),
        ensures
            res matches Ok(ids) ==> ids@.len() == cards@.len() && (DeckView {
                cards: self@.cards,
                remaining: self@.remaining,
                discarded: self@.discarded + ids@,
            }).wf(),
            compares_by_view::<Card>() ==> match self@.discard_all(cards.deep_view()) {
                Ok(deck) => res matches Ok(ids) && deck == (DeckView {
                    cards: self@.cards,
                    remaining: self@.remaining,
                    discarded: self@.discarded + ids@,
                }),
                Err(e) => res == Err::<Vec<usize>, DeckError>(e),
            },
    {
        let ghost before = self@;
        let ghost list = cards.deep_view();
        let mut ids: Vec<usize> = Vec::new();
        let mut k: usize = 0;
        proof {
            assert(before.discarded + ids@ =~= before.discarded);
        }
        while k < cards.len()
            invariant
                k <= cards.len(),
                ids@.len() == k,
                list == cards.deep_view(),
                list.len() == cards@.len(),
                before == self@,
                before.wf(),
                (DeckView {
                    cards: before.cards,
                    remaining: before.remaining,
                    discarded: before.discarded + ids@,
                }).wf(),
                compares_by_view::<Card>() ==> before.discard_all(list.take(k as int)) == Ok::<
                    DeckView<Card::V>,
                    DeckError,
                >(
                    DeckView {
                        cards: before.cards,
                        remaining: before.remaining,
                        discarded: before.discarded + ids@,
                    },
                ),
            decreases cards.len() - k,
        {
            let ghost now = DeckView {
                cards: before.cards,
                remaining: before.remaining,
                discarded: before.discarded + ids@,
            };
            proof {
                assert(list.take(k + 1).drop_last() =~= list.take(k as int));
                assert(list.take(k + 1).last() == cards@[k as int].deep_view());
            }
            let refused: Option<DeckError> = match self.locate(&cards[k]) {
                None => Some(DeckError::UnknownCard),
                Some(i) => {
                    proof {
                        if compares_by_view::<Card>() {
                            now.lemma_first_match(list[k as int], i as int);
                        }
                    }
                    if holds(&self.remaining, i) {
                        Some(DeckError::NotCheckedOut)
                    } else if holds(&self.discarded, i) || holds(&ids, i) {
                        proof {
                            if before.discarded.contains(i) {
                                let w = choose|w: int|
                                    0 <= w < before.discarded.len() && before.discarded[w] == i;
                                assert(now.discarded[w] == i);
                            } else {
                                let w = choose|w: int| 0 <= w < ids@.len() && ids@[w] == i;
                                assert(now.discarded[before.discarded.len() + w] == i);
                            }
                        }
                        Some(DeckError::DoubleDiscard)
                    } else {
                        proof {
                            assert(!now.discarded.contains(i)) by {
                                if now.discarded.contains(i) {
                                    let w = choose|w: int|
                                        0 <= w < now.discarded.len() && now.discarded[w] == i;
                                    if w < before.discarded.len() {
                                        assert(before.discarded[w] == i);
                                    } else {
                                        assert(ids@[w - before.discarded.len()] == i);
                                    }
                                }
                            }
                            now.lemma_wf_discarded(i);
                            assert(before.discarded + ids@.push(i) =~= now.discarded.push(i));
                        }
                        ids.push(i);
                        None
                    }
                },
            };
            match refused {
                Some(e) => {
                    proof {
                        if compares_by_view::<Card>() {
                            assert(before.discard_all(list.take(k + 1)) == Err::<
                                DeckView<Card::V>,
                                DeckError,
                            >(e));
                            before.lemma_refusal_stays(list, k + 1, e);
                        }
                    }
                    return Err(e);
                },
                None => {},
            }
            k += 1;
        }
        proof {
            assert(list.take(k as int) =~= list);
        }
        Ok(ids)
    }

    /// Says whether a discard of `cards` would be accepted, and with which
    /// error it would be refused if not. The supply stays as it is.
    pub fn can_discard(&self, cards: &[Card]) -> (res: Result<(), DeckError>)
        requires
            self@.wf(),
        ensures
            compares_by_view::<Card>() ==> match self@.discard_all(cards.deep_view()) {
                Ok(deck) => res is Ok,
                Err(e) => res == Err::<(), DeckError>(e),
            },
    {
        match self.check_discard(cards) {
            Ok(_) => Ok(()),
            Err(e) => Err(e),
        }
    }

    /// Returns checked-out cards to the discard pile, in the given order.
    ///
    /// Each card is found by equality among all cards of the supply; the
    /// first position that holds an equal card counts. The call is refused,
    /// and nothing changes, when a card is unknown to the supply
    /// (`UnknownCard`), still lies in the draw pile (`NotCheckedOut`) or
    /// already lies in the discard pile (`DoubleDiscard`).
    pub fn discard(&mut self, cards: &[Card]) -> (res: Result<(), DeckError>)
        requires
            old(self)@.wf(),
        ensures
            final(self)@.wf(),
            final(self)@.cards == old(self)@.cards,
            final(self).originals() == old(self).originals(),
            final(self)@.remaining == old(self)@.remaining,
            res is Err ==> final(self)@ == old(self)@,
            res is Ok ==> final(self)@.available() == old(self)@.available() + cards@.len(),
            compares_by_view::<Card>() ==> match old(self)@.discard_all(cards.deep_view()) {
                Ok(deck) => res is Ok && final(self)@ == deck,
                Err(e) => res == Err::<(), DeckError>(e),
            },
    {
        match self.check_discard(cards) {
            Ok(mut ids) => {
                let ghost back = ids@;
                self.discarded.append(&mut ids);
                proof {
                    assert(self.discarded@ =~= old(self)@.discarded + back);
                }
                Ok(())
            },
            Err(e) => Err(e),
        }
    }

    /// Puts every card of the supply on the discard pile and empties the
    /// draw pile, whoever held the cards before.
    pub fn reset(&mut self)
        requires
            old(self)@.wf(),
        ensures
            final(self)@.wf(),
            final(self)@ == old(self)@.reset(),
            final(self).originals() == old(self).originals(),
    {
        self.remaining.clear();
        self.discarded.clear();
        let mut i: usize = 0;
        while i < self.cards.len()
            invariant
                i <= self.cards.len(),
                self.cards@ == old(self).cards@,
                self.remaining@.len() == 0,
                self.discarded@ == Seq::new(i as nat, |j: int| j as usize),
            decreases self.cards.len() - i,
        {
            self.discarded.push(i);
            i += 1;
            proof {
                assert(self.discarded@ =~= Seq::new(i as nat, |j: int| j as usize));
            }
        }
        proof {
            assert(self@.remaining =~= Seq::<usize>::empty());
            assert(self@.remaining + self@.discarded =~= self@.discarded);
        }
    }

    /// The number of cards that a draw can still hand out.
    pub fn available(&self) -> (count: usize)
        requires
            self@.wf(),
        ensures
            count == self@.available(),
    {
        let known = self.cards.len();
        proof {
            self@.lemma_available_bounded();
            assert(self@.available() <= known);
        }
        self.remaining.len() + self.discarded.len()
    }

    /// Every card ever added, in the order of addition.
    pub fn cards(&self) -> (all: &Vec<Card>)
        ensures
            all@ == self.originals(),
            all.deep_view() == self@.cards,
    {
        &self.cards
    }
}

} // verus!
