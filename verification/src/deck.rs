use vstd::prelude::*;

use crate::card::{Card, Rank, Suit};
use crate::hand::{all_wf, lemma_all_wf_multiset};
use crate::utils::{shuffle, shuffle_mut};

verus! {

/// The suit of each thirteen-card block of a fresh deck: spades, hearts,
/// clubs, then diamonds.
pub open spec fn suit_of_index(i: int) -> Suit {
    if i == 0 {
        Suit::S
    } else if i == 1 {
        Suit::H
    } else if i == 2 {
        Suit::C
    } else {
        Suit::D
    }
}

/// The card sequence with `s` removed from it, wherever it occurs.
pub open spec fn seq_without(s: Seq<Card>, c: Card) -> Seq<Card>
    decreases s.len(),
{
    if s.len() == 0 {
        Seq::empty()
    } else {
        seq_without(s.drop_last(), c) + (if s.last() == c {
            Seq::<Card>::empty()
        } else {
            seq![s.last()]
        })
    }
}

/// An ordered pile of validated cards; dealing takes from the end.
pub struct Deck {
    cards: Vec<Card>,
}

impl Deck {
    pub closed spec fn spec_cards(self) -> Seq<Card> {
        self.cards@
    }

    pub open spec fn wf(self) -> bool {
        all_wf(self.spec_cards())
    }

    /// The standard 52 cards: ranks ascending within each suit, suits in the
    /// order spades, hearts, clubs, diamonds.
    pub fn new() -> (d: Deck)
        ensures
            d.wf(),
            d.spec_cards().len() == 52,
            forall|i: int|
                0 <= i < 52 ==> (#[trigger] d.spec_cards()[i]).spec_value() == 2 + (i % 13)
                    && d.spec_cards()[i].spec_suit() == suit_of_index(i / 13),
    {
        let mut cards: Vec<Card> = Vec::new();
        let mut i: usize = 0;
        while i < 52
            invariant
                0 <= i <= 52,
                cards@.len() == i,
                forall|t: int|
                    0 <= t < i ==> (#[trigger] cards@[t]).spec_value() == 2 + (t % 13)
                        && cards@[t].spec_suit() == suit_of_index(t / 13) && cards@[t].wf(),
            decreases 52 - i,
        {
            let v: u8 = (i % 13) as u8 + 2;
            let si = i / 13;
            let suit: Suit = if si == 0 {
                Suit::S
            } else if si == 1 {
                Suit::H
            } else if si == 2 {
                Suit::C
            } else {
                Suit::D
            };
            let rank = match Rank::new(v) {
                Some(rank) => rank,
                None => {
                    proof {
                        assert(false);
                    }
                    return Deck { cards: Vec::new() };
                },
            };
            cards.push(Card::new(rank, suit));
            i = i + 1;
        }
        Deck { cards }
    }

    /// Wraps an already validated pile of cards as a deck.
    pub fn from(cards: Vec<Card>) -> (d: Deck)
        requires
            all_wf(cards@),
        ensures
            d.wf(),
            d.spec_cards() == cards@,
    {
        Deck { cards }
    }

    /// How many cards are left.
    pub fn len(&self) -> (n: usize)
        ensures
            n == self.spec_cards().len(),
    {
        self.cards.len()
    }

    /// The cards, in order, as a fresh vector.
    pub fn cards(&self) -> (v: Vec<Card>)
        ensures
            v@ == self.spec_cards(),
    {
        let mut v: Vec<Card> = Vec::new();
        let mut i: usize = 0;
        while i < self.cards.len()
            invariant
                0 <= i <= self.spec_cards().len(),
                v@ == self.spec_cards().take(i as int),
            decreases self.spec_cards().len() - i,
        {
            v.push(self.cards[i]);
            proof {
                assert(v@ =~= self.spec_cards().take(i as int + 1));
            }
            i = i + 1;
        }
        proof {
            assert(self.spec_cards().take(self.spec_cards().len() as int) =~= self.spec_cards());
        }
        v
    }

    /// Randomly reorders the deck in place; the cards themselves are kept.
    pub fn shuffle(&mut self)
        requires
            old(self).wf(),
        ensures
            final (self).wf(),
            final (self).spec_cards().len() == old(self).spec_cards().len(),
            final (self).spec_cards().to_multiset() == old(self).spec_cards().to_multiset(),
    {
        shuffle_mut(&mut self.cards);
        proof {
            lemma_all_wf_multiset(old(self).spec_cards(), self.spec_cards());
        }
    }

    /// A randomly reordered copy; this deck is untouched.
    pub fn shuffled(&self) -> (d: Deck)
        requires
            self.wf(),
        ensures
            d.wf(),
            d.spec_cards().len() == self.spec_cards().len(),
            d.spec_cards().to_multiset() == self.spec_cards().to_multiset(),
    {
        let copy = shuffle(&self.cards);
        proof {
            lemma_all_wf_multiset(self.spec_cards(), copy@);
        }
        Deck::from(copy)
    }

    /// Puts a card on the dealing end.
    pub fn add(&mut self, card: Card)
        requires
            old(self).wf(),
            card.wf(),
        ensures
            final (self).wf(),
            final (self).spec_cards() == old(self).spec_cards().push(card),
    {
        self.cards.push(card);
    }

    /// Takes every copy of the card out of the deck; the order of the rest
    /// is kept.
    pub fn remove(&mut self, card: Card)
        requires
            old(self).wf(),
        ensures
            final (self).wf(),
            final (self).spec_cards() == seq_without(old(self).spec_cards(), card),
    {
        let ghost s = self.cards@;
        let mut kept: Vec<Card> = Vec::new();
        let mut i: usize = 0;
        while i < self.cards.len()
            invariant
                0 <= i <= s.len(),
                self.cards@ == s,
                all_wf(s),
                all_wf(kept@),
                kept@ == seq_without(s.take(i as int), card),
            decreases s.len() - i,
        {
            let ghost pre = kept@;
            let c = self.cards[i];
            if !(c == card) {
                kept.push(c);
            }
            proof {
                let t = s.take(i as int + 1);
                assert(t.drop_last() =~= s.take(i as int));
                assert(t.last() == s[i as int]);
                if c == card {
                    assert(kept@ =~= seq_without(s.take(i as int), card) + Seq::<Card>::empty());
                } else {
                    assert(kept@ =~= seq_without(s.take(i as int), card) + seq![c]);
                }
            }
            i = i + 1;
        }
        proof {
            assert(s.take(s.len() as int) =~= s);
        }
        self.cards = kept;
    }

    /// Deals the last `n` cards, in their deck order; fails, leaving the deck
    /// unchanged, when fewer than `n` cards are left.
    pub fn deal(&mut self, n: usize) -> (r: Option<Vec<Card>>)
        requires
            old(self).wf(),
        ensures
            r is Some <==> n <= old(self).spec_cards().len(),
            final (self).wf(),
            r is None ==> final (self).spec_cards() == old(self).spec_cards(),
            r matches Some(v) ==> {
                &&& v@ == old(self).spec_cards().subrange(
                    old(self).spec_cards().len() - n,
                    old(self).spec_cards().len() as int,
                )
                &&& final (self).spec_cards() == old(self).spec_cards().take(
                    old(self).spec_cards().len() - n,
                )
                &&& v@.len() == n
                &&& all_wf(v@)
            },
    {
        if n > self.cards.len() {
            return None;
        }
        let ghost s = self.cards@;
        let len = self.cards.len();
        let mut out: Vec<Card> = Vec::new();
        let mut i: usize = len - n;
        while i < len
            invariant
                n <= len,
                len == s.len(),
                self.cards@ == s,
                all_wf(s),
                len - n <= i <= len,
                out@ == s.subrange(len - n, i as int),
            decreases len - i,
        {
            out.push(self.cards[i]);
            proof {
                assert(out@ =~= s.subrange(len - n, i as int + 1));
            }
            i = i + 1;
        }
        self.cards.truncate(len - n);
        proof {
            assert(self.cards@ =~= s.take(len - n));
        }
        Some(out)
    }

    /// Deals the last `n` cards onto the end of `out`; fails, changing
    /// nothing, when fewer than `n` cards are left.
    pub fn deal_to(&mut self, out: &mut Vec<Card>, n: usize) -> (ok: bool)
        requires
            old(self).wf(),
        ensures
            ok <==> n <= old(self).spec_cards().len(),
            final (self).wf(),
            !ok ==> final (self).spec_cards() == old(self).spec_cards() && final (out)@ == old(
                out,
            )@,
            ok ==> {
                &&& final (out)@ == old(out)@ + old(self).spec_cards().subrange(
                    old(self).spec_cards().len() - n,
                    old(self).spec_cards().len() as int,
                )
                &&& final (self).spec_cards() == old(self).spec_cards().take(
                    old(self).spec_cards().len() - n,
                )
            },
    {
        match self.deal(n) {
            Some(mut dealt) => {
                out.append(&mut dealt);
                true
            },
            None => false,
        }
    }
}

} // verus!
