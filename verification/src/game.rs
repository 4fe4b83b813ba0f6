use vstd::prelude::*;

use core::cmp::Ordering;

use crate::card::Card;
use crate::deck::Deck;
use crate::hand::{all_wf, best_hand, best_key, Hand};
use crate::order::{lex_lt, lemma_lex_irreflexive, lemma_lex_total, lemma_lex_transitive};
use crate::EvalError;

verus! {

/// A player: a display name and two hole cards dealt from the deck.
pub struct Player {
    name: String,
    hole_cards: [Card; 2],
}

impl Player {
    pub closed spec fn spec_name(self) -> Seq<char> {
        self.name@
    }

    pub closed spec fn spec_hole(self) -> Seq<Card> {
        self.hole_cards@
    }

    pub open spec fn wf(self) -> bool {
        all_wf(self.spec_hole())
    }

    /// The candidate set the player evaluates: the two hole cards followed by
    /// the community cards.
    pub open spec fn candidate_cards(self, community: Seq<Card>) -> Seq<Card> {
        self.spec_hole() + community
    }

    /// Deals the player two hole cards; fails, leaving the deck unchanged,
    /// when fewer than two cards are left.
    pub fn new(name: String, deck: &mut Deck) -> (r: Option<Player>)
        requires
            old(deck).wf(),
        ensures
            r is Some <==> old(deck).spec_cards().len() >= 2,
            final (deck).wf(),
            r is None ==> final (deck).spec_cards() == old(deck).spec_cards(),
            r matches Some(p) ==> {
                &&& p.wf()
                &&& p.spec_name() == name@
                &&& p.spec_hole() == old(deck).spec_cards().subrange(
                    old(deck).spec_cards().len() - 2,
                    old(deck).spec_cards().len() as int,
                )
                &&& final (deck).spec_cards() == old(deck).spec_cards().take(
                    old(deck).spec_cards().len() - 2,
                )
            },
    {
        let dealt = match deck.deal(2) {
            Some(dealt) => dealt,
            None => {
                return None;
            },
        };
        let hole_cards: [Card; 2] = [dealt[0], dealt[1]];
        proof {
            assert(hole_cards@ =~= dealt@);
        }
        Some(Player { name, hole_cards })
    }

    /// The player's name.
    pub fn name(&self) -> (n: &String)
        ensures
            n@ == self.spec_name(),
    {
        &self.name
    }

    /// The two hole cards.
    pub fn hole(&self) -> (v: Vec<Card>)
        ensures
            v@ == self.spec_hole(),
    {
        let mut v: Vec<Card> = Vec::new();
        v.push(self.hole_cards[0]);
        v.push(self.hole_cards[1]);
        proof {
            assert(v@ =~= self.spec_hole());
        }
        v
    }

    /// An equal copy of the player.
    fn duplicate(&self) -> (p: Player)
        ensures
            p.spec_name() == self.spec_name(),
            p.spec_hole() == self.spec_hole(),
            p.wf() == self.wf(),
    {
        Player { name: self.name.clone(), hole_cards: self.hole_cards }
    }

    /// The strongest five-card hand from the player's hole cards plus the
    /// community cards: its five cards are drawn from that candidate set and
    /// its key is the best key the set offers. Fails with
    /// `InsufficientCandidates` when fewer than three community cards have
    /// been revealed.
    pub fn hand(&self, community_cards: &Vec<Card>) -> (r: Result<Hand, EvalError>)
        requires
            self.wf(),
            all_wf(community_cards@),
        ensures
            r is Ok <==> community_cards@.len() >= 3,
            r matches Err(e) ==> e == EvalError::InsufficientCandidates,
            r matches Ok(h) ==> {
                &&& h.wf()
                &&& h.spec_cards().to_multiset().subset_of(
                    self.candidate_cards(community_cards@).to_multiset(),
                )
                &&& (exists|i: int|
                    0 <= i < crate::utils::spec_combos(
                        self.candidate_cards(community_cards@),
                        5,
                    ).len() && h.spec_cards().to_multiset() == (#[trigger] crate::utils::spec_combos(
                        self.candidate_cards(community_cards@),
                        5,
                    )[i]).to_multiset())
                &&& (forall|i: int|
                    0 <= i < crate::utils::spec_combos(
                        self.candidate_cards(community_cards@),
                        5,
                    ).len() ==> !crate::order::lex_lt(
                        h.key(),
                        crate::hand::selection_key(#[trigger] crate::utils::spec_combos(
                            self.candidate_cards(community_cards@),
                            5,
                        )[i]),
                    ))
                &&& h.key() == best_key(self.candidate_cards(community_cards@))
            },
    {
        if community_cards.len() < 3 {
            return Err(EvalError::InsufficientCandidates);
        }
        let mut cards: Vec<Card> = Vec::new();
        cards.push(self.hole_cards[0]);
        cards.push(self.hole_cards[1]);
        let mut i: usize = 0;
        while i < community_cards.len()
            invariant
                0 <= i <= community_cards@.len(),
                self.wf(),
                all_wf(community_cards@),
                cards@ == self.spec_hole() + community_cards@.take(i as int),
            decreases community_cards@.len() - i,
        {
            cards.push(community_cards[i]);
            proof {
                assert(cards@ =~= self.spec_hole() + community_cards@.take(i as int + 1));
            }
            i = i + 1;
        }
        proof {
            assert(community_cards@.take(community_cards@.len() as int) =~= community_cards@);
            assert(cards@ == self.candidate_cards(community_cards@));
            assert(all_wf(cards@));
        }
        match best_hand(&cards) {
            Ok(h) => Ok(h),
            Err(_) => {
                proof {
                    assert(false);
                }
                Err(EvalError::InsufficientCandidates)
            },
        }
    }

    /// Orders two players by their best hands over the same community cards.
    pub fn compare(a: &Player, b: &Player, community_cards: &Vec<Card>) -> (r: Result<
        Ordering,
        EvalError,
    >)
        requires
            a.wf(),
            b.wf(),
            all_wf(community_cards@),
        ensures
            r is Ok <==> community_cards@.len() >= 3,
            r matches Err(e) ==> e == EvalError::InsufficientCandidates,
            r matches Ok(o) ==> {
                &&& (o == Ordering::Less <==> lex_lt(
                    best_key(a.candidate_cards(community_cards@)),
                    best_key(b.candidate_cards(community_cards@)),
                ))
                &&& (o == Ordering::Equal <==> best_key(a.candidate_cards(community_cards@))
                    == best_key(b.candidate_cards(community_cards@)))
                &&& (o == Ordering::Greater <==> lex_lt(
                    best_key(b.candidate_cards(community_cards@)),
                    best_key(a.candidate_cards(community_cards@)),
                ))
            },
    {
        let ha = match a.hand(community_cards) {
            Ok(h) => h,
            Err(e) => {
                return Err(e);
            },
        };
        let hb = match b.hand(community_cards) {
            Ok(h) => h,
            Err(e) => {
                proof {
                    assert(false);
                }
                return Err(e);
            },
        };
        Ok(Hand::compare(&ha, &hb))
    }
}

/// Cards appended onto a well-formed pile from a well-formed deck stay
/// well-formed.
proof fn lemma_concat_wf(before: Seq<Card>, after: Seq<Card>, source: Seq<Card>, lo: int, hi: int)
    requires
        all_wf(before),
        all_wf(source),
        0 <= lo <= hi <= source.len(),
        after == before + source.subrange(lo, hi),
    ensures
        all_wf(after),
{
    assert forall|i: int| 0 <= i < after.len() implies (#[trigger] after[i]).wf() by {
        if i < before.len() {
            assert(after[i] == before[i]);
        } else {
            assert(after[i] == source.subrange(lo, hi)[i - before.len()]);
            assert(source.subrange(lo, hi)[i - before.len()] == source[lo + i - before.len()]);
        }
    }
}

/// A table: a deck, the seated players, and the community cards revealed so
/// far.
pub struct Game {
    deck: Deck,
    players: Vec<Player>,
    community_cards: Vec<Card>,
}

impl Game {
    pub closed spec fn spec_deck(self) -> Deck {
        self.deck
    }

    pub closed spec fn spec_players(self) -> Seq<Player> {
        self.players@
    }

    pub closed spec fn spec_community(self) -> Seq<Card> {
        self.community_cards@
    }

    pub open spec fn wf(self) -> bool {
        &&& self.spec_deck().wf()
        &&& all_wf(self.spec_community())
        &&& forall|i: int|
            0 <= i < self.spec_players().len() ==> (#[trigger] self.spec_players()[i]).wf()
    }

    /// Seats one player per name at a freshly shuffled standard deck, dealing
    /// each two hole cards; fails when the deck cannot cover every player.
    pub fn new(names: &Vec<&str>) -> (r: Option<Game>)
        ensures
            r is Some <==> 2 * names@.len() <= 52,
            r matches Some(g) ==> {
                &&& g.wf()
                &&& g.spec_players().len() == names@.len()
                &&& forall|i: int|
                    0 <= i < names@.len() ==> (#[trigger] g.spec_players()[i]).spec_name()
                        == names@[i]@
                &&& g.spec_community().len() == 0
                &&& g.spec_deck().spec_cards().len() == 52 - 2 * names@.len()
            },
    {
        if names.len() > 26 {
            return None;
        }
        let mut deck = Deck::new().shuffled();
        let mut players: Vec<Player> = Vec::new();
        let mut i: usize = 0;
        while i < names.len()
            invariant
                0 <= i <= names@.len(),
                2 * names@.len() <= 52,
                deck.wf(),
                deck.spec_cards().len() == 52 - 2 * i,
                players@.len() == i,
                forall|t: int|
                    0 <= t < i ==> (#[trigger] players@[t]).wf() && players@[t].spec_name()
                        == names@[t]@,
            decreases names@.len() - i,
        {
            let name: String = names[i].to_owned();
            let p = match Player::new(name, &mut deck) {
                Some(p) => p,
                None => {
                    proof {
                        assert(false);
                    }
                    return None;
                },
            };
            players.push(p);
            i = i + 1;
        }
        Some(Game { deck, players, community_cards: Vec::new() })
    }

    /// Reveals the flop: three community cards off the deck.
    pub fn flop(&mut self) -> (ok: bool)
        requires
            old(self).wf(),
        ensures
            final (self).wf(),
            ok <==> old(self).spec_deck().spec_cards().len() >= 3,
            final (self).spec_players() == old(self).spec_players(),
            ok ==> final (self).spec_community() == old(self).spec_community() + old(self).spec_deck().spec_cards().subrange(
                old(self).spec_deck().spec_cards().len() - 3,
                old(self).spec_deck().spec_cards().len() as int,
            ) && final (self).spec_deck().spec_cards() == old(self).spec_deck().spec_cards().take(
                old(self).spec_deck().spec_cards().len() - 3,
            ),
            !ok ==> final (self).spec_community() == old(self).spec_community() && final (self).spec_deck().spec_cards() == old(self).spec_deck().spec_cards(),
    {
        let ok = self.deck.deal_to(&mut self.community_cards, 3);
        proof {
            assert forall|i: int|
                0 <= i < self.spec_players().len() implies (#[trigger] self.spec_players()[i]).wf() by {
                assert(self.spec_players()[i] == old(self).spec_players()[i]);
                assert(old(self).spec_players()[i].wf());
            }
            if ok {
                let d = old(self).spec_deck().spec_cards();
                lemma_concat_wf(
                    old(self).spec_community(),
                    self.spec_community(),
                    d,
                    d.len() - 3,
                    d.len() as int,
                );
            }
        }
        ok
    }

    /// Reveals the turn: one more community card.
    pub fn turn(&mut self) -> (ok: bool)
        requires
            old(self).wf(),
        ensures
            final (self).wf(),
            ok <==> old(self).spec_deck().spec_cards().len() >= 1,
            final (self).spec_players() == old(self).spec_players(),
            ok ==> final (self).spec_community() == old(self).spec_community() + old(self).spec_deck().spec_cards().subrange(
                old(self).spec_deck().spec_cards().len() - 1,
                old(self).spec_deck().spec_cards().len() as int,
            ) && final (self).spec_deck().spec_cards() == old(self).spec_deck().spec_cards().take(
                old(self).spec_deck().spec_cards().len() - 1,
            ),
            !ok ==> final (self).spec_community() == old(self).spec_community() && final (self).spec_deck().spec_cards() == old(self).spec_deck().spec_cards(),
    {
        let ok = self.deck.deal_to(&mut self.community_cards, 1);
        proof {
            assert forall|i: int|
                0 <= i < self.spec_players().len() implies (#[trigger] self.spec_players()[i]).wf() by {
                assert(self.spec_players()[i] == old(self).spec_players()[i]);
                assert(old(self).spec_players()[i].wf());
            }
            if ok {
                let d = old(self).spec_deck().spec_cards();
                lemma_concat_wf(
                    old(self).spec_community(),
                    self.spec_community(),
                    d,
                    d.len() - 1,
                    d.len() as int,
                );
            }
        }
        ok
    }

    /// Reveals the river: the last community card.
    pub fn river(&mut self) -> (ok: bool)
        requires
            old(self).wf(),
        ensures
            final (self).wf(),
            ok <==> old(self).spec_deck().spec_cards().len() >= 1,
            final (self).spec_players() == old(self).spec_players(),
            ok ==> final (self).spec_community() == old(self).spec_community() + old(self).spec_deck().spec_cards().subrange(
                old(self).spec_deck().spec_cards().len() - 1,
                old(self).spec_deck().spec_cards().len() as int,
            ) && final (self).spec_deck().spec_cards() == old(self).spec_deck().spec_cards().take(
                old(self).spec_deck().spec_cards().len() - 1,
            ),
            !ok ==> final (self).spec_community() == old(self).spec_community() && final (self).spec_deck().spec_cards() == old(self).spec_deck().spec_cards(),
    {
        let ok = self.deck.deal_to(&mut self.community_cards, 1);
        proof {
            assert forall|i: int|
                0 <= i < self.spec_players().len() implies (#[trigger] self.spec_players()[i]).wf() by {
                assert(self.spec_players()[i] == old(self).spec_players()[i]);
                assert(old(self).spec_players()[i].wf());
            }
            if ok {
                let d = old(self).spec_deck().spec_cards();
                lemma_concat_wf(
                    old(self).spec_community(),
                    self.spec_community(),
                    d,
                    d.len() - 1,
                    d.len() as int,
                );
            }
        }
        ok
    }

    /// The community cards revealed so far.
    pub fn community(&self) -> (v: &Vec<Card>)
        ensures
            v@ == self.spec_community(),
    {
        &self.community_cards
    }

    /// The seated players.
    pub fn players(&self) -> (v: &Vec<Player>)
        ensures
            v@ == self.spec_players(),
    {
        &self.players
    }

    /// The player whose best five-card hand ranks highest; among tied players
    /// any one of them may be returned. Fails when nobody is seated or fewer
    /// than three community cards are revealed.
    pub fn winner(&self) -> (r: Option<Player>)
        requires
            self.wf(),
        ensures
            r is Some <==> self.spec_players().len() > 0 && self.spec_community().len() >= 3,
            r matches Some(p) ==> exists|i: int|
                {
                    &&& 0 <= i < self.spec_players().len()
                    &&& p.spec_name() == (#[trigger] self.spec_players()[i]).spec_name()
                    &&& p.spec_hole() == self.spec_players()[i].spec_hole()
                    &&& forall|j: int|
                        0 <= j < self.spec_players().len() ==> !lex_lt(
                            best_key(
                                self.spec_players()[i].candidate_cards(self.spec_community()),
                            ),
                            best_key(
                                (#[trigger] self.spec_players()[j]).candidate_cards(
                                    self.spec_community(),
                                ),
                            ),
                        )
                },
    {
        if self.players.len() == 0 || self.community_cards.len() < 3 {
            return None;
        }
        let ghost ps = self.spec_players();
        let ghost community = self.spec_community();
        let mut best = match self.players[0].hand(&self.community_cards) {
            Ok(h) => h,
            Err(_) => {
                proof {
                    assert(false);
                }
                return None;
            },
        };
        let mut best_i: usize = 0;
        proof {
            lemma_lex_irreflexive(best.key());
        }
        let mut j: usize = 1;
        while j < self.players.len()
            invariant
                1 <= j <= ps.len(),
                self.wf(),
                ps == self.spec_players(),
                community == self.spec_community(),
                community.len() >= 3,
                0 <= best_i < j,
                best.wf(),
                best.key() == best_key(ps[best_i as int].candidate_cards(community)),
                forall|t: int|
                    0 <= t < j ==> !lex_lt(
                        best.key(),
                        best_key((#[trigger] ps[t]).candidate_cards(community)),
                    ),
            decreases ps.len() - j,
        {
            let cand = match self.players[j].hand(&self.community_cards) {
                Ok(h) => h,
                Err(_) => {
                    proof {
                        assert(false);
                    }
                    return None;
                },
            };
            match Hand::compare(&cand, &best) {
                Ordering::Greater => {
                    proof {
                        assert forall|t: int|
                            0 <= t < j + 1 implies !lex_lt(
                            cand.key(),
                            best_key((#[trigger] ps[t]).candidate_cards(community)),
                        ) by {
                            if t < j {
                                if lex_lt(
                                    cand.key(),
                                    best_key(ps[t].candidate_cards(community)),
                                ) {
                                    lemma_lex_transitive(
                                        best.key(),
                                        cand.key(),
                                        best_key(ps[t].candidate_cards(community)),
                                    );
                                }
                            } else {
                                lemma_lex_irreflexive(cand.key());
                            }
                        }
                    }
                    best = cand;
                    best_i = j;
                },
                _ => {
                    proof {
                        lemma_lex_total(cand.key(), best.key());
                        assert(!lex_lt(best.key(), cand.key()));
                    }
                },
            }
            j = j + 1;
        }
        Some(self.players[best_i].duplicate())
    }
}

} // verus!
