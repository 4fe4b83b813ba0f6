use vstd::prelude::*;

use core::cmp::Ordering;

use crate::card::Card;
use crate::utils::lemma_swap_multiset;
use crate::EvalError;
use crate::order::{
    lex_lt, lemma_lex_asymmetric, lemma_lex_first_diff, lemma_lex_irreflexive, lemma_lex_total,
    lemma_lex_transitive,
};

verus! {

broadcast use vstd::array::group_array_axioms;

/// Every card in the sequence has a rank in bounds.
pub open spec fn all_wf(s: Seq<Card>) -> bool {
    forall|i: int| 0 <= i < s.len() ==> (#[trigger] s[i]).wf()
}

/// Cards appear in ascending rank-value order.
pub open spec fn sorted_by_value(s: Seq<Card>) -> bool {
    forall|i: int, j: int| 0 <= i < j < s.len() ==> s[i].spec_value() <= s[j].spec_value()
}

/// The card sequence a `Hand` may hold: exactly five well-formed cards,
/// sorted ascending by rank value.
pub open spec fn hand_cards_wf(s: Seq<Card>) -> bool {
    s.len() == 5 && all_wf(s) && sorted_by_value(s)
}

/// How many cards of rank value `r` the sequence holds.
pub open spec fn count_rank(s: Seq<Card>, r: int) -> nat
    decreases s.len(),
{
    if s.len() == 0 {
        0
    } else {
        count_rank(s.drop_last(), r) + (if s.last().spec_value() == r {
            1nat
        } else {
            0nat
        })
    }
}

/// How many rank values in `2..hi` appear exactly `c` times.
pub open spec fn num_ranks_with(s: Seq<Card>, c: nat, hi: int) -> nat
    decreases hi,
{
    if hi <= 2 {
        0
    } else {
        num_ranks_with(s, c, hi - 1) + (if count_rank(s, hi - 1) == c {
            1nat
        } else {
            0nat
        })
    }
}

/// Some rank appears exactly twice.
pub open spec fn spec_has_pair(s: Seq<Card>) -> bool {
    exists|r: int| 2 <= r <= 14 && count_rank(s, r) == 2
}

/// Some rank appears exactly three times.
pub open spec fn spec_has_three_kind(s: Seq<Card>) -> bool {
    exists|r: int| 2 <= r <= 14 && count_rank(s, r) == 3
}

/// Exactly two rank values appear exactly twice each.
pub open spec fn spec_has_two_pair(s: Seq<Card>) -> bool {
    num_ranks_with(s, 2, 15) == 2
}

/// Some rank appears exactly four times.
pub open spec fn spec_is_four_kind(s: Seq<Card>) -> bool {
    exists|r: int| 2 <= r <= 14 && count_rank(s, r) == 4
}

/// All cards share one suit.
pub open spec fn spec_is_flush(s: Seq<Card>) -> bool {
    forall|i: int| 0 <= i < s.len() ==> (#[trigger] s[i]).spec_suit() == s[0].spec_suit()
}

/// The low-ace straight: sorted values exactly 2, 3, 4, 5, 14, with the ace
/// counting as rank 1.
pub open spec fn spec_is_low_ace(s: Seq<Card>) -> bool {
    &&& s[0].spec_value() == 2
    &&& s[1].spec_value() == 3
    &&& s[2].spec_value() == 4
    &&& s[3].spec_value() == 5
    &&& s[4].spec_value() == 14
}

/// The five sorted values form a run of consecutive integers, or the special
/// low-ace straight.
pub open spec fn spec_is_straight(s: Seq<Card>) -> bool {
    (forall|i: int| 0 <= i < 4 ==> (#[trigger] s[i + 1]).spec_value() == s[i].spec_value() + 1)
        || spec_is_low_ace(s)
}

pub open spec fn spec_is_full_house(s: Seq<Card>) -> bool {
    spec_has_three_kind(s) && spec_has_pair(s)
}

pub open spec fn spec_is_straight_flush(s: Seq<Card>) -> bool {
    spec_is_straight(s) && spec_is_flush(s)
}

/// The ordinal of the hand's category: 9 (straight flush) down to 1 (high
/// card), evaluated in descending strength order.
pub open spec fn spec_category(s: Seq<Card>) -> int {
    if spec_is_straight_flush(s) {
        9
    } else if spec_is_four_kind(s) {
        8
    } else if spec_is_full_house(s) {
        7
    } else if spec_is_flush(s) {
        6
    } else if spec_is_straight(s) {
        5
    } else if spec_has_three_kind(s) {
        4
    } else if spec_has_two_pair(s) {
        3
    } else if spec_has_pair(s) {
        2
    } else {
        1
    }
}

/// A five-card hand: the cards sorted ascending by rank value, plus the
/// rank-count profile computed once at construction.
#[derive(Clone, Copy, Debug)]
pub struct Hand {
    cards: [Card; 5],
    ranks: [u8; 15],
}

impl Hand {
    pub closed spec fn spec_cards(self) -> Seq<Card> {
        self.cards@
    }

    /// The profile maps each rank value to how many of the five cards hold it.
    pub closed spec fn profile_ok(self) -> bool {
        forall|r: int| 0 <= r < 15 ==> self.ranks@[r] as nat == count_rank(self.cards@, r)
    }

    pub open spec fn wf(self) -> bool {
        hand_cards_wf(self.spec_cards()) && self.profile_ok()
    }

    /// Sorts the five cards in place ascending by rank value and derives the
    /// rank-count profile. The sorted cards are a rearrangement of the input.
    pub fn new(cards: &mut [Card; 5]) -> (h: Hand)
        requires
            all_wf(old(cards)@),
        ensures
            h.wf(),
            h.spec_cards() == final(cards)@,
            final(cards)@.to_multiset() == old(cards)@.to_multiset(),
            sorted_by_value(final(cards)@),
    {
        let mut i: usize = 1;
        while i < 5
            invariant
                1 <= i <= 5,
                all_wf(cards@),
                cards@.to_multiset() == old(cards)@.to_multiset(),
                forall|p: int, q: int|
                    0 <= p < q < i ==> cards@[p].spec_value() <= cards@[q].spec_value(),
            decreases 5 - i,
        {
            let mut j: usize = i;
            while j > 0 && cards[j - 1].value() > cards[j].value()
                invariant
                    0 <= j <= i < 5,
                    all_wf(cards@),
                    cards@.to_multiset() == old(cards)@.to_multiset(),
                    forall|p: int, q: int|
                        0 <= p < q <= i && q != j ==> cards@[p].spec_value()
                            <= cards@[q].spec_value(),
                decreases j,
            {
                let ghost before = cards@;
                let a = cards[j - 1];
                let b = cards[j];
                cards[j - 1] = b;
                cards[j] = a;
                proof {
                    lemma_swap_multiset(before, j - 1, j as int);
                    assert(cards@ =~= before.update(j - 1, before[j as int]).update(
                        j as int,
                        before[j - 1],
                    ));
                }
                j = j - 1;
            }
            i = i + 1;
        }
        let mut ranks: [u8; 15] = [0;15];
        let mut k: usize = 0;
        while k < 5
            invariant
                0 <= k <= 5,
                all_wf(cards@),
                forall|r: int| 0 <= r < 15 ==> ranks@[r] as nat == count_rank(cards@.take(k as int), r),
                forall|r: int| 0 <= r < 15 ==> ranks@[r] <= k,
            decreases 5 - k,
        {
            let v = cards[k].value() as usize;
            let cur = ranks[v];
            ranks[v] = cur + 1;
            proof {
                let pre = cards@.take(k as int);
                let post = cards@.take(k as int + 1);
                assert(post.drop_last() =~= pre);
                assert(post.last() == cards@[k as int]);
                assert(forall|r: int|
                    count_rank(post, r) == count_rank(pre, r) + (if cards@[k as int].spec_value()
                        == r {
                        1nat
                    } else {
                        0nat
                    }));
            }
            k = k + 1;
        }
        proof {
            assert(cards@.take(5) =~= cards@);
        }
        Hand { cards: *cards, ranks }
    }

    /// The highest card: the last of the sorted five.
    pub fn high_card(&self) -> (c: Card)
        ensures
            c == self.spec_cards()[4],
            self.wf() ==> forall|i: int|
                0 <= i < 5 ==> self.spec_cards()[i].spec_value() <= c.spec_value(),
    {
        self.cards[4]
    }

    /// Whether some rank appears exactly `c` times, read off the profile.
    fn profile_contains(&self, c: u8) -> (b: bool)
        requires
            self.wf(),
        ensures
            b == exists|r: int| 2 <= r <= 14 && count_rank(self.spec_cards(), r) == c as nat,
    {
        let mut r: usize = 2;
        while r < 15
            invariant
                2 <= r <= 15,
                self.wf(),
                forall|r2: int| 2 <= r2 < r ==> count_rank(self.spec_cards(), r2) != c as nat,
            decreases 15 - r,
        {
            if self.ranks[r] == c {
                return true;
            }
            r = r + 1;
        }
        false
    }

    pub fn has_pair(&self) -> (b: bool)
        requires
            self.wf(),
        ensures
            b == spec_has_pair(self.spec_cards()),
    {
        self.profile_contains(2)
    }

    pub fn has_three_kind(&self) -> (b: bool)
        requires
            self.wf(),
        ensures
            b == spec_has_three_kind(self.spec_cards()),
    {
        self.profile_contains(3)
    }

    pub fn has_two_pair(&self) -> (b: bool)
        requires
            self.wf(),
        ensures
            b == spec_has_two_pair(self.spec_cards()),
    {
        let mut r: usize = 2;
        let mut n: u8 = 0;
        while r < 15
            invariant
                2 <= r <= 15,
                self.wf(),
                n as nat == num_ranks_with(self.spec_cards(), 2, r as int),
                n <= r - 2,
            decreases 15 - r,
        {
            if self.ranks[r] == 2 {
                n = n + 1;
            }
            r = r + 1;
        }
        n == 2
    }

    pub fn is_four_kind(&self) -> (b: bool)
        requires
            self.wf(),
        ensures
            b == spec_is_four_kind(self.spec_cards()),
    {
        self.profile_contains(4)
    }

    pub fn is_flush(&self) -> (b: bool)
        requires
            self.wf(),
        ensures
            b == spec_is_flush(self.spec_cards()),
    {
        let s0 = self.cards[0].suit();
        let b = self.cards[1].suit() == s0 && self.cards[2].suit() == s0 && self.cards[3].suit()
            == s0 && self.cards[4].suit() == s0;
        proof {
            if b {
                assert forall|i: int| 0 <= i < 5 implies (#[trigger] self.spec_cards()[i]).spec_suit()
                    == self.spec_cards()[0].spec_suit() by {}
            }
        }
        b
    }

    pub fn is_straight(&self) -> (b: bool)
        requires
            self.wf(),
        ensures
            b == spec_is_straight(self.spec_cards()),
    {
        let c = &self.cards;
        let run = c[1].value() == c[0].value() + 1 && c[2].value() == c[1].value() + 1
            && c[3].value() == c[2].value() + 1 && c[4].value() == c[3].value() + 1;
        let low_ace = c[0].value() == 2 && c[1].value() == 3 && c[2].value() == 4 && c[3].value()
            == 5 && c[4].value() == 14;
        proof {
            let s = self.spec_cards();
            if run {
                assert forall|i: int|
                    0 <= i < 4 implies (#[trigger] s[i + 1]).spec_value() == s[i].spec_value()
                    + 1 by {}
            }
            if !run && !low_ace {
                if forall|i: int|
                    0 <= i < 4 ==> (#[trigger] s[i + 1]).spec_value() == s[i].spec_value() + 1 {
                    assert(s[0int + 1].spec_value() == s[0].spec_value() + 1);
                    assert(s[1int + 1].spec_value() == s[1].spec_value() + 1);
                    assert(s[2int + 1].spec_value() == s[2].spec_value() + 1);
                    assert(s[3int + 1].spec_value() == s[3].spec_value() + 1);
                    assert(false);
                }
            }
        }
        run || low_ace
    }

    pub fn is_full_house(&self) -> (b: bool)
        requires
            self.wf(),
        ensures
            b == spec_is_full_house(self.spec_cards()),
    {
        self.has_three_kind() && self.has_pair()
    }

    pub fn is_straight_flush(&self) -> (b: bool)
        requires
            self.wf(),
        ensures
            b == spec_is_straight_flush(self.spec_cards()),
    {
        self.is_straight() && self.is_flush()
    }

    /// The category ordinal, 9 (straight flush) down to 1 (high card).
    pub fn score(&self) -> (r: u8)
        requires
            self.wf(),
        ensures
            r as int == spec_category(self.spec_cards()),
            1 <= r <= 9,
    {
        if self.is_straight_flush() {
            9
        } else if self.is_four_kind() {
            8
        } else if self.is_full_house() {
            7
        } else if self.is_flush() {
            6
        } else if self.is_straight() {
            5
        } else if self.has_three_kind() {
            4
        } else if self.has_two_pair() {
            3
        } else if self.has_pair() {
            2
        } else {
            1
        }
    }
}

/// The smallest rank value in `r..15` appearing exactly `c` times; 15 if none.
pub open spec fn first_with(s: Seq<Card>, c: nat, r: int) -> int
    decreases 15 - r,
{
    if r < 0 || r >= 15 {
        15
    } else if count_rank(s, r) == c {
        r
    } else {
        first_with(s, c, r + 1)
    }
}

/// The largest rank value in `2..=r` appearing exactly `c` times; 1 if none.
pub open spec fn last_with(s: Seq<Card>, c: nat, r: int) -> int
    decreases r,
{
    if r <= 1 {
        1
    } else if count_rank(s, r) == c {
        r
    } else {
        last_with(s, c, r - 1)
    }
}

/// A straight's effective high value: 5 for the low-ace straight, where the
/// ace is devalued, else the top card's value.
pub open spec fn straight_high(s: Seq<Card>) -> int {
    if s[4].spec_value() == 14 && s[0].spec_value() == 2 {
        5
    } else {
        s[4].spec_value()
    }
}

/// Rank values of the cards whose value is not `excl`, highest first
/// (the kickers left once the primary grouping is set aside).
pub open spec fn kickers_desc(s: Seq<Card>, excl: int) -> Seq<int>
    decreases s.len(),
{
    if s.len() == 0 {
        Seq::empty()
    } else {
        (if s.last().spec_value() == excl {
            Seq::<int>::empty()
        } else {
            seq![s.last().spec_value()]
        }) + kickers_desc(s.drop_last(), excl)
    }
}

/// All five rank values, highest first.
pub open spec fn values_desc(s: Seq<Card>) -> Seq<int> {
    seq![
        s[4].spec_value(),
        s[3].spec_value(),
        s[2].spec_value(),
        s[1].spec_value(),
        s[0].spec_value(),
    ]
}

/// The hand's comparison key: the category ordinal followed by the category's
/// tie-break values. Hands compare exactly as their keys compare
/// lexicographically.
pub open spec fn hand_key(s: Seq<Card>) -> Seq<int> {
    let c = spec_category(s);
    if c == 9 || c == 5 {
        seq![c, straight_high(s)]
    } else if c == 8 {
        seq![c, first_with(s, 4, 2), first_with(s, 1, 2)]
    } else if c == 7 {
        seq![c, first_with(s, 3, 2), first_with(s, 2, 2)]
    } else if c == 6 || c == 1 {
        seq![c] + values_desc(s)
    } else if c == 4 {
        seq![c, first_with(s, 3, 2)] + kickers_desc(s, first_with(s, 3, 2))
    } else if c == 3 {
        seq![c, last_with(s, 2, 14), first_with(s, 2, 2), first_with(s, 1, 2)]
    } else {
        seq![c, first_with(s, 2, 2)] + kickers_desc(s, first_with(s, 2, 2))
    }
}

/// The integer view of a byte vector's contents.
pub open spec fn int_view(s: Seq<u8>) -> Seq<int> {
    s.map_values(|v: u8| v as int)
}

/// `first_with` finds the smallest rank with the wanted count, if any.
proof fn lemma_first_with(s: Seq<Card>, c: nat, lo: int)
    requires
        0 <= lo,
    ensures
        first_with(s, c, lo) == 15 || (lo <= first_with(s, c, lo) < 15 && count_rank(
            s,
            first_with(s, c, lo),
        ) == c),
        (exists|r: int| lo <= r < 15 && count_rank(s, r) == c) <==> first_with(s, c, lo) < 15,
        forall|r: int| lo <= r < first_with(s, c, lo) && r < 15 ==> count_rank(s, r) != c,
    decreases 15 - lo,
{
    if lo < 15 && count_rank(s, lo) != c {
        lemma_first_with(s, c, lo + 1);
    }
}

/// The kickers and the excluded cards together account for the whole hand.
proof fn lemma_kickers_len(s: Seq<Card>, excl: int)
    ensures
        kickers_desc(s, excl).len() + count_rank(s, excl) == s.len(),
    decreases s.len(),
{
    if s.len() > 0 {
        lemma_kickers_len(s.drop_last(), excl);
    }
}

/// Prepending one equal head to two sequences neither changes their order nor
/// their equality.
proof fn lemma_lex_cons(c: int, t1: Seq<int>, t2: Seq<int>)
    ensures
        lex_lt(seq![c] + t1, seq![c] + t2) == lex_lt(t1, t2),
        (seq![c] + t1 == seq![c] + t2) <==> t1 == t2,
{
    assert((seq![c] + t1).drop_first() =~= t1);
    assert((seq![c] + t2).drop_first() =~= t2);
    if t1 == t2 {
        assert(seq![c] + t1 =~= seq![c] + t2);
    }
}

/// Every key starts with the category ordinal and has at least two entries.
proof fn lemma_key_head(s: Seq<Card>)
    ensures
        hand_key(s).len() >= 2,
        hand_key(s)[0] == spec_category(s),
{
}

impl Hand {
    /// The hand's comparison key.
    pub open spec fn key(self) -> Seq<int> {
        hand_key(self.spec_cards())
    }

    /// The smallest rank value whose profile count is `c`, or 15 if none.
    fn rank_with_count(&self, c: u8) -> (r: usize)
        requires
            self.wf(),
        ensures
            r as int == first_with(self.spec_cards(), c as nat, 2),
            r <= 15,
    {
        let mut r: usize = 2;
        while r < 15
            invariant
                2 <= r <= 15,
                self.wf(),
                first_with(self.spec_cards(), c as nat, 2) == first_with(
                    self.spec_cards(),
                    c as nat,
                    r as int,
                ),
            decreases 15 - r,
        {
            if self.ranks[r] == c {
                return r;
            }
            r = r + 1;
        }
        15
    }

    /// The largest rank value whose profile count is `c`, or 1 if none.
    fn rank_with_count_desc(&self, c: u8) -> (r: usize)
        requires
            self.wf(),
        ensures
            r as int == last_with(self.spec_cards(), c as nat, 14),
            r <= 14,
    {
        let mut r: usize = 14;
        while r > 1
            invariant
                1 <= r <= 14,
                self.wf(),
                last_with(self.spec_cards(), c as nat, 14) == last_with(
                    self.spec_cards(),
                    c as nat,
                    r as int,
                ),
            decreases r,
        {
            if self.ranks[r] == c {
                return r;
            }
            r = r - 1;
        }
        1
    }

    /// The kicker values outside the excluded rank, highest first.
    fn kicker_values(&self, excl: usize) -> (v: Vec<u8>)
        requires
            self.wf(),
        ensures
            int_view(v@) == kickers_desc(self.spec_cards(), excl as int),
    {
        let s = Ghost(self.spec_cards());
        let mut v: Vec<u8> = Vec::new();
        let mut i: usize = 5;
        proof {
            assert(s@.take(5) =~= s@);
            assert(int_view(v@) + kickers_desc(s@.take(5), excl as int) =~= kickers_desc(
                s@,
                excl as int,
            ));
        }
        while i > 0
            invariant
                0 <= i <= 5,
                self.wf(),
                s@ == self.spec_cards(),
                kickers_desc(s@, excl as int) == int_view(v@) + kickers_desc(
                    s@.take(i as int),
                    excl as int,
                ),
            decreases i,
        {
            i = i - 1;
            let ghost pre = v@;
            let cv = self.cards[i].value();
            if cv as usize != excl {
                v.push(cv);
            }
            proof {
                let t = s@.take(i as int + 1);
                assert(t.drop_last() =~= s@.take(i as int));
                assert(t.last() == s@[i as int]);
                if cv as usize != excl {
                    assert(int_view(v@) =~= int_view(pre) + seq![cv as int]);
                    assert(int_view(v@) + kickers_desc(s@.take(i as int), excl as int) =~= int_view(
                        pre,
                    ) + kickers_desc(t, excl as int));
                } else {
                    assert(int_view(v@) + kickers_desc(s@.take(i as int), excl as int) =~= int_view(
                        pre,
                    ) + kickers_desc(t, excl as int));
                }
            }
        }
        proof {
            assert(s@.take(0) =~= Seq::<Card>::empty());
            assert(int_view(v@) + kickers_desc(s@.take(0), excl as int) =~= int_view(v@));
        }
        v
    }

    /// All five values, highest first.
    fn values_descending(&self) -> (v: Vec<u8>)
        requires
            self.wf(),
        ensures
            int_view(v@) == values_desc(self.spec_cards()),
    {
        let mut v: Vec<u8> = Vec::new();
        v.push(self.cards[4].value());
        v.push(self.cards[3].value());
        v.push(self.cards[2].value());
        v.push(self.cards[1].value());
        v.push(self.cards[0].value());
        proof {
            assert(int_view(v@) =~= values_desc(self.spec_cards()));
        }
        v
    }
}

/// Compares two equal-length value vectors lexicographically, highest-priority
/// entry first; the first differing entry decides.
fn lex_cmp_values(x: &Vec<u8>, y: &Vec<u8>) -> (r: Ordering)
    requires
        x@.len() == y@.len(),
    ensures
        r == Ordering::Less <==> lex_lt(int_view(x@), int_view(y@)),
        r == Ordering::Equal <==> int_view(x@) == int_view(y@),
        r == Ordering::Greater <==> lex_lt(int_view(y@), int_view(x@)),
{
    let n = x.len();
    let mut i: usize = 0;
    while i < n
        invariant
            0 <= i <= n,
            n == x@.len() == y@.len(),
            forall|j: int| 0 <= j < i ==> int_view(x@)[j] == int_view(y@)[j],
        decreases n - i,
    {
        let xi = x[i];
        let yi = y[i];
        if xi < yi {
            proof {
                lemma_lex_first_diff(int_view(x@), int_view(y@), i as int);
                lemma_lex_asymmetric(int_view(x@), int_view(y@));
            }
            return Ordering::Less;
        }
        if xi > yi {
            proof {
                lemma_lex_first_diff(int_view(y@), int_view(x@), i as int);
                lemma_lex_asymmetric(int_view(y@), int_view(x@));
            }
            return Ordering::Greater;
        }
        i = i + 1;
    }
    proof {
        assert(int_view(x@) =~= int_view(y@));
        lemma_lex_irreflexive(int_view(x@));
    }
    Ordering::Equal
}

/// Turns a comparison of two scalar key entries at position `k` into the key
/// ordering, given the keys agree before `k`.
proof fn lemma_key_scalar(ka: Seq<int>, kb: Seq<int>, k: int, va: int, vb: int)
    requires
        0 <= k < ka.len(),
        k < kb.len(),
        forall|j: int| 0 <= j < k ==> ka[j] == kb[j],
        ka[k] == va,
        kb[k] == vb,
        va != vb,
    ensures
        va < vb ==> lex_lt(ka, kb) && !lex_lt(kb, ka) && ka != kb,
        va > vb ==> lex_lt(kb, ka) && !lex_lt(ka, kb) && ka != kb,
{
    if va < vb {
        lemma_lex_first_diff(ka, kb, k);
        lemma_lex_asymmetric(ka, kb);
    } else {
        lemma_lex_first_diff(kb, ka, k);
        lemma_lex_asymmetric(kb, ka);
    }
}

impl Hand {
    /// Straights tie-break by effective high card alone; the low-ace straight
    /// counts as high card 5.
    pub fn compare_straight(a: &Hand, b: &Hand) -> (r: Ordering)
        requires
            a.wf(),
            b.wf(),
            spec_category(a.spec_cards()) == 5,
            spec_category(b.spec_cards()) == 5,
        ensures
            r == Ordering::Less <==> lex_lt(a.key(), b.key()),
            r == Ordering::Equal <==> a.key() == b.key(),
            r == Ordering::Greater <==> lex_lt(b.key(), a.key()),
    {
        Self::compare_effective_high(a, b)
    }

    /// Straight flushes tie-break exactly as straights do.
    pub fn compare_straight_flush(a: &Hand, b: &Hand) -> (r: Ordering)
        requires
            a.wf(),
            b.wf(),
            spec_category(a.spec_cards()) == 9,
            spec_category(b.spec_cards()) == 9,
        ensures
            r == Ordering::Less <==> lex_lt(a.key(), b.key()),
            r == Ordering::Equal <==> a.key() == b.key(),
            r == Ordering::Greater <==> lex_lt(b.key(), a.key()),
    {
        Self::compare_effective_high(a, b)
    }

    fn compare_effective_high(a: &Hand, b: &Hand) -> (r: Ordering)
        requires
            a.wf(),
            b.wf(),
            spec_category(a.spec_cards()) == spec_category(b.spec_cards()),
            spec_category(a.spec_cards()) == 5 || spec_category(a.spec_cards()) == 9,
        ensures
            r == Ordering::Less <==> lex_lt(a.key(), b.key()),
            r == Ordering::Equal <==> a.key() == b.key(),
            r == Ordering::Greater <==> lex_lt(b.key(), a.key()),
    {
        let ghost c = spec_category(a.spec_cards());
        let mut ah = a.cards[4].value();
        if ah == 14 && a.cards[0].value() == 2 {
            ah = 5;
        }
        let mut bh = b.cards[4].value();
        if bh == 14 && b.cards[0].value() == 2 {
            bh = 5;
        }
        proof {
            assert(a.key() == seq![c, straight_high(a.spec_cards())]);
            assert(b.key() == seq![c, straight_high(b.spec_cards())]);
            assert(ah as int == straight_high(a.spec_cards()));
            assert(bh as int == straight_high(b.spec_cards()));
        }
        if ah < bh {
            proof {
                lemma_key_scalar(a.key(), b.key(), 1, ah as int, bh as int);
            }
            Ordering::Less
        } else if ah == bh {
            proof {
                assert(a.key() =~= b.key());
                lemma_lex_irreflexive(a.key());
            }
            Ordering::Equal
        } else {
            proof {
                lemma_key_scalar(a.key(), b.key(), 1, ah as int, bh as int);
            }
            Ordering::Greater
        }
    }

    /// Four of a kind tie-breaks by the quad rank, then the single kicker.
    pub fn compare_four_kind(a: &Hand, b: &Hand) -> (r: Ordering)
        requires
            a.wf(),
            b.wf(),
            spec_category(a.spec_cards()) == 8,
            spec_category(b.spec_cards()) == 8,
        ensures
            r == Ordering::Less <==> lex_lt(a.key(), b.key()),
            r == Ordering::Equal <==> a.key() == b.key(),
            r == Ordering::Greater <==> lex_lt(b.key(), a.key()),
    {
        Self::compare_two_scalars(a, b, 4, 1)
    }

    /// A full house tie-breaks by the triple rank, then the pair rank.
    pub fn compare_full_house(a: &Hand, b: &Hand) -> (r: Ordering)
        requires
            a.wf(),
            b.wf(),
            spec_category(a.spec_cards()) == 7,
            spec_category(b.spec_cards()) == 7,
        ensures
            r == Ordering::Less <==> lex_lt(a.key(), b.key()),
            r == Ordering::Equal <==> a.key() == b.key(),
            r == Ordering::Greater <==> lex_lt(b.key(), a.key()),
    {
        Self::compare_two_scalars(a, b, 3, 2)
    }

    fn compare_two_scalars(a: &Hand, b: &Hand, c1: u8, c2: u8) -> (r: Ordering)
        requires
            a.wf(),
            b.wf(),
            spec_category(a.spec_cards()) == spec_category(b.spec_cards()),
            (spec_category(a.spec_cards()) == 8 && c1 == 4 && c2 == 1) || (spec_category(
                a.spec_cards(),
            ) == 7 && c1 == 3 && c2 == 2),
        ensures
            r == Ordering::Less <==> lex_lt(a.key(), b.key()),
            r == Ordering::Equal <==> a.key() == b.key(),
            r == Ordering::Greater <==> lex_lt(b.key(), a.key()),
    {
        let ghost c = spec_category(a.spec_cards());
        let pa = a.rank_with_count(c1);
        let pb = b.rank_with_count(c1);
        proof {
            assert(a.key() == seq![
                c,
                first_with(a.spec_cards(), c1 as nat, 2),
                first_with(a.spec_cards(), c2 as nat, 2),
            ]);
            assert(b.key() == seq![
                c,
                first_with(b.spec_cards(), c1 as nat, 2),
                first_with(b.spec_cards(), c2 as nat, 2),
            ]);
        }
        if pa != pb {
            proof {
                lemma_key_scalar(a.key(), b.key(), 1, pa as int, pb as int);
            }
            if pa < pb {
                Ordering::Less
            } else {
                Ordering::Greater
            }
        } else {
            let ka = a.rank_with_count(c2);
            let kb = b.rank_with_count(c2);
            if ka < kb {
                proof {
                    lemma_key_scalar(a.key(), b.key(), 2, ka as int, kb as int);
                }
                Ordering::Less
            } else if ka == kb {
                proof {
                    assert(a.key() =~= b.key());
                    lemma_lex_irreflexive(a.key());
                }
                Ordering::Equal
            } else {
                proof {
                    lemma_key_scalar(a.key(), b.key(), 2, ka as int, kb as int);
                }
                Ordering::Greater
            }
        }
    }

    /// Two pair tie-breaks by the higher pair, the lower pair, then the
    /// single kicker.
    pub fn compare_two_pair(a: &Hand, b: &Hand) -> (r: Ordering)
        requires
            a.wf(),
            b.wf(),
            spec_category(a.spec_cards()) == 3,
            spec_category(b.spec_cards()) == 3,
        ensures
            r == Ordering::Less <==> lex_lt(a.key(), b.key()),
            r == Ordering::Equal <==> a.key() == b.key(),
            r == Ordering::Greater <==> lex_lt(b.key(), a.key()),
    {
        let ha = a.rank_with_count_desc(2);
        let hb = b.rank_with_count_desc(2);
        proof {
            assert(a.key() == seq![
                3int,
                last_with(a.spec_cards(), 2, 14),
                first_with(a.spec_cards(), 2, 2),
                first_with(a.spec_cards(), 1, 2),
            ]);
            assert(b.key() == seq![
                3int,
                last_with(b.spec_cards(), 2, 14),
                first_with(b.spec_cards(), 2, 2),
                first_with(b.spec_cards(), 1, 2),
            ]);
        }
        if ha != hb {
            proof {
                lemma_key_scalar(a.key(), b.key(), 1, ha as int, hb as int);
            }
            return if ha < hb {
                Ordering::Less
            } else {
                Ordering::Greater
            };
        }
        let la = a.rank_with_count(2);
        let lb = b.rank_with_count(2);
        if la != lb {
            proof {
                lemma_key_scalar(a.key(), b.key(), 2, la as int, lb as int);
            }
            return if la < lb {
                Ordering::Less
            } else {
                Ordering::Greater
            };
        }
        let ka = a.rank_with_count(1);
        let kb = b.rank_with_count(1);
        if ka < kb {
            proof {
                lemma_key_scalar(a.key(), b.key(), 3, ka as int, kb as int);
            }
            Ordering::Less
        } else if ka == kb {
            proof {
                assert(a.key() =~= b.key());
                lemma_lex_irreflexive(a.key());
            }
            Ordering::Equal
        } else {
            proof {
                lemma_key_scalar(a.key(), b.key(), 3, ka as int, kb as int);
            }
            Ordering::Greater
        }
    }

    /// Flushes tie-break by all five values, highest to lowest.
    pub fn compare_flush(a: &Hand, b: &Hand) -> (r: Ordering)
        requires
            a.wf(),
            b.wf(),
            spec_category(a.spec_cards()) == 6,
            spec_category(b.spec_cards()) == 6,
        ensures
            r == Ordering::Less <==> lex_lt(a.key(), b.key()),
            r == Ordering::Equal <==> a.key() == b.key(),
            r == Ordering::Greater <==> lex_lt(b.key(), a.key()),
    {
        Self::compare_value_runs(a, b)
    }

    /// High-card hands tie-break by all five values, highest to lowest.
    pub fn compare_high_card(a: &Hand, b: &Hand) -> (r: Ordering)
        requires
            a.wf(),
            b.wf(),
            spec_category(a.spec_cards()) == 1,
            spec_category(b.spec_cards()) == 1,
        ensures
            r == Ordering::Less <==> lex_lt(a.key(), b.key()),
            r == Ordering::Equal <==> a.key() == b.key(),
            r == Ordering::Greater <==> lex_lt(b.key(), a.key()),
    {
        Self::compare_value_runs(a, b)
    }

    fn compare_value_runs(a: &Hand, b: &Hand) -> (r: Ordering)
        requires
            a.wf(),
            b.wf(),
            spec_category(a.spec_cards()) == spec_category(b.spec_cards()),
            spec_category(a.spec_cards()) == 1 || spec_category(a.spec_cards()) == 6,
        ensures
            r == Ordering::Less <==> lex_lt(a.key(), b.key()),
            r == Ordering::Equal <==> a.key() == b.key(),
            r == Ordering::Greater <==> lex_lt(b.key(), a.key()),
    {
        let ghost c = spec_category(a.spec_cards());
        let xv = a.values_descending();
        let yv = b.values_descending();
        proof {
            assert(int_view(xv@).len() == xv@.len());
            assert(int_view(yv@).len() == yv@.len());
        }
        let r = lex_cmp_values(&xv, &yv);
        proof {
            assert(a.key() == seq![c] + values_desc(a.spec_cards()));
            assert(b.key() == seq![c] + values_desc(b.spec_cards()));
            lemma_lex_cons(c, values_desc(a.spec_cards()), values_desc(b.spec_cards()));
            lemma_lex_cons(c, values_desc(b.spec_cards()), values_desc(a.spec_cards()));
        }
        r
    }

    /// One pair tie-breaks by the pair rank, then the three kickers highest
    /// to lowest.
    pub fn compare_pair(a: &Hand, b: &Hand) -> (r: Ordering)
        requires
            a.wf(),
            b.wf(),
            spec_category(a.spec_cards()) == 2,
            spec_category(b.spec_cards()) == 2,
        ensures
            r == Ordering::Less <==> lex_lt(a.key(), b.key()),
            r == Ordering::Equal <==> a.key() == b.key(),
            r == Ordering::Greater <==> lex_lt(b.key(), a.key()),
    {
        Self::compare_group_and_kickers(a, b, 2)
    }

    /// Three of a kind tie-breaks by the triple rank, then the two kickers
    /// highest to lowest.
    pub fn compare_three_kind(a: &Hand, b: &Hand) -> (r: Ordering)
        requires
            a.wf(),
            b.wf(),
            spec_category(a.spec_cards()) == 4,
            spec_category(b.spec_cards()) == 4,
        ensures
            r == Ordering::Less <==> lex_lt(a.key(), b.key()),
            r == Ordering::Equal <==> a.key() == b.key(),
            r == Ordering::Greater <==> lex_lt(b.key(), a.key()),
    {
        Self::compare_group_and_kickers(a, b, 3)
    }

    fn compare_group_and_kickers(a: &Hand, b: &Hand, c1: u8) -> (r: Ordering)
        requires
            a.wf(),
            b.wf(),
            spec_category(a.spec_cards()) == spec_category(b.spec_cards()),
            (spec_category(a.spec_cards()) == 2 && c1 == 2) || (spec_category(a.spec_cards()) == 4
                && c1 == 3),
        ensures
            r == Ordering::Less <==> lex_lt(a.key(), b.key()),
            r == Ordering::Equal <==> a.key() == b.key(),
            r == Ordering::Greater <==> lex_lt(b.key(), a.key()),
    {
        let ghost c = spec_category(a.spec_cards());
        let ghost sa = a.spec_cards();
        let ghost sb = b.spec_cards();
        let pa = a.rank_with_count(c1);
        let pb = b.rank_with_count(c1);
        proof {
            assert(a.key() == seq![c, first_with(sa, c1 as nat, 2)] + kickers_desc(
                sa,
                first_with(sa, c1 as nat, 2),
            ));
            assert(b.key() == seq![c, first_with(sb, c1 as nat, 2)] + kickers_desc(
                sb,
                first_with(sb, c1 as nat, 2),
            ));
            assert(a.key()[1] == pa as int);
            assert(b.key()[1] == pb as int);
        }
        if pa != pb {
            proof {
                lemma_key_scalar(a.key(), b.key(), 1, pa as int, pb as int);
            }
            return if pa < pb {
                Ordering::Less
            } else {
                Ordering::Greater
            };
        }
        let kva = a.kicker_values(pa);
        let kvb = b.kicker_values(pb);
        proof {
            lemma_first_with(sa, c1 as nat, 2);
            lemma_first_with(sb, c1 as nat, 2);
            lemma_kickers_len(sa, pa as int);
            lemma_kickers_len(sb, pb as int);
            assert(count_rank(sa, pa as int) == c1 as nat);
            assert(count_rank(sb, pb as int) == c1 as nat);
            assert(int_view(kva@).len() == kva@.len());
            assert(int_view(kvb@).len() == kvb@.len());
            assert(kva@.len() == kvb@.len());
        }
        let r = lex_cmp_values(&kva, &kvb);
        proof {
            let ta = kickers_desc(sa, pa as int);
            let tb = kickers_desc(sb, pb as int);
            assert(a.key() =~= seq![c] + (seq![pa as int] + ta));
            assert(b.key() =~= seq![c] + (seq![pb as int] + tb));
            lemma_lex_cons(pa as int, ta, tb);
            lemma_lex_cons(pb as int, tb, ta);
            lemma_lex_cons(c, seq![pa as int] + ta, seq![pb as int] + tb);
            lemma_lex_cons(c, seq![pb as int] + tb, seq![pa as int] + ta);
        }
        r
    }

    /// Total order over hands: first by category ordinal, then by the
    /// category's tie-break rule; equal keys mean a tie.
    pub fn compare(a: &Hand, b: &Hand) -> (r: Ordering)
        requires
            a.wf(),
            b.wf(),
        ensures
            r == Ordering::Less <==> lex_lt(a.key(), b.key()),
            r == Ordering::Equal <==> a.key() == b.key(),
            r == Ordering::Greater <==> lex_lt(b.key(), a.key()),
    {
        let sa = a.score();
        let sb = b.score();
        proof {
            lemma_key_head(a.spec_cards());
            lemma_key_head(b.spec_cards());
        }
        if sa != sb {
            proof {
                lemma_key_scalar(a.key(), b.key(), 0, sa as int, sb as int);
            }
            return if sa < sb {
                Ordering::Less
            } else {
                Ordering::Greater
            };
        }
        if sa == 9 {
            Self::compare_straight_flush(a, b)
        } else if sa == 8 {
            Self::compare_four_kind(a, b)
        } else if sa == 7 {
            Self::compare_full_house(a, b)
        } else if sa == 6 {
            Self::compare_flush(a, b)
        } else if sa == 5 {
            Self::compare_straight(a, b)
        } else if sa == 4 {
            Self::compare_three_kind(a, b)
        } else if sa == 3 {
            Self::compare_two_pair(a, b)
        } else if sa == 2 {
            Self::compare_pair(a, b)
        } else {
            Self::compare_high_card(a, b)
        }
    }
}

/// The hand order is reflexive at equality: no hand ranks below itself, so
/// `compare(a, a)` reports `Equal`.
pub proof fn lemma_hand_order_reflexive(a: Hand)
    requires
        a.wf(),
    ensures
        !lex_lt(a.key(), a.key()),
{
    lemma_lex_irreflexive(a.key());
}

/// The hand order is antisymmetric: the two directions of the strict order
/// never hold together, so `compare(a, b)` and `compare(b, a)` always report
/// opposite outcomes.
pub proof fn lemma_hand_order_antisymmetric(a: Hand, b: Hand)
    requires
        a.wf(),
        b.wf(),
        lex_lt(a.key(), b.key()),
    ensures
        !lex_lt(b.key(), a.key()),
        a.key() != b.key(),
{
    lemma_lex_asymmetric(a.key(), b.key());
    lemma_lex_irreflexive(a.key());
}

/// The hand order is transitive.
pub proof fn lemma_hand_order_transitive(a: Hand, b: Hand, c: Hand)
    requires
        a.wf(),
        b.wf(),
        c.wf(),
        lex_lt(a.key(), b.key()),
        lex_lt(b.key(), c.key()),
    ensures
        lex_lt(a.key(), c.key()),
{
    lemma_lex_transitive(a.key(), b.key(), c.key());
}

/// The hand order is total: any two hands are strictly ordered or their keys
/// are equal, in which case they tie.
pub proof fn lemma_hand_order_total(a: Hand, b: Hand)
    requires
        a.wf(),
        b.wf(),
    ensures
        lex_lt(a.key(), b.key()) || lex_lt(b.key(), a.key()) || a.key() == b.key(),
{
    lemma_lex_total(a.key(), b.key());
}

/// Category monotonicity: a hand of a strictly higher category always ranks
/// above one of a lower category, whatever the ranks involved.
pub proof fn lemma_category_dominates(a: Hand, b: Hand)
    requires
        a.wf(),
        b.wf(),
        spec_category(a.spec_cards()) > spec_category(b.spec_cards()),
    ensures
        lex_lt(b.key(), a.key()),
        !lex_lt(a.key(), b.key()),
{
    lemma_key_head(a.spec_cards());
    lemma_key_head(b.spec_cards());
    lemma_key_scalar(
        b.key(),
        a.key(),
        0,
        spec_category(b.spec_cards()),
        spec_category(a.spec_cards()),
    );
}

/// The rank values of a card sequence, in order.
pub open spec fn values_of(s: Seq<Card>) -> Seq<int> {
    s.map_values(|c: Card| c.spec_value())
}

/// Equal card multisets give equal value multisets.
proof fn lemma_values_multiset(x: Seq<Card>, y: Seq<Card>)
    requires
        x.to_multiset() == y.to_multiset(),
    ensures
        values_of(x).to_multiset() == values_of(y).to_multiset(),
    decreases x.len(),
{
    broadcast use vstd::seq_lib::group_to_multiset_ensures;
    broadcast use vstd::multiset::group_multiset_axioms;

    if x.len() == 0 {
        vstd::seq_lib::to_multiset_len(x);
        vstd::seq_lib::to_multiset_len(y);
        assert(y.len() == 0);
        assert(values_of(x) =~= values_of(y));
    } else {
        let c = x.last();
        let v = c.spec_value();
        assert(x.contains(c));
        assert(x.to_multiset().contains(c));
        assert(y.contains(c));
        let i = choose|i: int| 0 <= i < y.len() && y[i] == c;
        assert(x.remove(x.len() - 1) =~= x.drop_last());
        assert(x.drop_last().to_multiset() == x.to_multiset().remove(c));
        assert(y.remove(i).to_multiset() == y.to_multiset().remove(c));
        lemma_values_multiset(x.drop_last(), y.remove(i));
        assert(values_of(x) =~= values_of(x.drop_last()).push(v));
        assert(values_of(x).to_multiset() == values_of(x.drop_last()).to_multiset().insert(v));
        assert(values_of(y.remove(i)) =~= values_of(y).remove(i));
        assert(values_of(y).remove(i).to_multiset() == values_of(y).to_multiset().remove(
            values_of(y)[i],
        ));
        assert(values_of(y)[i] == v);
        assert(values_of(y).contains(v));
        assert(values_of(y).to_multiset().count(v) > 0);
        assert(values_of(x).to_multiset() == values_of(y).to_multiset().remove(v).insert(v));
        assert(values_of(y).to_multiset().remove(v).insert(v) =~= values_of(y).to_multiset());
    }
}

/// Equal value sequences give equal rank counts.
proof fn lemma_count_rank_values(x: Seq<Card>, y: Seq<Card>)
    requires
        values_of(x) == values_of(y),
    ensures
        forall|r: int| count_rank(x, r) == count_rank(y, r),
    decreases x.len(),
{
    assert(values_of(x).len() == x.len());
    assert(values_of(y).len() == y.len());
    assert(x.len() == y.len());
    if x.len() > 0 {
        assert(values_of(x.drop_last()) =~= values_of(x).drop_last());
        assert(values_of(y.drop_last()) =~= values_of(y).drop_last());
        lemma_count_rank_values(x.drop_last(), y.drop_last());
        assert(x.last().spec_value() == values_of(x)[x.len() - 1]);
        assert(y.last().spec_value() == values_of(y)[y.len() - 1]);
        assert forall|r: int| count_rank(x, r) == count_rank(y, r) by {
            assert(count_rank(x.drop_last(), r) == count_rank(y.drop_last(), r));
            assert(count_rank(x, r) == count_rank(x.drop_last(), r) + (if x.last().spec_value()
                == r {
                1nat
            } else {
                0nat
            }));
            assert(count_rank(y, r) == count_rank(y.drop_last(), r) + (if y.last().spec_value()
                == r {
                1nat
            } else {
                0nat
            }));
        }
    }
}

/// Equal value sequences give equal kickers.
proof fn lemma_kickers_values(x: Seq<Card>, y: Seq<Card>, excl: int)
    requires
        values_of(x) == values_of(y),
    ensures
        kickers_desc(x, excl) == kickers_desc(y, excl),
    decreases x.len(),
{
    assert(values_of(x).len() == x.len());
    assert(values_of(y).len() == y.len());
    assert(x.len() == y.len());
    if x.len() > 0 {
        assert(values_of(x.drop_last()) =~= values_of(x).drop_last());
        assert(values_of(y.drop_last()) =~= values_of(y).drop_last());
        lemma_kickers_values(x.drop_last(), y.drop_last(), excl);
        assert(x.last().spec_value() == values_of(x)[x.len() - 1]);
        assert(y.last().spec_value() == values_of(y)[y.len() - 1]);
    }
}

/// Equal rank counts give the same `first_with` result.
proof fn lemma_first_with_eq(x: Seq<Card>, y: Seq<Card>, c: nat, lo: int)
    requires
        forall|r: int| count_rank(x, r) == count_rank(y, r),
    ensures
        first_with(x, c, lo) == first_with(y, c, lo),
    decreases 15 - lo,
{
    if 0 <= lo < 15 && count_rank(x, lo) != c {
        lemma_first_with_eq(x, y, c, lo + 1);
    }
}

/// Equal rank counts give the same `last_with` result.
proof fn lemma_last_with_eq(x: Seq<Card>, y: Seq<Card>, c: nat, hi: int)
    requires
        forall|r: int| count_rank(x, r) == count_rank(y, r),
    ensures
        last_with(x, c, hi) == last_with(y, c, hi),
    decreases hi,
{
    if hi > 1 && count_rank(x, hi) != c {
        lemma_last_with_eq(x, y, c, hi - 1);
    }
}

/// Equal rank counts give the same `num_ranks_with` result.
proof fn lemma_num_ranks_eq(x: Seq<Card>, y: Seq<Card>, c: nat, hi: int)
    requires
        forall|r: int| count_rank(x, r) == count_rank(y, r),
    ensures
        num_ranks_with(x, c, hi) == num_ranks_with(y, c, hi),
    decreases hi,
{
    if hi > 2 {
        lemma_num_ranks_eq(x, y, c, hi - 1);
    }
}

/// Whether all cards share one suit is a property of the card multiset.
proof fn lemma_flush_multiset(x: Seq<Card>, y: Seq<Card>)
    requires
        x.to_multiset() == y.to_multiset(),
        x.len() == 5,
        y.len() == 5,
        spec_is_flush(x),
    ensures
        spec_is_flush(y),
{
    broadcast use vstd::seq_lib::group_to_multiset_ensures;

    assert forall|i: int| 0 <= i < 5 implies (#[trigger] y[i]).spec_suit() == y[0].spec_suit() by {
        assert(y.contains(y[i]));
        assert(y.to_multiset().contains(y[i]));
        assert(x.to_multiset().contains(y[i]));
        assert(x.contains(y[i]));
        assert(y.contains(y[0]));
        assert(y.to_multiset().contains(y[0]));
        assert(x.to_multiset().contains(y[0]));
        assert(x.contains(y[0]));
        let j = choose|j: int| 0 <= j < x.len() && x[j] == y[i];
        let k = choose|k: int| 0 <= k < x.len() && x[k] == y[0];
        assert(x[j].spec_suit() == x[0].spec_suit());
        assert(x[k].spec_suit() == x[0].spec_suit());
    }
}

/// A hand's key — its category and every tie-break value — depends only on
/// which cards it holds, never on the order they arrived in. In particular
/// the category is stable across any rearrangement of the same five cards.
pub proof fn lemma_key_multiset(x: Seq<Card>, y: Seq<Card>)
    requires
        hand_cards_wf(x),
        hand_cards_wf(y),
        x.to_multiset() == y.to_multiset(),
    ensures
        spec_category(x) == spec_category(y),
        hand_key(x) == hand_key(y),
{
    lemma_values_multiset(x, y);
    let leq = |a: int, b: int| a <= b;
    assert(vstd::relations::sorted_by(values_of(x), leq));
    assert(vstd::relations::sorted_by(values_of(y), leq));
    assert(vstd::relations::total_ordering(leq));
    vstd::seq_lib::lemma_sorted_unique(values_of(x), values_of(y), leq);
    assert(values_of(x) == values_of(y));
    lemma_count_rank_values(x, y);
    // the value-shaped predicates agree
    assert forall|i: int| 0 <= i < 5 implies (#[trigger] x[i]).spec_value() == y[i].spec_value() by {
        assert(values_of(x)[i] == values_of(y)[i]);
    }
    assert(spec_is_low_ace(x) == spec_is_low_ace(y));
    assert(spec_is_straight(x) == spec_is_straight(y)) by {
        if spec_is_straight(x) && !spec_is_low_ace(x) {
            assert forall|i: int|
                0 <= i < 4 implies (#[trigger] y[i + 1]).spec_value() == y[i].spec_value() + 1 by {
                assert((#[trigger] x[i + 1]).spec_value() == x[i].spec_value() + 1);
                assert(values_of(x)[i + 1] == values_of(y)[i + 1]);
                assert(values_of(x)[i] == values_of(y)[i]);
            }
        }
        if spec_is_straight(y) && !spec_is_low_ace(y) {
            assert forall|i: int|
                0 <= i < 4 implies (#[trigger] x[i + 1]).spec_value() == x[i].spec_value() + 1 by {
                assert((#[trigger] y[i + 1]).spec_value() == y[i].spec_value() + 1);
                assert(values_of(x)[i + 1] == values_of(y)[i + 1]);
                assert(values_of(x)[i] == values_of(y)[i]);
            }
        }
    }
    assert(straight_high(x) == straight_high(y));
    assert(values_desc(x) == values_desc(y));
    // the profile-shaped predicates agree
    assert(spec_has_pair(x) == spec_has_pair(y)) by {
        if spec_has_pair(x) {
            let r = choose|r: int| 2 <= r <= 14 && count_rank(x, r) == 2;
            assert(count_rank(y, r) == 2);
        }
        if spec_has_pair(y) {
            let r = choose|r: int| 2 <= r <= 14 && count_rank(y, r) == 2;
            assert(count_rank(x, r) == 2);
        }
    }
    assert(spec_has_three_kind(x) == spec_has_three_kind(y)) by {
        if spec_has_three_kind(x) {
            let r = choose|r: int| 2 <= r <= 14 && count_rank(x, r) == 3;
            assert(count_rank(y, r) == 3);
        }
        if spec_has_three_kind(y) {
            let r = choose|r: int| 2 <= r <= 14 && count_rank(y, r) == 3;
            assert(count_rank(x, r) == 3);
        }
    }
    assert(spec_is_four_kind(x) == spec_is_four_kind(y)) by {
        if spec_is_four_kind(x) {
            let r = choose|r: int| 2 <= r <= 14 && count_rank(x, r) == 4;
            assert(count_rank(y, r) == 4);
        }
        if spec_is_four_kind(y) {
            let r = choose|r: int| 2 <= r <= 14 && count_rank(y, r) == 4;
            assert(count_rank(x, r) == 4);
        }
    }
    lemma_num_ranks_eq(x, y, 2, 15);
    // flushes agree
    assert(spec_is_flush(x) == spec_is_flush(y)) by {
        if spec_is_flush(x) {
            lemma_flush_multiset(x, y);
        }
        if spec_is_flush(y) {
            lemma_flush_multiset(y, x);
        }
    }
    assert(spec_category(x) == spec_category(y));
    // the tie-break components agree
    lemma_first_with_eq(x, y, 4, 2);
    lemma_first_with_eq(x, y, 3, 2);
    lemma_first_with_eq(x, y, 2, 2);
    lemma_first_with_eq(x, y, 1, 2);
    lemma_last_with_eq(x, y, 2, 14);
    lemma_kickers_values(x, y, first_with(x, 3, 2));
    lemma_kickers_values(x, y, first_with(x, 2, 2));
    assert(hand_key(x) == hand_key(y));
}

/// Rearranging cards keeps them well-formed.
pub proof fn lemma_all_wf_multiset(x: Seq<Card>, y: Seq<Card>)
    requires
        all_wf(x),
        x.to_multiset() == y.to_multiset(),
    ensures
        all_wf(y),
{
    broadcast use vstd::seq_lib::group_to_multiset_ensures;

    assert forall|i: int| 0 <= i < y.len() implies (#[trigger] y[i]).wf() by {
        assert(y.contains(y[i]));
        assert(y.to_multiset().contains(y[i]));
        assert(x.to_multiset().contains(y[i]));
        assert(x.contains(y[i]));
        let w = choose|w: int| 0 <= w < x.len() && x[w] == y[i];
        assert(x[w].wf());
    }
}

/// The key any hand built from these five cards earns: by
/// `lemma_key_multiset` every sorted arrangement of the same cards has the
/// same key, so the choice of arrangement does not matter.
pub open spec fn selection_key(s: Seq<Card>) -> Seq<int> {
    let t = choose|t: Seq<Card>| t.to_multiset() == s.to_multiset() && hand_cards_wf(t);
    hand_key(t)
}

/// A well-formed hand holding exactly the cards of a selection has the
/// selection's key.
pub proof fn lemma_selection_key(h: Hand, s: Seq<Card>)
    requires
        h.wf(),
        h.spec_cards().to_multiset() == s.to_multiset(),
    ensures
        h.key() == selection_key(s),
{
    assert(exists|t: Seq<Card>| t.to_multiset() == s.to_multiset() && hand_cards_wf(t)) by {
        assert(h.spec_cards().to_multiset() == s.to_multiset() && hand_cards_wf(h.spec_cards()));
    }
    let t = choose|t: Seq<Card>| t.to_multiset() == s.to_multiset() && hand_cards_wf(t);
    lemma_key_multiset(h.spec_cards(), t);
}

/// The keys of every five-card selection from a candidate set.
pub open spec fn selection_keys(cards: Seq<Card>) -> Seq<Seq<int>> {
    crate::utils::spec_combos(cards, 5).map_values(|c: Seq<Card>| selection_key(c))
}

/// The strongest key any five-card selection from the candidate set earns.
pub open spec fn best_key(cards: Seq<Card>) -> Seq<int> {
    crate::order::lex_max(selection_keys(cards))
}

/// A candidate set of at least k cards offers at least one k-selection.
proof fn lemma_combos_nonempty<T>(s: Seq<T>, k: nat)
    requires
        k <= s.len(),
    ensures
        crate::utils::spec_combos(s, k).len() > 0,
    decreases s.len(),
{
    if k > 0 {
        lemma_combos_nonempty(s.drop_first(), (k - 1) as nat);
    }
}

/// Builds the hand a five-card selection earns.
fn hand_of_selection(c: &Vec<Card>) -> (h: Hand)
    requires
        c@.len() == 5,
        all_wf(c@),
    ensures
        h.wf(),
        h.spec_cards().to_multiset() == c@.to_multiset(),
        h.key() == selection_key(c@),
{
    let mut arr: [Card; 5] = [c[0], c[1], c[2], c[3], c[4]];
    proof {
        assert(arr@ =~= c@);
    }
    let h = Hand::new(&mut arr);
    proof {
        lemma_selection_key(h, c@);
    }
    h
}

/// Classifies exactly five validated cards as a hand; any other count fails
/// with `InvalidHandSize`.
pub fn classify(cards: &Vec<Card>) -> (r: Result<Hand, EvalError>)
    requires
        all_wf(cards@),
    ensures
        r is Ok <==> cards@.len() == 5,
        r matches Err(e) ==> e == EvalError::InvalidHandSize,
        r matches Ok(h) ==> {
            &&& h.wf()
            &&& h.spec_cards().to_multiset() == cards@.to_multiset()
            &&& h.key() == selection_key(cards@)
        },
{
    if cards.len() != 5 {
        return Err(EvalError::InvalidHandSize);
    }
    Ok(hand_of_selection(cards))
}

/// Picks the strongest five-card hand obtainable from the candidate set:
/// every five-card selection is classified and the maximum under the hand
/// order is returned. Fewer than five candidates fail with
/// `InsufficientCandidates`; among equally strong selections any one may be
/// returned.
pub fn best_hand(cards: &Vec<Card>) -> (r: Result<Hand, EvalError>)
    requires
        all_wf(cards@),
    ensures
        r is Ok <==> cards@.len() >= 5,
        r matches Err(e) ==> e == EvalError::InsufficientCandidates,
        r matches Ok(h) ==> {
            &&& h.wf()
            &&& (exists|i: int|
                0 <= i < crate::utils::spec_combos(cards@, 5).len() && h.spec_cards().to_multiset()
                    == (#[trigger] crate::utils::spec_combos(cards@, 5)[i]).to_multiset())
            &&& h.spec_cards().to_multiset().subset_of(cards@.to_multiset())
            &&& (forall|i: int|
                0 <= i < crate::utils::spec_combos(cards@, 5).len() ==> !lex_lt(
                    h.key(),
                    selection_key(#[trigger] crate::utils::spec_combos(cards@, 5)[i]),
                ))
            &&& h.key() == best_key(cards@)
        },
{
    if cards.len() < 5 {
        return Err(EvalError::InsufficientCandidates);
    }
    let ghost cs = crate::utils::spec_combos(cards@, 5);
    let combos = match crate::utils::combinations(cards, 5) {
        Ok(combos) => combos,
        Err(_) => {
            proof {
                assert(false);
            }
            return Err(EvalError::InsufficientCandidates);
        },
    };
    proof {
        crate::utils::lemma_combos_wf(cards@, 5);
        lemma_combos_nonempty(cards@, 5);
        assert(combos@.map_values(|c: Vec<Card>| c@).len() == cs.len());
    }
    proof {
        assert forall|i: int| 0 <= i < cs.len() implies all_wf(#[trigger] cs[i]) by {
            assert forall|t: int| 0 <= t < cs[i].len() implies (#[trigger] cs[i][t]).wf() by {
                assert(cards@.contains(cs[i][t]));
                let w = choose|w: int| 0 <= w < cards@.len() && cards@[w] == cs[i][t];
                assert(cards@[w].wf());
            }
        }
    }
    let first_combo = &combos[0];
    proof {
        assert(combos@.map_values(|c: Vec<Card>| c@)[0] == combos@[0]@);
        assert(combos@[0]@ == cs[0]);
    }
    let mut best = hand_of_selection(first_combo);
    proof {
        assert(best.key() == selection_key(cs[0]));
        lemma_lex_irreflexive(best.key());
    }
    let mut j: usize = 1;
    while j < combos.len()
        invariant
            1 <= j <= combos@.len(),
            all_wf(cards@),
            cs == crate::utils::spec_combos(cards@, 5),
            combos@.map_values(|c: Vec<Card>| c@) == cs,
            forall|i: int| 0 <= i < cs.len() ==> all_wf(#[trigger] cs[i]),
            forall|i: int| 0 <= i < cs.len() ==> (#[trigger] cs[i]).len() == 5,
            best.wf(),
            exists|i: int|
                0 <= i < j && best.spec_cards().to_multiset() == (#[trigger] cs[i]).to_multiset(),
            forall|i: int| 0 <= i < j ==> !lex_lt(best.key(), selection_key(#[trigger] cs[i])),
        decreases combos@.len() - j,
    {
        let cj = &combos[j];
        proof {
            assert(combos@.map_values(|c: Vec<Card>| c@)[j as int] == combos@[j as int]@);
            assert(combos@[j as int]@ == cs[j as int]);
        }
        let cand = hand_of_selection(cj);
        let cmp = Hand::compare(&cand, &best);
        match cmp {
            core::cmp::Ordering::Greater => {
                proof {
                    assert forall|i: int|
                        0 <= i < j + 1 implies !lex_lt(
                        cand.key(),
                        selection_key(#[trigger] cs[i]),
                    ) by {
                        if i < j {
                            if lex_lt(cand.key(), selection_key(cs[i])) {
                                lemma_lex_transitive(
                                    best.key(),
                                    cand.key(),
                                    selection_key(cs[i]),
                                );
                            }
                        } else {
                            lemma_lex_irreflexive(cand.key());
                        }
                    }
                }
                best = cand;
            },
            _ => {
                proof {
                    lemma_lex_total(cand.key(), best.key());
                    assert(!lex_lt(best.key(), cand.key()));
                    assert forall|i: int|
                        0 <= i < j + 1 implies !lex_lt(
                        best.key(),
                        selection_key(#[trigger] cs[i]),
                    ) by {
                        if i == j {
                            assert(selection_key(cs[i]) == cand.key());
                        }
                    }
                }
            },
        }
        j = j + 1;
    }
    proof {
        let keys = selection_keys(cards@);
        let w = choose|i: int|
            0 <= i < j && best.spec_cards().to_multiset() == (#[trigger] cs[i]).to_multiset();
        assert(keys[w] == selection_key(cs[w]));
        lemma_selection_key(best, cs[w]);
        assert(keys.contains(best.key()));
        assert forall|i: int| 0 <= i < keys.len() implies !lex_lt(
            best.key(),
            #[trigger] keys[i],
        ) by {
            assert(keys[i] == selection_key(cs[i]));
        }
        crate::order::lemma_lex_max_unique(keys, best.key());
        crate::utils::lemma_combos_submultiset(cards@, 5);
        assert(cs[w].to_multiset().subset_of(cards@.to_multiset()));
    }
    Ok(best)
}

/// Well-formed hand text: five comma-and-space separated card texts.
pub open spec fn valid_hand_text(t: Seq<char>) -> bool {
    &&& t.len() == 18
    &&& t[2] == ',' && t[3] == ' '
    &&& t[6] == ',' && t[7] == ' '
    &&& t[10] == ',' && t[11] == ' '
    &&& t[14] == ',' && t[15] == ' '
    &&& crate::card::valid_card_text(t.subrange(0, 2))
    &&& crate::card::valid_card_text(t.subrange(4, 6))
    &&& crate::card::valid_card_text(t.subrange(8, 10))
    &&& crate::card::valid_card_text(t.subrange(12, 14))
    &&& crate::card::valid_card_text(t.subrange(16, 18))
}

/// The five cards that well-formed hand text denotes, in textual order.
pub open spec fn cards_of_hand_text(t: Seq<char>) -> Seq<Card> {
    seq![
        crate::card::spec_card_of(t.subrange(0, 2)),
        crate::card::spec_card_of(t.subrange(4, 6)),
        crate::card::spec_card_of(t.subrange(8, 10)),
        crate::card::spec_card_of(t.subrange(12, 14)),
        crate::card::spec_card_of(t.subrange(16, 18)),
    ]
}

/// The rendering of a hand: its five sorted cards, comma-and-space separated.
pub open spec fn hand_text(s: Seq<Card>) -> Seq<char> {
    crate::card::card_text(s[0]) + seq![',', ' '] + crate::card::card_text(s[1]) + seq![',', ' ']
        + crate::card::card_text(s[2]) + seq![',', ' '] + crate::card::card_text(s[3]) + seq![
        ',',
        ' ',
    ] + crate::card::card_text(s[4])
}

impl Hand {
    /// The five sorted cards, as a vector.
    pub fn cards(&self) -> (cs: Vec<Card>)
        ensures
            cs@ == self.spec_cards(),
    {
        let mut cs: Vec<Card> = Vec::new();
        cs.push(self.cards[0]);
        cs.push(self.cards[1]);
        cs.push(self.cards[2]);
        cs.push(self.cards[3]);
        cs.push(self.cards[4]);
        proof {
            assert(cs@ =~= self.spec_cards());
        }
        cs
    }

    /// Parses five comma-and-space separated card texts, for example
    /// `"AS, KH, QD, JC, TS"`, and classifies them.
    pub fn parse(string: &str) -> (r: Result<Hand, EvalError>)
        ensures
            r is Ok <==> valid_hand_text(string@),
            r matches Err(e) ==> e == EvalError::InvalidCardFormat,
            r matches Ok(h) ==> {
                &&& h.wf()
                &&& h.spec_cards().to_multiset() == cards_of_hand_text(string@).to_multiset()
                &&& h.key() == selection_key(cards_of_hand_text(string@))
            },
    {
        if string.unicode_len() != 18 {
            return Err(EvalError::InvalidCardFormat);
        }
        if !(string.get_char(2) == ',' && string.get_char(3) == ' ' && string.get_char(6) == ','
            && string.get_char(7) == ' ' && string.get_char(10) == ',' && string.get_char(11)
            == ' ' && string.get_char(14) == ',' && string.get_char(15) == ' ') {
            return Err(EvalError::InvalidCardFormat);
        }
        let c0 = match Card::parse(string.substring_char(0, 2)) {
            Ok(c) => c,
            Err(e) => { return Err(e) },
        };
        let c1 = match Card::parse(string.substring_char(4, 6)) {
            Ok(c) => c,
            Err(e) => { return Err(e) },
        };
        let c2 = match Card::parse(string.substring_char(8, 10)) {
            Ok(c) => c,
            Err(e) => { return Err(e) },
        };
        let c3 = match Card::parse(string.substring_char(12, 14)) {
            Ok(c) => c,
            Err(e) => { return Err(e) },
        };
        let c4 = match Card::parse(string.substring_char(16, 18)) {
            Ok(c) => c,
            Err(e) => { return Err(e) },
        };
        let mut arr: [Card; 5] = [c0, c1, c2, c3, c4];
        proof {
            assert(arr@ =~= cards_of_hand_text(string@));
        }
        let h = Hand::new(&mut arr);
        proof {
            lemma_selection_key(h, cards_of_hand_text(string@));
        }
        Ok(h)
    }

    /// Renders the hand as its five card texts, comma-and-space separated.
    pub fn to_text(&self) -> (s: String)
        requires
            self.wf(),
        ensures
            s@ == hand_text(self.spec_cards()),
    {
        let sep: &str = ", ";
        proof {
            reveal_strlit(", ");
            assert(sep@ =~= seq![',', ' ']);
        }
        let mut out = self.cards[0].to_text();
        out.append(sep);
        let t1 = self.cards[1].to_text();
        out.append(t1.as_str());
        out.append(sep);
        let t2 = self.cards[2].to_text();
        out.append(t2.as_str());
        out.append(sep);
        let t3 = self.cards[3].to_text();
        out.append(t3.as_str());
        out.append(sep);
        let t4 = self.cards[4].to_text();
        out.append(t4.as_str());
        proof {
            assert(out@ =~= hand_text(self.spec_cards()));
        }
        out
    }
}

} // verus!
