use vstd::prelude::*;

use core::cmp::Ordering;

use crate::EvalError;

verus! {

/// A card rank held as a plain bounded integer: 2 through 10 for the number
/// cards, then 11 (jack), 12 (queen), 13 (king) and 14 (ace).
#[derive(Clone, Copy, PartialEq, Eq, Structural, Debug)]
pub struct Rank {
    value: u8,
}

impl Rank {
    pub closed spec fn spec_value(self) -> int {
        self.value as int
    }

    pub open spec fn wf(self) -> bool {
        2 <= self.spec_value() <= 14
    }

    pub fn new(value: u8) -> (r: Option<Rank>)
        ensures
            r is Some <==> 2 <= value <= 14,
            r matches Some(rank) ==> rank.spec_value() == value as int && rank.wf(),
    {
        if value >= 2 && value <= 14 {
            Some(Rank { value })
        } else {
            None
        }
    }

    pub fn value(&self) -> (v: u8)
        ensures
            v as int == self.spec_value(),
    {
        self.value
    }
}

/// One of the four suits. The suit never takes part in ordering; it only
/// decides flushes.
#[derive(Clone, Copy, PartialEq, Eq, Structural, Debug)]
pub enum Suit {
    S,
    H,
    C,
    D,
}

/// An immutable playing card: a rank and a suit. Ordering goes by rank value
/// alone; equality is structural, so the suit is part of a card's identity.
#[derive(Clone, Copy, PartialEq, Eq, Structural, Debug)]
pub struct Card {
    rank: Rank,
    suit: Suit,
}

/// The rank value a rank character stands for, or 0 for any other character.
pub open spec fn rank_char_value(c: char) -> int {
    if c == '2' {
        2
    } else if c == '3' {
        3
    } else if c == '4' {
        4
    } else if c == '5' {
        5
    } else if c == '6' {
        6
    } else if c == '7' {
        7
    } else if c == '8' {
        8
    } else if c == '9' {
        9
    } else if c == 'T' {
        10
    } else if c == 'J' {
        11
    } else if c == 'Q' {
        12
    } else if c == 'K' {
        13
    } else if c == 'A' {
        14
    } else {
        0
    }
}

/// The character that renders a rank value; meaningful for values 2 through 14.
pub open spec fn rank_char_of(v: int) -> char {
    if v == 2 {
        '2'
    } else if v == 3 {
        '3'
    } else if v == 4 {
        '4'
    } else if v == 5 {
        '5'
    } else if v == 6 {
        '6'
    } else if v == 7 {
        '7'
    } else if v == 8 {
        '8'
    } else if v == 9 {
        '9'
    } else if v == 10 {
        'T'
    } else if v == 11 {
        'J'
    } else if v == 12 {
        'Q'
    } else if v == 13 {
        'K'
    } else {
        'A'
    }
}

/// The suit a suit character stands for, if any.
pub open spec fn suit_of_char(c: char) -> Option<Suit> {
    if c == 'S' {
        Some(Suit::S)
    } else if c == 'H' {
        Some(Suit::H)
    } else if c == 'C' {
        Some(Suit::C)
    } else if c == 'D' {
        Some(Suit::D)
    } else {
        None
    }
}

/// The character that renders a suit.
pub open spec fn suit_char_of(s: Suit) -> char {
    match s {
        Suit::S => 'S',
        Suit::H => 'H',
        Suit::C => 'C',
        Suit::D => 'D',
    }
}

/// Well-formed card text: exactly a rank character followed by a suit character.
pub open spec fn valid_card_text(t: Seq<char>) -> bool {
    t.len() == 2 && rank_char_value(t[0]) >= 2 && suit_of_char(t[1]) is Some
}

/// The two-character rendering of a card.
pub open spec fn card_text(c: Card) -> Seq<char> {
    seq![rank_char_of(c.spec_value()), suit_char_of(c.spec_suit())]
}

/// The card that well-formed card text denotes.
pub closed spec fn spec_card_of(t: Seq<char>) -> Card {
    Card {
        rank: Rank { value: rank_char_value(t[0]) as u8 },
        suit: suit_of_char(t[1])->Some_0,
    }
}

/// What `spec_card_of` yields on well-formed text: a well-formed card whose
/// text is the input.
pub proof fn lemma_spec_card_of(t: Seq<char>)
    requires
        valid_card_text(t),
    ensures
        spec_card_of(t).wf(),
        card_text(spec_card_of(t)) == t,
        spec_card_of(t).spec_value() == rank_char_value(t[0]),
        Some(spec_card_of(t).spec_suit()) == suit_of_char(t[1]),
{
    assert(card_text(spec_card_of(t)) =~= t);
}

impl Card {
    pub closed spec fn spec_rank(self) -> Rank {
        self.rank
    }

    pub closed spec fn spec_suit(self) -> Suit {
        self.suit
    }

    pub open spec fn spec_value(self) -> int {
        self.spec_rank().spec_value()
    }

    pub open spec fn wf(self) -> bool {
        self.spec_rank().wf()
    }

    pub fn new(rank: Rank, suit: Suit) -> (c: Card)
        ensures
            c.spec_rank() == rank,
            c.spec_suit() == suit,
    {
        Card { rank, suit }
    }

    pub fn value(&self) -> (v: u8)
        ensures
            v as int == self.spec_value(),
    {
        self.rank.value()
    }

    pub fn rank(&self) -> (r: Rank)
        ensures
            r == self.spec_rank(),
    {
        self.rank
    }

    pub fn suit(&self) -> (s: Suit)
        ensures
            s == self.spec_suit(),
    {
        self.suit
    }

    /// Parses `"<rank><suit>"` text, for example `"AS"` or `"TD"`. Exactly the
    /// two-character strings admitted by `valid_card_text` succeed.
    pub fn parse(string: &str) -> (r: Result<Card, EvalError>)
        ensures
            r is Ok <==> valid_card_text(string@),
            r matches Ok(c) ==> {
                &&& c.wf()
                &&& c == spec_card_of(string@)
                &&& c.spec_value() == rank_char_value(string@[0])
                &&& Some(c.spec_suit()) == suit_of_char(string@[1])
                &&& card_text(c) == string@
            },
            r matches Err(e) ==> e == EvalError::InvalidCardFormat,
    {
        if string.unicode_len() != 2 {
            return Err(EvalError::InvalidCardFormat);
        }
        let rank_char = string.get_char(0);
        let rank_value: u8 = if rank_char == '2' {
            2
        } else if rank_char == '3' {
            3
        } else if rank_char == '4' {
            4
        } else if rank_char == '5' {
            5
        } else if rank_char == '6' {
            6
        } else if rank_char == '7' {
            7
        } else if rank_char == '8' {
            8
        } else if rank_char == '9' {
            9
        } else if rank_char == 'T' {
            10
        } else if rank_char == 'J' {
            11
        } else if rank_char == 'Q' {
            12
        } else if rank_char == 'K' {
            13
        } else if rank_char == 'A' {
            14
        } else {
            return Err(EvalError::InvalidCardFormat);
        };
        let suit_char = string.get_char(1);
        let suit: Suit = if suit_char == 'S' {
            Suit::S
        } else if suit_char == 'H' {
            Suit::H
        } else if suit_char == 'C' {
            Suit::C
        } else if suit_char == 'D' {
            Suit::D
        } else {
            return Err(EvalError::InvalidCardFormat);
        };
        let c = Card { rank: Rank { value: rank_value }, suit };
        proof {
            assert(card_text(c) =~= string@);
        }
        Ok(c)
    }

    /// Renders the card as its two-character text.
    pub fn to_text(&self) -> (s: String)
        requires
            self.wf(),
        ensures
            s@ == card_text(*self),
    {
        let rv = self.rank.value;
        let rs: &str = if rv == 2 {
            "2"
        } else if rv == 3 {
            "3"
        } else if rv == 4 {
            "4"
        } else if rv == 5 {
            "5"
        } else if rv == 6 {
            "6"
        } else if rv == 7 {
            "7"
        } else if rv == 8 {
            "8"
        } else if rv == 9 {
            "9"
        } else if rv == 10 {
            "T"
        } else if rv == 11 {
            "J"
        } else if rv == 12 {
            "Q"
        } else if rv == 13 {
            "K"
        } else {
            "A"
        };
        proof {
            reveal_strlit("2");
            reveal_strlit("3");
            reveal_strlit("4");
            reveal_strlit("5");
            reveal_strlit("6");
            reveal_strlit("7");
            reveal_strlit("8");
            reveal_strlit("9");
            reveal_strlit("T");
            reveal_strlit("J");
            reveal_strlit("Q");
            reveal_strlit("K");
            reveal_strlit("A");
            assert(rs@ =~= seq![rank_char_of(self.spec_value())]);
        }
        let ss: &str = match self.suit {
            Suit::S => "S",
            Suit::H => "H",
            Suit::C => "C",
            Suit::D => "D",
        };
        proof {
            reveal_strlit("S");
            reveal_strlit("H");
            reveal_strlit("C");
            reveal_strlit("D");
            assert(ss@ =~= seq![suit_char_of(self.spec_suit())]);
        }
        let out = String::from_str(rs);
        let out = out.concat(ss);
        proof {
            assert(out@ =~= card_text(*self));
        }
        out
    }

    /// Total order by rank value alone; the suit is ignored.
    pub fn compare(a: &Card, b: &Card) -> (r: Ordering)
        ensures
            r == Ordering::Less <==> a.spec_value() < b.spec_value(),
            r == Ordering::Equal <==> a.spec_value() == b.spec_value(),
            r == Ordering::Greater <==> a.spec_value() > b.spec_value(),
    {
        let av = a.rank.value;
        let bv = b.rank.value;
        if av < bv {
            Ordering::Less
        } else if av == bv {
            Ordering::Equal
        } else {
            Ordering::Greater
        }
    }
}

/// Every well-formed card renders to well-formed text that reads back as the
/// same rank value and suit; together with the contracts of `parse` and
/// `to_text` this gives the round trip `parse(to_text(c)) == Ok(c)`.
pub proof fn lemma_card_text_round_trip(c: Card)
    requires
        c.wf(),
    ensures
        valid_card_text(card_text(c)),
        rank_char_value(card_text(c)[0]) == c.spec_value(),
        suit_of_char(card_text(c)[1]) == Some(c.spec_suit()),
{
}

/// Two well-formed cards with the same text are the same card.
pub proof fn lemma_card_text_injective(a: Card, b: Card)
    requires
        a.wf(),
        b.wf(),
        card_text(a) == card_text(b),
    ensures
        a == b,
{
    assert(card_text(a)[0] == card_text(b)[0]);
    assert(card_text(a)[1] == card_text(b)[1]);
}

} // verus!
