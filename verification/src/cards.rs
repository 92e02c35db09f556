//! Playing cards: a card with rank and suit, a 52-card deck with a random
//! shuffle, a two-character text encoding, and a poker hand classifier.
use vstd::prelude::*;
use vstd::string::StrSliceExecFns;
use vstd::string::StringExecFns;

verus! {

/// A card's symbol group; only equality matters (flush detection).
#[derive(Debug, Eq, PartialEq, Structural, Hash, Clone, Copy)]
pub enum CardSuit {
    Heart,
    Diamond,
    Club,
    Spade,
}

/// A card's face value, Two through Ace, totally ordered by `spec_weight`.
#[derive(Debug, Eq, PartialEq, Structural, Hash, Clone, Copy)]
pub enum CardValue {
    Two,
    Three,
    Four,
    Five,
    Six,
    Seven,
    Eight,
    Nine,
    Ten,
    Jack,
    Queen,
    King,
    Ace,
}

/// An immutable (rank, suit) pair; equality is structural.
#[derive(Debug, Eq, PartialEq, Structural, Clone, Copy)]
pub struct Card {
    pub value: CardValue,
    pub suit: CardSuit,
}

impl CardValue {
    /// The rank's integer weight, 2 for Two up to 14 for Ace, used for
    /// ordering and straight-gap arithmetic.
    pub open spec fn spec_weight(self) -> int {
        match self {
            CardValue::Two => 2,
            CardValue::Three => 3,
            CardValue::Four => 4,
            CardValue::Five => 5,
            CardValue::Six => 6,
            CardValue::Seven => 7,
            CardValue::Eight => 8,
            CardValue::Nine => 9,
            CardValue::Ten => 10,
            CardValue::Jack => 11,
            CardValue::Queen => 12,
            CardValue::King => 13,
            CardValue::Ace => 14,
        }
    }

    /// Executable weight, equal to `spec_weight`.
    pub fn weight(self) -> (w: u8)
        ensures
            w as int == self.spec_weight(),
            2 <= w <= 14,
    {
        match self {
            CardValue::Two => 2,
            CardValue::Three => 3,
            CardValue::Four => 4,
            CardValue::Five => 5,
            CardValue::Six => 6,
            CardValue::Seven => 7,
            CardValue::Eight => 8,
            CardValue::Nine => 9,
            CardValue::Ten => 10,
            CardValue::Jack => 11,
            CardValue::Queen => 12,
            CardValue::King => 13,
            CardValue::Ace => 14,
        }
    }
}

impl Card {
    /// Pure constructor: the resulting card holds exactly the given pair.
    pub fn new(value: CardValue, suit: CardSuit) -> (c: Card)
        ensures
            c == (Card { value, suit }),
    {
        Card { value, suit }
    }
}

/// The ten poker hand categories, weakest to strongest.
#[derive(Debug, Eq, PartialEq, Structural, Clone, Copy)]
pub enum HandKind {
    HighCard,
    Pair,
    TwoPairs,
    ThreeOfAKind,
    Straight,
    Flush,
    FullHouse,
    FourOfAKind,
    StraightFlush,
    RoyalFlush,
}

impl HandKind {
    /// The category's strength ordinal, 0 for HighCard up to 9 for
    /// RoyalFlush; two hands' strengths compare by these numbers.
    pub open spec fn spec_ordinal(self) -> int {
        match self {
            HandKind::HighCard => 0,
            HandKind::Pair => 1,
            HandKind::TwoPairs => 2,
            HandKind::ThreeOfAKind => 3,
            HandKind::Straight => 4,
            HandKind::Flush => 5,
            HandKind::FullHouse => 6,
            HandKind::FourOfAKind => 7,
            HandKind::StraightFlush => 8,
            HandKind::RoyalFlush => 9,
        }
    }

    /// Executable ordinal, equal to `spec_ordinal`.
    pub fn ordinal(self) -> (r: u8)
        ensures
            r as int == self.spec_ordinal(),
    {
        match self {
            HandKind::HighCard => 0,
            HandKind::Pair => 1,
            HandKind::TwoPairs => 2,
            HandKind::ThreeOfAKind => 3,
            HandKind::Straight => 4,
            HandKind::Flush => 5,
            HandKind::FullHouse => 6,
            HandKind::FourOfAKind => 7,
            HandKind::StraightFlush => 8,
            HandKind::RoyalFlush => 9,
        }
    }
}

/// Failures of the card routines: a hand of the wrong size, or text that
/// is not a card encoding (carrying the offending text).
#[derive(Debug, Eq, PartialEq, Clone)]
pub enum CardError {
    CardNumbers(usize),
    CardParseError(String),
}

/// The rank character of the two-character card encoding.
pub open spec fn rank_char(v: CardValue) -> char {
    match v {
        CardValue::Two => '2',
        CardValue::Three => '3',
        CardValue::Four => '4',
        CardValue::Five => '5',
        CardValue::Six => '6',
        CardValue::Seven => '7',
        CardValue::Eight => '8',
        CardValue::Nine => '9',
        CardValue::Ten => 'T',
        CardValue::Jack => 'J',
        CardValue::Queen => 'Q',
        CardValue::King => 'K',
        CardValue::Ace => 'A',
    }
}

/// The suit glyph of the two-character card encoding.
pub open spec fn suit_char(s: CardSuit) -> char {
    match s {
        CardSuit::Heart => '♥',
        CardSuit::Diamond => '♦',
        CardSuit::Club => '♣',
        CardSuit::Spade => '♠',
    }
}

/// The rank denoted by a character, if any.
pub open spec fn rank_of_char(c: char) -> Option<CardValue> {
    if c == '2' {
        Some(CardValue::Two)
    } else if c == '3' {
        Some(CardValue::Three)
    } else if c == '4' {
        Some(CardValue::Four)
    } else if c == '5' {
        Some(CardValue::Five)
    } else if c == '6' {
        Some(CardValue::Six)
    } else if c == '7' {
        Some(CardValue::Seven)
    } else if c == '8' {
        Some(CardValue::Eight)
    } else if c == '9' {
        Some(CardValue::Nine)
    } else if c == 'T' {
        Some(CardValue::Ten)
    } else if c == 'J' {
        Some(CardValue::Jack)
    } else if c == 'Q' {
        Some(CardValue::Queen)
    } else if c == 'K' {
        Some(CardValue::King)
    } else if c == 'A' {
        Some(CardValue::Ace)
    } else {
        None
    }
}

/// The suit denoted by a glyph, if any.
pub open spec fn suit_of_char(c: char) -> Option<CardSuit> {
    if c == '♥' {
        Some(CardSuit::Heart)
    } else if c == '♦' {
        Some(CardSuit::Diamond)
    } else if c == '♣' {
        Some(CardSuit::Club)
    } else if c == '♠' {
        Some(CardSuit::Spade)
    } else {
        None
    }
}

/// The two-character text form of a card: rank character, then suit glyph.
pub open spec fn spec_format_card(c: Card) -> Seq<char> {
    seq![rank_char(c.value), suit_char(c.suit)]
}

/// The card denoted by a text, when it is exactly a rank character
/// followed by a suit glyph; `None` on anything else.
pub open spec fn spec_parse_card(s: Seq<char>) -> Option<Card> {
    if s.len() != 2 {
        None
    } else {
        match (rank_of_char(s[0]), suit_of_char(s[1])) {
            (Some(value), Some(suit)) => Some(Card { value, suit }),
            _ => None,
        }
    }
}

impl Card {
    /// Decode the two-character card encoding: inverse of `to_text`.
    /// Fails, returning the original text, on any other input.
    pub fn from_string(s: &str) -> (r: Result<Card, CardError>)
        ensures
            match r {
                Ok(c) => spec_parse_card(s@) == Some(c),
                Err(e) => spec_parse_card(s@) is None && (e matches CardError::CardParseError(
                    t,
                ) && t@ == s@),
            },
    {
        let len = s.unicode_len();
        if len != 2 {
            return Err(CardError::CardParseError(s.to_owned()));
        }
        let c0 = s.get_char(0);
        let value = if c0 == '2' {
            CardValue::Two
        } else if c0 == '3' {
            CardValue::Three
        } else if c0 == '4' {
            CardValue::Four
        } else if c0 == '5' {
            CardValue::Five
        } else if c0 == '6' {
            CardValue::Six
        } else if c0 == '7' {
            CardValue::Seven
        } else if c0 == '8' {
            CardValue::Eight
        } else if c0 == '9' {
            CardValue::Nine
        } else if c0 == 'T' {
            CardValue::Ten
        } else if c0 == 'J' {
            CardValue::Jack
        } else if c0 == 'Q' {
            CardValue::Queen
        } else if c0 == 'K' {
            CardValue::King
        } else if c0 == 'A' {
            CardValue::Ace
        } else {
            return Err(CardError::CardParseError(s.to_owned()));
        };
        let c1 = s.get_char(1);
        let suit = if c1 == '♥' {
            CardSuit::Heart
        } else if c1 == '♦' {
            CardSuit::Diamond
        } else if c1 == '♣' {
            CardSuit::Club
        } else if c1 == '♠' {
            CardSuit::Spade
        } else {
            return Err(CardError::CardParseError(s.to_owned()));
        };
        Ok(Card { value, suit })
    }

    /// Encode the card as its two-character text form.
    pub fn to_text(&self) -> (r: String)
        ensures
            r@ == spec_format_card(*self),
    {
        let value: &str = match self.value {
            CardValue::Two => "2",
            CardValue::Three => "3",
            CardValue::Four => "4",
            CardValue::Five => "5",
            CardValue::Six => "6",
            CardValue::Seven => "7",
            CardValue::Eight => "8",
            CardValue::Nine => "9",
            CardValue::Ten => "T",
            CardValue::Jack => "J",
            CardValue::Queen => "Q",
            CardValue::King => "K",
            CardValue::Ace => "A",
        };
        let suit: &str = match self.suit {
            CardSuit::Heart => "♥",
            CardSuit::Diamond => "♦",
            CardSuit::Club => "♣",
            CardSuit::Spade => "♠",
        };
        proof {
            reveal_strlit("2");
            reveal_strlit("3");
            reveal_strlit("4");
            reveal_strlit("5");
            reveal_strlit("6");
            reveal_strlit("7");
            reveal_strlit("8");
            reveal_strlit("9");
            reveal_strlit("T");
            reveal_strlit("J");
            reveal_strlit("Q");
            reveal_strlit("K");
            reveal_strlit("A");
            reveal_strlit("♥");
            reveal_strlit("♦");
            reveal_strlit("♣");
            reveal_strlit("♠");
        }
        let mut t = value.to_owned();
        t.append(suit);
        proof {
            assert(t@ =~= spec_format_card(*self));
        }
        t
    }
}

/// An ordered sequence of cards; fresh decks hold each of the 52
/// (rank, suit) combinations exactly once.
#[derive(Debug, Eq, PartialEq, Clone)]
pub struct Deck {
    pub cards: Vec<Card>,
}

/// The rank enumerated at position `i` of the fixed deck order, Two first.
pub open spec fn value_at(i: int) -> CardValue {
    if i == 0 {
        CardValue::Two
    } else if i == 1 {
        CardValue::Three
    } else if i == 2 {
        CardValue::Four
    } else if i == 3 {
        CardValue::Five
    } else if i == 4 {
        CardValue::Six
    } else if i == 5 {
        CardValue::Seven
    } else if i == 6 {
        CardValue::Eight
    } else if i == 7 {
        CardValue::Nine
    } else if i == 8 {
        CardValue::Ten
    } else if i == 9 {
        CardValue::Jack
    } else if i == 10 {
        CardValue::Queen
    } else if i == 11 {
        CardValue::King
    } else {
        CardValue::Ace
    }
}

/// The suit enumerated at position `i` of the fixed deck order.
pub open spec fn suit_at(i: int) -> CardSuit {
    if i == 0 {
        CardSuit::Heart
    } else if i == 1 {
        CardSuit::Diamond
    } else if i == 2 {
        CardSuit::Club
    } else {
        CardSuit::Spade
    }
}

/// The position of a rank in the fixed deck order.
pub open spec fn value_index(v: CardValue) -> int {
    v.spec_weight() - 2
}

/// The position of a suit in the fixed deck order.
pub open spec fn suit_index(s: CardSuit) -> int {
    match s {
        CardSuit::Heart => 0,
        CardSuit::Diamond => 1,
        CardSuit::Club => 2,
        CardSuit::Spade => 3,
    }
}

/// Card `i` of a fresh deck: ranks ascending in the outer position,
/// suits cycling in the inner one.
pub open spec fn deck_card_at(i: int) -> Card {
    Card { value: value_at(i / 4), suit: suit_at(i % 4) }
}

/// Executable twin of `value_at`.
fn value_of_index(i: usize) -> (v: CardValue)
    requires
        i < 13,
    ensures
        v == value_at(i as int),
{
    if i == 0 {
        CardValue::Two
    } else if i == 1 {
        CardValue::Three
    } else if i == 2 {
        CardValue::Four
    } else if i == 3 {
        CardValue::Five
    } else if i == 4 {
        CardValue::Six
    } else if i == 5 {
        CardValue::Seven
    } else if i == 6 {
        CardValue::Eight
    } else if i == 7 {
        CardValue::Nine
    } else if i == 8 {
        CardValue::Ten
    } else if i == 9 {
        CardValue::Jack
    } else if i == 10 {
        CardValue::Queen
    } else if i == 11 {
        CardValue::King
    } else {
        CardValue::Ace
    }
}

/// Executable twin of `suit_at`.
fn suit_of_index(i: usize) -> (s: CardSuit)
    requires
        i < 4,
    ensures
        s == suit_at(i as int),
{
    if i == 0 {
        CardSuit::Heart
    } else if i == 1 {
        CardSuit::Diamond
    } else if i == 2 {
        CardSuit::Club
    } else {
        CardSuit::Spade
    }
}

/// The text form of a deck: card texts joined by single spaces.
pub open spec fn spec_format_deck(s: Seq<Card>) -> Seq<char>
    decreases s.len(),
{
    if s.len() == 0 {
        Seq::empty()
    } else if s.len() == 1 {
        spec_format_card(s[0])
    } else {
        spec_format_deck(s.drop_last()) + seq![' '] + spec_format_card(s.last())
    }
}

/// Relies on rand's `SliceRandom::shuffle` with `rand::thread_rng`: it
/// reorders the slice in place, so whatever permutation comes out, the
/// multiset of elements and the length are unchanged.
#[verifier::external_body]
fn shuffle_in_place(cards: &mut Vec<Card>)
    ensures
        final(cards)@.to_multiset() == old(cards)@.to_multiset(),
        final(cards)@.len() == old(cards)@.len(),
{
    let mut rng = rand::thread_rng();
    rand::seq::SliceRandom::shuffle(cards.as_mut_slice(), &mut rng);
}

impl Deck {
    /// A fresh deck: all 52 cards in the fixed enumeration order, so each
    /// (rank, suit) combination appears exactly once and two fresh decks
    /// are equal.
    pub fn new() -> (d: Deck)
        ensures
            d.cards@.len() == 52,
            forall|i: int| 0 <= i < 52 ==> d.cards@[i] == deck_card_at(i),
            forall|i: int, j: int| 0 <= i < j < 52 ==> d.cards@[i] != d.cards@[j],
            forall|v: CardValue, s: CardSuit|
                #![trigger value_index(v), suit_index(s)]
                d.cards@[value_index(v) * 4 + suit_index(s)] == (Card { value: v, suit: s }),
    {
        let mut cards: Vec<Card> = Vec::new();
        let mut i: usize = 0;
        while i < 52
            invariant
                i <= 52,
                cards@.len() == i,
                forall|k: int| 0 <= k < i ==> cards@[k] == deck_card_at(k),
            decreases 52 - i,
        {
            let card = Card { value: value_of_index(i / 4), suit: suit_of_index(i % 4) };
            cards.push(card);
            i += 1;
        }
        proof {
            assert forall|k: int| 0 <= k < 13 implies value_at(k).spec_weight() == k + 2 by {}
            assert forall|k: int| 0 <= k < 4 implies suit_index(suit_at(k)) == k by {}
            assert forall|i: int, j: int| 0 <= i < j < 52 implies cards@[i] != cards@[j] by {
                assert(cards@[i] == deck_card_at(i) && cards@[j] == deck_card_at(j));
                if i / 4 == j / 4 && i % 4 == j % 4 {
                    assert(i == j);
                } else if i / 4 != j / 4 {
                    assert(value_at(i / 4).spec_weight() != value_at(j / 4).spec_weight());
                } else {
                    assert(suit_index(suit_at(i % 4)) != suit_index(suit_at(j % 4)));
                }
            }
            assert forall|v: CardValue, s: CardSuit|
                #![trigger value_index(v), suit_index(s)]
                cards@[value_index(v) * 4 + suit_index(s)] == (Card { value: v, suit: s }) by {
                let n = value_index(v) * 4 + suit_index(s);
                assert(0 <= suit_index(s) < 4);
                assert(0 <= value_index(v) < 13);
                assert(0 <= n < 52);
                assert(n / 4 == value_index(v) && n % 4 == suit_index(s));
                assert(value_at(value_index(v)) == v);
                assert(suit_at(suit_index(s)) == s);
                assert(cards@[n] == deck_card_at(n));
            }
        }
        Deck { cards }
    }

    /// Reorder the deck in place by a random permutation: the multiset of
    /// cards is unchanged, only their order may differ.
    pub fn shuffle(&mut self)
        ensures
            final(self).cards@.to_multiset() == old(self).cards@.to_multiset(),
            final(self).cards@.len() == old(self).cards@.len(),
    {
        shuffle_in_place(&mut self.cards);
    }

    /// Encode the deck as card texts joined by single spaces, in order.
    pub fn to_text(&self) -> (r: String)
        ensures
            r@ == spec_format_deck(self.cards@),
    {
        let mut t = String::new();
        let mut i: usize = 0;
        proof {
            reveal_strlit(" ");
        }
        while i < self.cards.len()
            invariant
                i <= self.cards@.len(),
                t@ == spec_format_deck(self.cards@.take(i as int)),
                " "@ == seq![' '],
            decreases self.cards@.len() - i,
        {
            if i > 0 {
                t.append(" ");
            }
            let c = self.cards[i].to_text();
            t.append(c.as_str());
            proof {
                let s = self.cards@;
                assert(s.take(i as int + 1).drop_last() =~= s.take(i as int));
                assert(s.take(i as int + 1).last() == s[i as int]);
                if i == 0 {
                    assert(t@ =~= spec_format_deck(s.take(1)));
                } else {
                    assert(t@ =~= spec_format_deck(s.take(i as int + 1)));
                }
            }
            i += 1;
        }
        proof {
            assert(self.cards@.take(self.cards@.len() as int) =~= self.cards@);
        }
        t
    }
}

/// How many cards of the hand carry the rank `v`.
pub open spec fn count_value(s: Seq<Card>, v: CardValue) -> int
    decreases s.len(),
{
    if s.len() == 0 {
        0
    } else {
        count_value(s.drop_last(), v) + if s.last().value == v {
            1int
        } else {
            0int
        }
    }
}

/// How many of the ranks enumerated before position `m` occur exactly `k`
/// times in the hand.
pub open spec fn num_values_with_count_up_to(s: Seq<Card>, k: int, m: int) -> int
    decreases m,
{
    if m <= 0 {
        0
    } else {
        num_values_with_count_up_to(s, k, m - 1) + if count_value(s, value_at(m - 1)) == k {
            1int
        } else {
            0int
        }
    }
}

/// How many distinct ranks occur exactly `k` times in the hand.
pub open spec fn num_values_with_count(s: Seq<Card>, k: int) -> int {
    num_values_with_count_up_to(s, k, 13)
}

/// All cards of the hand share one suit.
pub open spec fn is_flush(s: Seq<Card>) -> bool {
    forall|i: int| 0 <= i < s.len() ==> #[trigger] s[i].suit == s[0].suit
}

/// The largest rank weight in the hand (0 when it is empty).
pub open spec fn max_weight(s: Seq<Card>) -> int
    decreases s.len(),
{
    if s.len() == 0 {
        0
    } else if s.len() == 1 {
        s[0].value.spec_weight()
    } else {
        let rest = max_weight(s.drop_last());
        let w = s.last().value.spec_weight();
        if w > rest {
            w
        } else {
            rest
        }
    }
}

/// The smallest rank weight in the hand (0 when it is empty).
pub open spec fn min_weight(s: Seq<Card>) -> int
    decreases s.len(),
{
    if s.len() == 0 {
        0
    } else if s.len() == 1 {
        s[0].value.spec_weight()
    } else {
        let rest = min_weight(s.drop_last());
        let w = s.last().value.spec_weight();
        if w < rest {
            w
        } else {
            rest
        }
    }
}

/// Five distinct ranks spanning a weight window of exactly 4: consecutive
/// weights with no repeats. An ace always weighs 14, so the wheel
/// A-2-3-4-5 does not count as a straight here.
pub open spec fn is_straight(s: Seq<Card>) -> bool {
    num_values_with_count(s, 1) == 5 && max_weight(s) - min_weight(s) == 4
}

/// The category of a five-card hand, by the fixed precedence: royal and
/// straight flushes first, then flush, then straight, then the rank
/// multiplicity patterns.
pub open spec fn classify(s: Seq<Card>) -> HandKind
    recommends
        s.len() == 5,
{
    let fl = is_flush(s);
    let st = is_straight(s);
    if st && fl && max_weight(s) == 14 {
        HandKind::RoyalFlush
    } else if st && fl {
        HandKind::StraightFlush
    } else if fl {
        HandKind::Flush
    } else if st {
        HandKind::Straight
    } else {
        let pairs = num_values_with_count(s, 2);
        let triples = num_values_with_count(s, 3);
        let quads = num_values_with_count(s, 4);
        if pairs == 0 && triples == 0 && quads == 1 {
            HandKind::FourOfAKind
        } else if pairs == 0 && triples == 1 && quads == 0 {
            HandKind::ThreeOfAKind
        } else if pairs == 1 && triples == 1 && quads == 0 {
            HandKind::FullHouse
        } else if pairs == 2 && triples == 0 && quads == 0 {
            HandKind::TwoPairs
        } else if pairs == 1 && triples == 0 && quads == 0 {
            HandKind::Pair
        } else {
            HandKind::HighCard
        }
    }
}

/// Count the cards of rank `v` in the hand.
fn count_value_in(cards: &Vec<Card>, v: CardValue) -> (c: u8)
    requires
        cards@.len() <= 255,
    ensures
        c as int == count_value(cards@, v),
{
    let mut c: u8 = 0;
    let mut j: usize = 0;
    while j < cards.len()
        invariant
            j <= cards@.len() <= 255,
            c <= j,
            c as int == count_value(cards@.take(j as int), v),
        decreases cards@.len() - j,
    {
        if cards[j].value == v {
            c += 1;
        }
        proof {
            let s = cards@;
            assert(s.take(j as int + 1).drop_last() =~= s.take(j as int));
            assert(s.take(j as int + 1).last() == s[j as int]);
        }
        j += 1;
    }
    proof {
        assert(cards@.take(cards@.len() as int) =~= cards@);
    }
    c
}

/// Do all cards share the suit of the first one?
fn check_flush(cards: &Vec<Card>) -> (b: bool)
    requires
        1 <= cards@.len(),
    ensures
        b == is_flush(cards@),
{
    let first = cards[0].suit;
    let mut i: usize = 1;
    while i < cards.len()
        invariant
            1 <= i <= cards@.len(),
            first == cards@[0].suit,
            forall|j: int| 0 <= j < i ==> #[trigger] cards@[j].suit == cards@[0].suit,
        decreases cards@.len() - i,
    {
        if cards[i].suit != first {
            return false;
        }
        i += 1;
    }
    true
}

/// The smallest and largest rank weights in the hand.
fn minmax_weight(cards: &Vec<Card>) -> (r: (u8, u8))
    requires
        1 <= cards@.len(),
    ensures
        r.0 as int == min_weight(cards@),
        r.1 as int == max_weight(cards@),
        2 <= r.0 <= r.1 <= 14,
{
    let mut mn = cards[0].value.weight();
    let mut mx = mn;
    let mut i: usize = 1;
    proof {
        assert(cards@.take(1).len() == 1 && cards@.take(1)[0] == cards@[0]);
    }
    while i < cards.len()
        invariant
            1 <= i <= cards@.len(),
            mn as int == min_weight(cards@.take(i as int)),
            mx as int == max_weight(cards@.take(i as int)),
            2 <= mn <= 14,
            2 <= mx <= 14,
            mn <= mx,
        decreases cards@.len() - i,
    {
        let w = cards[i].value.weight();
        if w < mn {
            mn = w;
        }
        if w > mx {
            mx = w;
        }
        proof {
            let s = cards@;
            assert(s.take(i as int + 1).drop_last() =~= s.take(i as int));
            assert(s.take(i as int + 1).last() == s[i as int]);
        }
        i += 1;
    }
    proof {
        assert(cards@.take(cards@.len() as int) =~= cards@);
    }
    (mn, mx)
}

/// Count the distinct ranks that occur exactly `k` times in the hand.
fn num_values_with_count_in(cards: &Vec<Card>, k: u8) -> (n: u8)
    requires
        cards@.len() <= 255,
    ensures
        n as int == num_values_with_count(cards@, k as int),
{
    let mut n: u8 = 0;
    let mut m: usize = 0;
    while m < 13
        invariant
            m <= 13,
            n <= m,
            cards@.len() <= 255,
            n as int == num_values_with_count_up_to(cards@, k as int, m as int),
        decreases 13 - m,
    {
        let v = value_of_index(m);
        let c = count_value_in(cards, v);
        if c == k {
            n += 1;
        }
        m += 1;
    }
    n
}

/// Classify an unordered hand of exactly 5 cards into its poker category.
/// A hand of any other size is rejected with `CardNumbers` carrying the
/// actual length; duplicate cards within the 5 are not rejected.
pub fn eval_hand(cards: Vec<Card>) -> (r: Result<HandKind, CardError>)
    ensures
        cards@.len() == 5 ==> r == Ok::<HandKind, CardError>(classify(cards@)),
        cards@.len() != 5 ==> r == Err::<HandKind, CardError>(
            CardError::CardNumbers(cards@.len() as usize),
        ),
{
    if cards.len() != 5 {
        return Err(CardError::CardNumbers(cards.len()));
    }
    let flush = check_flush(&cards);
    let (mn, mx) = minmax_weight(&cards);
    let singles = num_values_with_count_in(&cards, 1);
    let straight = singles == 5 && mx - mn == 4;
    if straight && flush && mx == 14 {
        Ok(HandKind::RoyalFlush)
    } else if straight && flush {
        Ok(HandKind::StraightFlush)
    } else if flush {
        Ok(HandKind::Flush)
    } else if straight {
        Ok(HandKind::Straight)
    } else {
        let pairs = num_values_with_count_in(&cards, 2);
        let triples = num_values_with_count_in(&cards, 3);
        let quads = num_values_with_count_in(&cards, 4);
        if pairs == 0 && triples == 0 && quads == 1 {
            Ok(HandKind::FourOfAKind)
        } else if pairs == 0 && triples == 1 && quads == 0 {
            Ok(HandKind::ThreeOfAKind)
        } else if pairs == 1 && triples == 1 && quads == 0 {
            Ok(HandKind::FullHouse)
        } else if pairs == 2 && triples == 0 && quads == 0 {
            Ok(HandKind::TwoPairs)
        } else if pairs == 1 && triples == 0 && quads == 0 {
            Ok(HandKind::Pair)
        } else {
            Ok(HandKind::HighCard)
        }
    }
}

/// Round trip: decoding the text form of any card gives the card back.
pub proof fn lemma_parse_format_roundtrip(c: Card)
    ensures
        spec_parse_card(spec_format_card(c)) == Some(c),
{
    let s = spec_format_card(c);
    assert(s.len() == 2 && s[0] == rank_char(c.value) && s[1] == suit_char(c.suit));
    assert(rank_of_char(rank_char(c.value)) == Some(c.value));
    assert(suit_of_char(suit_char(c.suit)) == Some(c.suit));
}

} // verus!
