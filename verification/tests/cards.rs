use cardmath::cards::Card;
use cardmath::cards::CardError;
use cardmath::cards::CardSuit;
use cardmath::cards::CardValue;
use cardmath::cards::Deck;
use cardmath::cards::HandKind;
use cardmath::cards::eval_hand;

const ALL_VALUES: [CardValue; 13] = [
    CardValue::Two,
    CardValue::Three,
    CardValue::Four,
    CardValue::Five,
    CardValue::Six,
    CardValue::Seven,
    CardValue::Eight,
    CardValue::Nine,
    CardValue::Ten,
    CardValue::Jack,
    CardValue::Queen,
    CardValue::King,
    CardValue::Ace,
];

const ALL_SUITS: [CardSuit; 4] = [
    CardSuit::Heart,
    CardSuit::Diamond,
    CardSuit::Club,
    CardSuit::Spade,
];

fn hand(texts: [&str; 5]) -> Vec<Card> {
    texts
        .iter()
        .map(|t| Card::from_string(t).expect("hand text must parse"))
        .collect()
}

#[test]
fn card_new_keeps_fields() {
    let c = Card::new(CardValue::Queen, CardSuit::Club);
    assert_eq!(c.value, CardValue::Queen);
    assert_eq!(c.suit, CardSuit::Club);
}

#[test]
fn round_trip_every_card() {
    for v in ALL_VALUES {
        for s in ALL_SUITS {
            let c = Card::new(v, s);
            let text = c.to_text();
            assert_eq!(Card::from_string(&text), Ok(c));
        }
    }
}

#[test]
fn card_text_examples() {
    assert_eq!(Card::new(CardValue::Two, CardSuit::Heart).to_text(), "2♥");
    assert_eq!(Card::new(CardValue::Ten, CardSuit::Diamond).to_text(), "T♦");
    assert_eq!(Card::new(CardValue::Ace, CardSuit::Spade).to_text(), "A♠");
}

#[test]
fn parse_examples() {
    assert_eq!(
        Card::from_string("K♣"),
        Ok(Card::new(CardValue::King, CardSuit::Club))
    );
    assert_eq!(
        Card::from_string("9♥"),
        Ok(Card::new(CardValue::Nine, CardSuit::Heart))
    );
}

#[test]
fn parse_rejects_bad_text() {
    for bad in ["", "A", "♥", "1♥", "a♥", "AX", "A♥♥", "A♥ ", " A♥", "10♥"] {
        assert_eq!(
            Card::from_string(bad),
            Err(CardError::CardParseError(bad.to_string()))
        );
    }
}

#[test]
fn new_deck_has_every_card_once() {
    let deck = Deck::new();
    assert_eq!(deck.cards.len(), 52);
    for v in ALL_VALUES {
        for s in ALL_SUITS {
            let wanted = Card::new(v, s);
            let copies = deck.cards.iter().filter(|c| **c == wanted).count();
            assert_eq!(copies, 1);
        }
    }
}

#[test]
fn fresh_decks_are_equal() {
    assert_eq!(Deck::new(), Deck::new());
}

#[test]
fn deck_starts_with_the_twos() {
    let deck = Deck::new();
    let text = deck.to_text();
    assert!(text.starts_with("2♥ 2♦ 2♣ 2♠ 3♥"));
    assert!(text.ends_with("A♥ A♦ A♣ A♠"));
}

#[test]
fn deck_text_joins_with_spaces() {
    let deck = Deck {
        cards: vec![
            Card::new(CardValue::Ace, CardSuit::Heart),
            Card::new(CardValue::King, CardSuit::Spade),
        ],
    };
    assert_eq!(deck.to_text(), "A♥ K♠");
    let empty = Deck { cards: vec![] };
    assert_eq!(empty.to_text(), "");
}

#[test]
fn shuffle_keeps_the_same_cards() {
    let reference = Deck::new();
    let mut deck = Deck::new();
    deck.shuffle();
    assert_eq!(deck.cards.len(), 52);
    for wanted in &reference.cards {
        let copies = deck.cards.iter().filter(|c| *c == wanted).count();
        assert_eq!(copies, 1);
    }
}

#[test]
fn eval_rejects_wrong_sizes() {
    let four = vec![
        Card::new(CardValue::Two, CardSuit::Heart),
        Card::new(CardValue::Three, CardSuit::Heart),
        Card::new(CardValue::Four, CardSuit::Heart),
        Card::new(CardValue::Five, CardSuit::Heart),
    ];
    assert_eq!(eval_hand(four), Err(CardError::CardNumbers(4)));
    let mut six = hand(["2♥", "3♥", "4♥", "5♥", "6♥"]);
    six.push(Card::new(CardValue::Seven, CardSuit::Heart));
    assert_eq!(eval_hand(six), Err(CardError::CardNumbers(6)));
    assert_eq!(eval_hand(vec![]), Err(CardError::CardNumbers(0)));
}

#[test]
fn eval_royal_flush() {
    assert_eq!(
        eval_hand(hand(["A♥", "K♥", "Q♥", "J♥", "T♥"])),
        Ok(HandKind::RoyalFlush)
    );
}

#[test]
fn eval_straight_flush() {
    assert_eq!(
        eval_hand(hand(["9♥", "8♥", "7♥", "6♥", "5♥"])),
        Ok(HandKind::StraightFlush)
    );
}

#[test]
fn eval_flush() {
    assert_eq!(
        eval_hand(hand(["2♥", "4♥", "6♥", "8♥", "K♥"])),
        Ok(HandKind::Flush)
    );
}

#[test]
fn eval_straight() {
    assert_eq!(
        eval_hand(hand(["5♥", "6♦", "7♣", "8♠", "9♥"])),
        Ok(HandKind::Straight)
    );
}

#[test]
fn eval_four_of_a_kind() {
    assert_eq!(
        eval_hand(hand(["2♥", "2♦", "2♣", "2♠", "9♥"])),
        Ok(HandKind::FourOfAKind)
    );
}

#[test]
fn eval_full_house() {
    assert_eq!(
        eval_hand(hand(["3♥", "3♦", "3♣", "9♠", "9♥"])),
        Ok(HandKind::FullHouse)
    );
}

#[test]
fn eval_three_of_a_kind() {
    assert_eq!(
        eval_hand(hand(["3♥", "3♦", "3♣", "9♠", "5♥"])),
        Ok(HandKind::ThreeOfAKind)
    );
}

#[test]
fn eval_two_pairs() {
    assert_eq!(
        eval_hand(hand(["2♥", "2♦", "9♣", "9♠", "5♥"])),
        Ok(HandKind::TwoPairs)
    );
}

#[test]
fn eval_pair() {
    assert_eq!(
        eval_hand(hand(["2♥", "2♦", "9♣", "J♠", "5♥"])),
        Ok(HandKind::Pair)
    );
}

#[test]
fn eval_ace_low_is_no_straight() {
    assert_eq!(
        eval_hand(hand(["A♥", "2♦", "3♣", "4♠", "5♥"])),
        Ok(HandKind::HighCard)
    );
}

#[test]
fn eval_high_card() {
    assert_eq!(
        eval_hand(hand(["2♥", "3♦", "5♣", "7♠", "9♥"])),
        Ok(HandKind::HighCard)
    );
}

#[test]
fn eval_allows_duplicate_cards() {
    assert_eq!(
        eval_hand(hand(["2♥", "2♥", "9♦", "9♣", "5♠"])),
        Ok(HandKind::TwoPairs)
    );
    // Five copies of one card share a suit but no rank occurs exactly
    // once, so the fixed precedence calls them a flush.
    assert_eq!(
        eval_hand(hand(["2♥", "2♥", "2♥", "2♥", "2♥"])),
        Ok(HandKind::Flush)
    );
}

#[test]
fn hand_kinds_are_ordered_by_ordinal() {
    let order = [
        HandKind::HighCard,
        HandKind::Pair,
        HandKind::TwoPairs,
        HandKind::ThreeOfAKind,
        HandKind::Straight,
        HandKind::Flush,
        HandKind::FullHouse,
        HandKind::FourOfAKind,
        HandKind::StraightFlush,
        HandKind::RoyalFlush,
    ];
    for (i, kind) in order.iter().enumerate() {
        assert_eq!(kind.ordinal() as usize, i);
    }
}
