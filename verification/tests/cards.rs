use tinyrasputin::skeleton::cards::{Card, CardConversionError, CardSuit, CardValue};

#[test]
fn cards_parse_from_two_characters() {
    assert_eq!(Card::parse("Tc").unwrap(), Card::new(CardSuit::Clubs, CardValue::Ten));
    assert_eq!("2h".parse::<Card>().unwrap(), Card::new(CardSuit::Hearts, CardValue::Two));
    assert_eq!("As".parse::<Card>().unwrap().value(), CardValue::Ace);
    assert_eq!("Kd".parse::<Card>().unwrap().suit(), CardSuit::Diamonds);
}

#[test]
fn card_errors() {
    assert!(matches!(Card::parse("Tcc"), Err(CardConversionError::TooLong(s)) if s == "Tcc"));
    assert!(matches!(Card::parse("T"), Err(CardConversionError::NotACard(s)) if s == "T"));
    assert!(matches!(Card::parse(""), Err(CardConversionError::NotACard(s)) if s == ""));
    assert!(matches!(Card::parse("1c"), Err(CardConversionError::InvalidValue('1'))));
    assert!(matches!(Card::parse("Tx"), Err(CardConversionError::InvalidSuit('x'))));
    assert!(matches!(Card::parse("1x"), Err(CardConversionError::InvalidValue('1'))));
}

#[test]
fn value_and_suit_errors() {
    assert!(matches!(CardValue::parse(""), Err(CardConversionError::Empty)));
    assert!(matches!(CardValue::parse("10"), Err(CardConversionError::TooLong(s)) if s == "10"));
    assert!(matches!(CardValue::parse("t"), Err(CardConversionError::InvalidValue('t'))));
    assert!(matches!(CardSuit::parse(""), Err(CardConversionError::Empty)));
    assert!(matches!(CardSuit::parse("hh"), Err(CardConversionError::TooLong(s)) if s == "hh"));
    assert!(matches!(CardSuit::parse("H"), Err(CardConversionError::InvalidSuit('H'))));
    assert!(matches!("c".parse::<CardSuit>(), Ok(CardSuit::Clubs)));
    assert!(matches!("Q".parse::<CardValue>(), Ok(CardValue::Queen)));
}

#[test]
fn every_rank_and_suit_round_trips() {
    let ranks = "23456789TJQKA";
    for (i, b) in ranks.bytes().enumerate() {
        let v = CardValue::from_byte(b).unwrap();
        assert_eq!(v.canonical_index(), i);
        assert_eq!(v.to_byte(), b);
        assert_eq!(CardValue::from_canonical_index(i), v);
    }
    for b in "hdsc".bytes() {
        assert_eq!(CardSuit::from_byte(b).unwrap().to_byte(), b);
    }
    assert_eq!(Card::new(CardSuit::Spades, CardValue::Jack).to_bytes(), b"Js".to_vec());
}
