use deckt::error::DecktError;
use deckt::models::{faction_code, Card, Deck, DeckData};
use deckt::utils::u32_to_string;
use lordeckcodes::encoder::code_from_deck;
use lordeckcodes::{CardCodeAndCount, Deck as LorDeck};

fn mk_deck(deck_code: &str) -> Deck {
    Deck {
        uid: "u".to_string(),
        deck_code: deck_code.to_string(),
        title: String::new(),
        description: String::new(),
        rating: 0,
        mode: "standard".to_string(),
        playstyle: "aggro".to_string(),
        created_at_ms: 1_600_000_000_000,
        changed_at_ms: 1_600_000_000_000,
        is_private: false,
        is_draft: false,
        is_riot: false,
    }
}

#[test]
fn test_cards_decoded_from_real_code() {
    // encode a known card list, then decode it through the library
    let lor = LorDeck::from_vec(vec![
        CardCodeAndCount::from_data("01SI015", 3).unwrap(),
        CardCodeAndCount::from_data("02FR004", 2).unwrap(),
    ]);
    let code = code_from_deck(&lor).unwrap();
    let deck = mk_deck(&code);
    let cards = Card::from_deck(&deck).unwrap();
    assert_eq!(cards.len(), 2);
    // count-3 groups come out of the decoder first
    assert_eq!(cards[0].code, "01SI015");
    assert_eq!(cards[0].set, 1);
    assert_eq!(cards[0].faction, 5);
    assert_eq!(cards[0].number, 15);
    assert_eq!(cards[0].count, 3);
    assert_eq!(cards[0].deck_code, code);
    assert_eq!(cards[1].code, "02FR004");
    assert_eq!(cards[1].faction, 1);
    assert_eq!(cards[1].count, 2);
}

#[test]
fn test_get_deck_cards_matches_from_deck() {
    let lor = LorDeck::from_vec(vec![CardCodeAndCount::from_data("01DE002", 1).unwrap()]);
    let code = code_from_deck(&lor).unwrap();
    let deck = mk_deck(&code);
    let a = deck.get_deck_cards().unwrap();
    let b = Card::from_deck(&deck).unwrap();
    assert_eq!(a.len(), 1);
    assert_eq!(a[0].code, b[0].code);
    assert_eq!(a[0].code, "01DE002");
}

#[test]
fn test_unterminated_varint_code_gives_none() {
    // a crafted code whose first integer field never terminates: the
    // library rejects it instead of handing it to the decoder
    let code = data_encoding::BASE32_NOPAD.encode(&[0x11, 0xFF, 0xFF, 0xFF, 0xFF, 0xFF, 0x7F]);
    let deck = mk_deck(&code);
    assert!(Card::from_deck(&deck).is_none());
    assert!(deck.get_deck_cards().is_none());
}

#[test]
fn test_invalid_deck_code_gives_none() {
    let deck = mk_deck("this is no deck code");
    assert!(Card::from_deck(&deck).is_none());
    assert!(deck.get_deck_cards().is_none());
}

#[test]
fn test_faction_codes() {
    assert_eq!(faction_code(0), Some("DE"));
    assert_eq!(faction_code(1), Some("FR"));
    assert_eq!(faction_code(2), Some("IO"));
    assert_eq!(faction_code(3), Some("NX"));
    assert_eq!(faction_code(4), Some("PZ"));
    assert_eq!(faction_code(5), Some("SI"));
    assert_eq!(faction_code(6), Some("BW"));
    assert_eq!(faction_code(9), Some("MT"));
    assert_eq!(faction_code(7), None);
    assert_eq!(faction_code(10), None);
}

#[test]
fn test_u32_rendering() {
    assert_eq!(u32_to_string(0), "0");
    assert_eq!(u32_to_string(7), "7");
    assert_eq!(u32_to_string(1234), "1234");
    assert_eq!(u32_to_string(4294967295), "4294967295");
}

#[test]
fn test_deck_data_accessors() {
    let dd = DeckData { has_next: true, decks: vec![mk_deck("X")] };
    let decks = dd.decks();
    assert_eq!(decks.len(), 1);
    assert_eq!(decks[0].deck_code(), "X");
    let empty = DeckData::default();
    assert_eq!(empty.has_next, false);
    assert_eq!(empty.decks.len(), 0);
}

#[test]
fn test_error_messages() {
    let e = DecktError::RequestError { msg: "boom".to_string() };
    assert_eq!(e.message(), "Unable to build request - Reason > boom");
    assert_eq!(DecktError::Unknown.message(), "An unknown error occured.");
}
