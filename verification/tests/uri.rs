use deckt::decks::{DeckCategory, DeckSort, DeckUri};

#[test]
fn test_build_uri_from_all() {
    let deck = DeckUri::create(
        Some(DeckSort::Hot),
        Some(1000),
        Some(4000),
        Some(DeckCategory::Community),
    );
    assert_eq!(
        deck.to_string(),
        "https://lor.mobalytics.gg/api/v2/decks/library?sortBy=hot&from=1000&count=4000&category=COMMUNITY"
    )
}

#[test]
fn test_new_fills_defaults() {
    let deck = DeckUri::new(Some(1000));
    assert_eq!(deck.count, 1000);
    assert!(matches!(deck.sort_by, Some(DeckSort::RecentlyUpdated)));
    assert_eq!(deck.from, Some(0));
    assert!(matches!(deck.category, Some(DeckCategory::Community)));
    assert_eq!(
        deck.to_string(),
        "https://lor.mobalytics.gg/api/v2/decks/library?sortBy=recently_updated&from=0&count=1000&category=COMMUNITY"
    )
}

#[test]
fn test_new_without_count_uses_default() {
    let deck = DeckUri::new(None);
    assert_eq!(deck.count, 5000);
}

#[test]
fn test_uri_omits_absent_fields() {
    let deck = DeckUri::create(None, None, Some(1000), None);
    assert_eq!(
        deck.to_string(),
        "https://lor.mobalytics.gg/api/v2/decks/library?count=1000"
    )
}

#[test]
fn test_sort_and_category_values() {
    let uri = DeckUri::create(Some(DeckSort::Popularity), None, Some(7), Some(DeckCategory::Featured));
    assert_eq!(
        uri.to_string(),
        "https://lor.mobalytics.gg/api/v2/decks/library?sortBy=popularity&count=7&category=FEATURED"
    )
}
