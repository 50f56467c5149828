use deckt::merge::{dedup_decks, merge_deck_pages, sort_decks};
use deckt::models::{Deck, DeckData};
use deckt::utils::chain_ordering;
use std::cmp::Ordering;

fn mk_deck(uid: &str, code: &str, title: &str) -> Deck {
    Deck {
        uid: uid.to_string(),
        deck_code: code.to_string(),
        title: title.to_string(),
        description: String::new(),
        rating: 0,
        mode: "standard".to_string(),
        playstyle: "aggro".to_string(),
        created_at_ms: 0,
        changed_at_ms: 0,
        is_private: false,
        is_draft: false,
        is_riot: false,
    }
}

fn page(decks: Vec<Deck>) -> Option<DeckData> {
    Some(DeckData { has_next: true, decks })
}

fn keys(decks: &[Deck]) -> Vec<(String, String)> {
    decks.iter().map(|d| (d.uid.clone(), d.deck_code.clone())).collect()
}

#[test]
fn test_merge_dedups_and_sorts() {
    // overlapping pages: duplicates by composite key are removed, and the
    // result is ordered by (uid, deck_code)
    let pages = vec![
        page(vec![mk_deck("b", "2", "x"), mk_deck("a", "2", "y")]),
        None,
        page(vec![mk_deck("a", "1", "z"), mk_deck("b", "2", "dup"), mk_deck("a", "2", "dup")]),
    ];
    let merged = merge_deck_pages(pages);
    assert_eq!(
        keys(&merged),
        vec![
            ("a".to_string(), "1".to_string()),
            ("a".to_string(), "2".to_string()),
            ("b".to_string(), "2".to_string()),
        ]
    );
}

#[test]
fn test_merge_keeps_first_of_equal_keys() {
    // two records with one key: the earlier one survives the dedup
    let pages = vec![page(vec![
        mk_deck("a", "1", "first"),
        mk_deck("a", "1", "second"),
    ])];
    let merged = merge_deck_pages(pages);
    assert_eq!(merged.len(), 1);
    assert_eq!(merged[0].title, "first");
}

#[test]
fn test_merge_ignores_absent_pages() {
    let a = mk_deck("a", "1", "a");
    let b = mk_deck("b", "2", "b");
    let with_absent = vec![None, page(vec![a.clone(), b.clone()]), None];
    let plain = vec![page(vec![a, b])];
    let m1 = merge_deck_pages(with_absent);
    let m2 = merge_deck_pages(plain);
    assert_eq!(keys(&m1), keys(&m2));
    assert_eq!(m1.len(), 2);
}

#[test]
fn test_merge_all_absent_is_empty() {
    let merged = merge_deck_pages(vec![None, None]);
    assert_eq!(merged.len(), 0);
}

#[test]
fn test_sort_orders_by_uid_then_code() {
    let sorted = sort_decks(vec![
        mk_deck("b", "1", ""),
        mk_deck("a", "9", ""),
        mk_deck("a", "10", ""),
    ]);
    // "10" compares before "9" character by character
    assert_eq!(
        keys(&sorted),
        vec![
            ("a".to_string(), "10".to_string()),
            ("a".to_string(), "9".to_string()),
            ("b".to_string(), "1".to_string()),
        ]
    );
}

#[test]
fn test_dedup_removes_adjacent_runs_only() {
    let deduped = dedup_decks(vec![
        mk_deck("a", "1", "one"),
        mk_deck("a", "1", "two"),
        mk_deck("b", "1", "three"),
    ]);
    assert_eq!(deduped.len(), 2);
    assert_eq!(deduped[0].title, "one");
    assert_eq!(deduped[1].title, "three");
}

#[test]
fn test_deck_equality_is_by_key() {
    // payload fields play no part in identity
    let a = mk_deck("a", "1", "x");
    let b = mk_deck("a", "1", "completely different");
    assert!(a == b);
    let c = mk_deck("a", "2", "x");
    assert!(a != c);
}

#[test]
fn test_deck_cmp_chains_uid_then_code() {
    let a = mk_deck("a", "2", "");
    let b = mk_deck("b", "1", "");
    assert_eq!(a.cmp(&b), Ordering::Less);
    let c = mk_deck("a", "1", "");
    assert_eq!(a.cmp(&c), Ordering::Greater);
    assert_eq!(a.cmp(&mk_deck("a", "2", "zzz")), Ordering::Equal);
}

#[test]
fn test_deck_partial_ord() {
    assert!(mk_deck("a", "1", "") < mk_deck("b", "1", ""));
    assert!(mk_deck("a", "2", "") > mk_deck("a", "10", ""));
    assert_eq!(
        mk_deck("a", "1", "x").partial_cmp(&mk_deck("a", "1", "y")),
        Some(Ordering::Equal)
    );
}

#[test]
fn test_chain_ordering() {
    assert_eq!(chain_ordering(Ordering::Less, Ordering::Greater), Ordering::Less);
    assert_eq!(chain_ordering(Ordering::Greater, Ordering::Less), Ordering::Greater);
    assert_eq!(chain_ordering(Ordering::Equal, Ordering::Greater), Ordering::Greater);
    assert_eq!(chain_ordering(Ordering::Equal, Ordering::Equal), Ordering::Equal);
}
