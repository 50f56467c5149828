use deckt::decks::{plan_requests, DeckCategory, DeckSort};

#[test]
fn test_plan_example() {
    // 10000 desired, pages of 4000, ratio 1.2: target 12000, three full pages
    let plan = plan_requests(10000, 4000, 12, 10, Some(DeckSort::RecentlyUpdated), None);
    assert_eq!(plan.len(), 3);
    let offsets: Vec<u32> = plan.iter().map(|p| p.from.unwrap()).collect();
    let counts: Vec<u32> = plan.iter().map(|p| p.count).collect();
    assert_eq!(offsets, vec![0, 4000, 8000]);
    assert_eq!(counts, vec![4000, 4000, 4000]);
    let sum: u32 = counts.iter().sum();
    assert!(sum >= 10000);
    assert!(sum < 10000 + 4000);
}

#[test]
fn test_plan_zero_desired() {
    let plan = plan_requests(0, 4000, 12, 10, None, None);
    assert_eq!(plan.len(), 0);
}

#[test]
fn test_plan_remainder_last_page() {
    // target 5 with pages of 2: the last page asks only for the remainder
    let plan = plan_requests(5, 2, 1, 1, None, Some(DeckCategory::Community));
    assert_eq!(plan.len(), 3);
    let offsets: Vec<u32> = plan.iter().map(|p| p.from.unwrap()).collect();
    let counts: Vec<u32> = plan.iter().map(|p| p.count).collect();
    assert_eq!(offsets, vec![0, 2, 4]);
    assert_eq!(counts, vec![2, 2, 1]);
    assert!(plan.iter().all(|p| p.count >= 1));
    assert!(plan.iter().all(|p| p.from.unwrap() % 2 == 0));
}

#[test]
fn test_plan_exact_multiple_keeps_full_last_page() {
    // target 8 with pages of 2: a zero-size final request is never issued
    let plan = plan_requests(8, 2, 1, 1, None, None);
    assert_eq!(plan.len(), 4);
    assert!(plan.iter().all(|p| p.count == 2));
}

#[test]
fn test_plan_carries_sort_and_category() {
    let plan = plan_requests(10, 5, 1, 1, Some(DeckSort::Hot), Some(DeckCategory::Budget));
    assert_eq!(plan.len(), 2);
    for p in &plan {
        assert!(matches!(p.sort_by, Some(DeckSort::Hot)));
        assert!(matches!(p.category, Some(DeckCategory::Budget)));
    }
}
