use deckt::batch::{BatchConfig, Orchestrator};
use deckt::decks::plan_requests;
use deckt::merge::merge_deck_pages;
use deckt::models::{Deck, DeckData};

fn mk_deck(uid: &str, code: &str) -> Deck {
    Deck {
        uid: uid.to_string(),
        deck_code: code.to_string(),
        title: format!("deck {}", uid),
        description: String::new(),
        rating: 10,
        mode: "standard".to_string(),
        playstyle: "combo".to_string(),
        created_at_ms: 1_600_000_000_000,
        changed_at_ms: 1_600_000_000_123,
        is_private: false,
        is_draft: false,
        is_riot: false,
    }
}

/// A fake service of three pages, two decks each. The request for the
/// middle page fails once before it succeeds.
#[test]
fn test_end_to_end_plan_fetch_merge() {
    // plan: five decks desired, pages of two, no overfetch
    let plan = plan_requests(5, 2, 1, 1, None, None);
    assert_eq!(plan.len(), 3);
    assert_eq!(plan[0].from, Some(0));
    assert_eq!(plan[1].from, Some(2));
    assert_eq!(plan[2].from, Some(4));

    let service_pages = vec![
        vec![mk_deck("e", "5"), mk_deck("a", "1")],
        vec![mk_deck("c", "3"), mk_deck("f", "6")],
        vec![mk_deck("b", "2"), mk_deck("d", "4")],
    ];

    let config = BatchConfig {
        max_attempts: 3,
        min_spacing_ms: 0,
        max_concurrent: 3,
        backoff_ms: vec![10],
    };
    let mut o: Orchestrator<DeckData> = Orchestrator::new(plan.len(), config);
    let mut now: u64 = 0;
    let mut failed_once = false;
    let mut attempts_made = [0usize; 3];
    while !o.is_complete() {
        if o.can_admit(now) {
            o.admit_next(now);
            continue;
        }
        // answer the oldest unresolved request
        let mut progressed = false;
        for idx in 0..o.admitted() {
            match o.fetchers[idx].phase {
                deckt::retry::RetryPhase::InFlight => {
                    attempts_made[idx] += 1;
                    if idx == 1 && !failed_once {
                        failed_once = true;
                        o.deliver_failure(idx, now);
                    } else {
                        let dd = DeckData {
                            has_next: idx + 1 < service_pages.len(),
                            decks: service_pages[idx].clone(),
                        };
                        o.deliver_success(idx, dd);
                    }
                    progressed = true;
                    break;
                }
                deckt::retry::RetryPhase::Backoff { resume_at } => {
                    if now >= resume_at {
                        o.resume(idx, now);
                        progressed = true;
                        break;
                    }
                }
                deckt::retry::RetryPhase::Done => {}
            }
        }
        if !progressed {
            now += 1;
        }
    }
    // the middle page took exactly one retry; the others none
    assert_eq!(o.fetchers[1].attempts, 2);
    assert_eq!(attempts_made, [1, 2, 1]);
    assert_eq!(o.fetchers[0].attempts, 1);
    assert_eq!(o.fetchers[2].attempts, 1);

    let results = o.into_results();
    assert_eq!(results.len(), 3);
    assert!(results.iter().all(|r| r.is_some()));

    let merged = merge_deck_pages(results);
    let keys: Vec<(String, String)> = merged
        .iter()
        .map(|d| (d.uid.clone(), d.deck_code.clone()))
        .collect();
    assert_eq!(
        keys,
        vec![
            ("a".to_string(), "1".to_string()),
            ("b".to_string(), "2".to_string()),
            ("c".to_string(), "3".to_string()),
            ("d".to_string(), "4".to_string()),
            ("e".to_string(), "5".to_string()),
            ("f".to_string(), "6".to_string()),
        ]
    );
}
