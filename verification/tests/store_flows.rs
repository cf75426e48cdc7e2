use moeve::score::Score;
use moeve::sentence::Sentence;
use moeve::store::{MemStore, StoreError};
use moeve::workflow::{add_sentences, answer_bundle, generate_bundle, parse_decision, BundleDecision};

fn reviewed(store: &mut MemStore, text: &str, created: i64, due: i64, last: i64) -> usize {
    store.insert_sentence(text, created).unwrap();
    let id = store.next_id - 1;
    let s = Sentence {
        id: Some(id),
        text: String::from(text),
        created_at: created,
        last_answered_at: Some(last),
        due_at: due,
        ease: 250,
        interval_in_mins: Some(1440),
        reps: 2,
        is_suspended: false,
    };
    store.update_sentence(&s).unwrap();
    id
}

fn suspended(store: &mut MemStore, text: &str, created: i64) -> usize {
    store.insert_sentence(text, created).unwrap();
    let id = store.next_id - 1;
    let s = Sentence {
        id: Some(id),
        text: String::from(text),
        created_at: created,
        last_answered_at: None,
        due_at: created,
        ease: 250,
        interval_in_mins: None,
        reps: 0,
        is_suspended: true,
    };
    store.update_sentence(&s).unwrap();
    id
}

#[test]
fn insert_validates_text() {
    let mut store = MemStore::new();
    assert_eq!(store.insert_sentence("", 0), Err(StoreError::EmptyText));
    assert_eq!(store.insert_sentence("doppelt", 0), Ok(()));
    assert_eq!(store.insert_sentence("doppelt", 1), Err(StoreError::DuplicateText));
    assert_eq!(store.sentences.len(), 1);
}

#[test]
fn update_unknown_id_fails_without_change() {
    let mut store = MemStore::new();
    store.insert_sentence("eins", 0).unwrap();
    let ghostless = Sentence {
        id: Some(99),
        text: String::from("eins"),
        created_at: 0,
        last_answered_at: None,
        due_at: 0,
        ease: 250,
        interval_in_mins: None,
        reps: 0,
        is_suspended: false,
    };
    assert_eq!(store.update_sentence(&ghostless), Err(StoreError::UnknownSentence));
    assert_eq!(store.sentences[0].reps, 0);
}

#[test]
fn insert_then_list_reads_back_a_fresh_sentence() {
    let mut store = MemStore::new();
    store.insert_sentence("alpha", 77).unwrap();
    let all = store.get_sentences();
    assert_eq!(all.len(), 1);
    assert_eq!(all[0].text, String::from("alpha"));
    assert_eq!(all[0].reps, 0);
    assert_eq!(all[0].created_at, 77);
    assert_eq!(all[0].due_at, 77);
    assert_eq!(all[0].ease, 250);
    assert_eq!(all[0].interval_in_mins, None);
    assert_eq!(all[0].last_answered_at, None);
}

#[test]
fn due_and_new_listings_exclude_each_other_and_the_suspended() {
    let mut store = MemStore::new();
    store.insert_sentence("neu", 50).unwrap();
    reviewed(&mut store, "faellig", 10, 600, 300);
    suspended(&mut store, "ruht", 20);
    reviewed(&mut store, "spaeter", 15, 9999, 400);

    let due = store.get_due_sentences(1000);
    assert_eq!(due.len(), 1);
    assert_eq!(due[0].text, String::from("faellig"));
    assert!(due.iter().all(|s| s.reps > 0 && !s.is_suspended));

    let new = store.get_new_sentences(10);
    assert_eq!(new.len(), 1);
    assert_eq!(new[0].text, String::from("neu"));
    assert!(new.iter().all(|s| s.reps == 0 && !s.is_suspended));
}

#[test]
fn due_listing_is_ordered_by_due_time() {
    let mut store = MemStore::new();
    reviewed(&mut store, "b", 1, 500, 100);
    reviewed(&mut store, "a", 2, 300, 100);
    reviewed(&mut store, "c", 3, 400, 100);
    let due = store.get_due_sentences(1000);
    let dues: Vec<i64> = due.iter().map(|s| s.due_at).collect();
    assert_eq!(dues, vec![300, 400, 500]);
}

#[test]
fn new_listing_is_ordered_by_creation_and_capped() {
    let mut store = MemStore::new();
    store.insert_sentence("drei", 30).unwrap();
    store.insert_sentence("eins", 10).unwrap();
    store.insert_sentence("zwei", 20).unwrap();
    let all_new = store.get_new_sentences(10);
    let created: Vec<i64> = all_new.iter().map(|s| s.created_at).collect();
    assert_eq!(created, vec![10, 20, 30]);
    let capped = store.get_new_sentences(2);
    let created: Vec<i64> = capped.iter().map(|s| s.created_at).collect();
    assert_eq!(created, vec![10, 20]);
}

#[test]
fn full_listing_puts_never_answered_first() {
    let mut store = MemStore::new();
    reviewed(&mut store, "alt", 1, 500, 900);
    store.insert_sentence("nie", 2).unwrap();
    reviewed(&mut store, "juenger", 3, 500, 400);
    let all = store.get_sentences();
    assert_eq!(all.len(), 3);
    assert_eq!(all[0].last_answered_at, None);
    assert_eq!(all[1].last_answered_at, Some(400));
    assert_eq!(all[2].last_answered_at, Some(900));
}

#[test]
fn bundle_ids_are_date_prefixed_with_a_random_suffix() {
    let mut store = MemStore::new();
    // 2024-01-01T00:00:00Z is minute 28_401_120
    let id = store.create_bundle(28_401_120).unwrap();
    assert_eq!(id.len(), 16);
    assert!(id.starts_with("2024-01-01-"));
    let epoch_id = store.create_bundle(0).unwrap();
    assert!(epoch_id.starts_with("1970-01-01-"));
}

#[test]
fn bundle_membership_checks_both_ids() {
    let mut store = MemStore::new();
    store.insert_sentence("drin", 0).unwrap();
    let loose = Sentence {
        id: None,
        text: String::from("lose"),
        created_at: 0,
        last_answered_at: None,
        due_at: 0,
        ease: 250,
        interval_in_mins: None,
        reps: 0,
        is_suspended: false,
    };
    let held = store.get_sentences().pop().unwrap();
    assert_eq!(
        store.add_sentence_to_bundle(&String::from("kein-bundle"), &held),
        Err(StoreError::UnknownBundle)
    );
    let bid = store.create_bundle(0).unwrap();
    assert_eq!(store.add_sentence_to_bundle(&bid, &loose), Err(StoreError::UnknownSentence));
    assert_eq!(store.add_sentence_to_bundle(&bid, &held), Ok(()));
    assert_eq!(store.elements.len(), 1);
}

#[test]
fn a_discarded_transaction_leaves_no_trace() {
    let mut store = MemStore::new();
    let a = reviewed(&mut store, "a", 1, 100, 50);
    let b = reviewed(&mut store, "b", 2, 100, 50);
    reviewed(&mut store, "c", 3, 100, 50);
    let bid = store.create_bundle(10).unwrap();
    for s in store.get_due_sentences(1000) {
        store.add_sentence_to_bundle(&bid, &s).unwrap();
    }

    let tx = store.start_answer_bundle_transaction();
    let members = tx.get_sentences_in_bundle(&bid);
    assert_eq!(members.len(), 3);
    let mut tx = tx;
    for member in members.into_iter().take(2) {
        let mut m = member;
        m.schedule(Score::Good, 2000);
        tx.update_sentence(&m).unwrap();
    }
    // the run fails before the bundle is marked or committed
    let back = tx.discard();

    for s in back.get_sentences() {
        if s.id == Some(a) || s.id == Some(b) {
            assert_eq!(s.reps, 2);
            assert_eq!(s.interval_in_mins, Some(1440));
            assert_eq!(s.last_answered_at, Some(50));
        }
    }
    assert!(!back.bundles[0].has_been_answered);
}

#[test]
fn a_read_through_the_unit_sees_its_own_writes() {
    let mut store = MemStore::new();
    let a = reviewed(&mut store, "a", 1, 100, 50);
    reviewed(&mut store, "b", 2, 100, 50);
    let bid = store.create_bundle(10).unwrap();
    for s in store.get_due_sentences(1000) {
        store.add_sentence_to_bundle(&bid, &s).unwrap();
    }

    let mut tx = store.start_answer_bundle_transaction();
    let members = tx.get_sentences_in_bundle(&bid);
    let mut first = members.into_iter().find(|s| s.id == Some(a)).unwrap();
    first.schedule(Score::Good, 2000);
    tx.update_sentence(&first).unwrap();

    // inside the unit the write is already visible ...
    let seen = tx.get_sentences_in_bundle(&bid);
    for s in &seen {
        if s.id == Some(a) {
            assert_eq!(s.reps, 3);
            assert_eq!(s.last_answered_at, Some(2000));
            assert_eq!(s.interval_in_mins, Some(3600));
        } else {
            assert_eq!(s.reps, 2);
            assert_eq!(s.last_answered_at, Some(50));
        }
    }

    // ... while outside nothing is, until commit
    let back = tx.discard();
    for s in back.get_sentences() {
        assert_eq!(s.reps, 2);
        assert_eq!(s.last_answered_at, Some(50));
    }
}

#[test]
fn answering_a_bundle_commits_everything_together() {
    let mut store = MemStore::new();
    let a = reviewed(&mut store, "a", 1, 100, 50);
    let b = reviewed(&mut store, "b", 2, 100, 50);
    let bid = store.create_bundle(10).unwrap();
    for s in store.get_due_sentences(1000) {
        store.add_sentence_to_bundle(&bid, &s).unwrap();
    }

    let scores = vec![Score::Good, Score::Easy];
    let (store, done) = answer_bundle(store, &bid, &scores, 5000);
    assert!(done);
    for s in store.get_sentences() {
        if s.id == Some(a) {
            assert_eq!(s.reps, 3);
            assert_eq!(s.ease, 250);
            assert_eq!(s.interval_in_mins, Some(1440 * 250 / 100));
            assert_eq!(s.last_answered_at, Some(5000));
            assert_eq!(s.due_at, 5000 + 3600);
        }
        if s.id == Some(b) {
            assert_eq!(s.reps, 3);
            assert_eq!(s.ease, 270);
            assert_eq!(s.interval_in_mins, Some(1440 * 270 / 100));
        }
    }
    assert!(store.bundles[0].has_been_answered);
}

#[test]
fn too_few_scores_change_nothing_at_all() {
    let mut store = MemStore::new();
    reviewed(&mut store, "a", 1, 100, 50);
    reviewed(&mut store, "b", 2, 100, 50);
    reviewed(&mut store, "c", 3, 100, 50);
    let bid = store.create_bundle(10).unwrap();
    for s in store.get_due_sentences(1000) {
        store.add_sentence_to_bundle(&bid, &s).unwrap();
    }
    let scores = vec![Score::Good, Score::Good];
    let (store, done) = answer_bundle(store, &bid, &scores, 5000);
    assert!(!done);
    for s in store.get_sentences() {
        assert_eq!(s.reps, 2);
        assert_eq!(s.last_answered_at, Some(50));
    }
    assert!(!store.bundles[0].has_been_answered);
}

#[test]
fn generation_applies_each_decision_in_candidate_order() {
    let mut store = MemStore::new();
    reviewed(&mut store, "faellig", 1, 100, 50);
    store.insert_sentence("neu-eins", 10).unwrap();
    store.insert_sentence("neu-zwei", 20).unwrap();

    let decisions = vec![
        Some(BundleDecision::Add),
        Some(BundleDecision::Suspend),
        None,
    ];
    let (bid, accepted) = generate_bundle(&mut store, 1000, 10, &decisions).unwrap();

    assert_eq!(accepted.len(), 1);
    assert_eq!(accepted[0].text, String::from("faellig"));
    assert_eq!(store.elements.len(), 1);
    assert_eq!(store.elements[0].bundle_id, bid);
    for s in store.get_sentences() {
        if s.text == String::from("neu-eins") {
            assert!(s.is_suspended);
        }
        if s.text == String::from("neu-zwei") {
            assert!(!s.is_suspended);
        }
    }
    assert!(!store.bundles[0].has_been_answered);
}

#[test]
fn ingestion_trims_skips_blanks_and_counts() {
    let mut store = MemStore::new();
    let lines = vec![
        String::from("  hallo  "),
        String::from(""),
        String::from("welt"),
        String::from("   "),
    ];
    let (added, skipped) = add_sentences(&mut store, &lines, 5).unwrap();
    assert_eq!(added, 2);
    assert_eq!(skipped, 2);
    let all = store.get_sentences();
    assert!(all.iter().any(|s| s.text == String::from("hallo")));
    assert!(all.iter().any(|s| s.text == String::from("welt")));
}

#[test]
fn a_duplicate_line_stops_ingestion_but_keeps_the_prefix() {
    let mut store = MemStore::new();
    let lines = vec![
        String::from("gleich"),
        String::from("gleich"),
        String::from("nachher"),
    ];
    assert_eq!(add_sentences(&mut store, &lines, 5), Err(StoreError::DuplicateText));
    assert_eq!(store.sentences.len(), 1);
}

#[test]
fn decisions_parse_from_the_three_letters() {
    assert_eq!(parse_decision("a"), Some(BundleDecision::Add));
    assert_eq!(parse_decision("s"), Some(BundleDecision::Skip));
    assert_eq!(parse_decision("p"), Some(BundleDecision::Suspend));
    assert_eq!(parse_decision("x"), None);
    assert_eq!(parse_decision("add"), None);
    assert_eq!(parse_decision(""), None);
}
