use couscous_crawler::database::Database;

#[test]
fn claims_are_distinct_and_exhaustive() {
    let mut db = Database::new();
    assert!(db.queue_url("https://a.test/", 1));
    assert!(db.queue_url("https://a.test/one", 2));
    assert!(db.queue_url("https://a.test/two", 2));

    let mut claimed: Vec<String> = Vec::new();
    while let Some((url, _depth)) = db.pop_url() {
        assert!(!claimed.contains(&url));
        claimed.push(url);
    }
    assert_eq!(claimed.len(), 3);
    assert_eq!(db.pending_count(), 0);
    assert_eq!(db.processing_count(), 3);
    assert!(db.pop_url().is_none());
}

#[test]
fn enqueue_is_idempotent() {
    let mut db = Database::new();
    assert!(db.queue_url("https://a.test/", 1));
    assert!(!db.queue_url("https://a.test/", 1));
    assert!(!db.queue_url("https://a.test/", 7));
    assert_eq!(db.pending_count(), 1);

    let first = db.pop_url();
    assert_eq!(first, Some(("https://a.test/".to_string(), 1)));
    assert!(db.pop_url().is_none());
}

#[test]
fn enqueue_after_claim_is_still_refused() {
    let mut db = Database::new();
    db.queue_url("https://a.test/", 1);
    let claimed = db.pop_url().unwrap();
    db.complete_url(&claimed.0);
    assert!(!db.queue_url("https://a.test/", 1));
    assert_eq!(db.pending_count(), 0);
}

#[test]
fn resume_restores_interrupted_rows() {
    let mut db = Database::new();
    db.queue_url("https://a.test/", 1);
    db.queue_url("https://a.test/one", 2);
    db.queue_url("https://a.test/two", 2);

    let first = db.pop_url().unwrap();
    let second = db.pop_url().unwrap();
    db.complete_url(&first.0);
    // The second claim is never completed: a crash at this point leaves
    // it in the processing state.
    let _ = second;
    assert_eq!(db.pending_count(), 1);
    assert_eq!(db.processing_count(), 1);

    let moved = db.reset_processing();
    assert_eq!(moved, 1);
    assert_eq!(db.pending_count(), 2);
    assert_eq!(db.processing_count(), 0);

    let mut claimed: Vec<String> = Vec::new();
    while let Some((url, _)) = db.pop_url() {
        assert!(!claimed.contains(&url));
        db.complete_url(&url);
        claimed.push(url);
    }
    assert_eq!(claimed.len(), 2);
    assert!(claimed.contains(&second.0));
    assert_eq!(db.pending_count(), 0);
    assert_eq!(db.processing_count(), 0);
}

#[test]
fn complete_moves_only_claimed_rows() {
    let mut db = Database::new();
    db.queue_url("https://a.test/", 1);
    // Unknown URLs and pending rows are left alone, never an error.
    db.complete_url("https://never.seen/");
    db.complete_url("https://a.test/");
    assert_eq!(db.pending_count(), 1);
    // A claimed row completes, idempotently.
    let claimed = db.pop_url().unwrap();
    db.complete_url(&claimed.0);
    db.complete_url(&claimed.0);
    assert_eq!(db.pending_count(), 0);
    assert_eq!(db.processing_count(), 0);
}

#[test]
fn visited_marking_is_idempotent() {
    let mut db = Database::new();
    assert!(!db.is_visited("https://a.test/"));
    db.mark_visited("https://a.test/");
    assert!(db.is_visited("https://a.test/"));
    db.mark_visited("https://a.test/");
    assert!(db.is_visited("https://a.test/"));
    assert!(!db.is_visited("https://b.test/"));
}

#[test]
fn clear_queue_forgets_frontier_and_visited() {
    let mut db = Database::new();
    db.queue_url("https://a.test/", 1);
    db.mark_visited("https://a.test/");
    db.insert_email("x@a.test", "https://a.test/");
    db.clear_queue();
    assert_eq!(db.pending_count(), 0);
    assert!(!db.is_visited("https://a.test/"));
    assert_eq!(db.get_email_count(), 1);
}

#[test]
fn email_dedup_per_source_page() {
    let mut db = Database::new();
    assert!(db.insert_email("x@a.test", "https://a.test/"));
    assert!(!db.insert_email("x@a.test", "https://a.test/"));
    assert_eq!(db.get_total_entries(), 1);

    assert!(db.insert_email("x@a.test", "https://a.test/other"));
    assert_eq!(db.get_total_entries(), 2);
    assert_eq!(db.get_email_count(), 1);
    assert_eq!(db.get_stats(), (1, 2));
}

#[test]
fn phone_dedup_per_source_page() {
    let mut db = Database::new();
    assert!(db.insert_phone("0102030405", "https://a.test/"));
    assert!(!db.insert_phone("0102030405", "https://a.test/"));
    assert!(db.insert_phone("0102030405", "https://a.test/other"));
    assert!(db.insert_phone("0612345678", "https://a.test/"));
    assert_eq!(db.get_phone_count(), 2);
}

#[test]
fn image_dedup_by_identifier() {
    let mut db = Database::new();
    assert!(db.insert_image("49d2fe00", "https://a.test/"));
    assert!(!db.insert_image("49d2fe00", "https://a.test/other"));
    assert!(db.insert_image("77aa0b13", "https://a.test/"));
    assert_eq!(db.get_image_count(), 2);
}
