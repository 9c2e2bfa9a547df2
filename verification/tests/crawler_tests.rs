use couscous_crawler::cli::Args;
use couscous_crawler::crawler::begin_task;
use couscous_crawler::crawler::content_type_is_text;
use couscous_crawler::crawler::handle_page;
use couscous_crawler::crawler::should_follow_links;
use couscous_crawler::crawler::user_agent_for;
use couscous_crawler::crawler::worker_poll;
use couscous_crawler::crawler::CrawlError;
use couscous_crawler::crawler::Crawler;
use couscous_crawler::crawler::WorkerStep;
use couscous_crawler::database::Database;

fn args_for(url: &str, depth: u32, stay_on_domain: bool, resume: bool) -> Args {
    Args {
        url: url.to_string(),
        depth,
        stay_on_domain,
        workers: 1,
        db: "emails.db".to_string(),
        timeout: 30000,
        resume,
        verbose: false,
        insecure: false,
        extract_images: false,
        yolo_model: "face-detection/model.pt".to_string(),
        min_image_width: 128,
        min_image_height: 128,
        faces_dir: "faces".to_string(),
    }
}

#[test]
fn new_rejects_bad_seeds() {
    let bad = Crawler::new(args_for("not a url", 0, false, false), Database::new());
    match bad {
        Err(e) => assert_eq!(e.describe(), "invalid seed URL"),
        Ok(_) => panic!("unparsable seed accepted"),
    }

    let hostless = Crawler::new(
        args_for("data:text/plain,hello", 0, false, false),
        Database::new(),
    );
    match hostless {
        Err(CrawlError::NoHost) => {}
        _ => panic!("host-less seed accepted"),
    }

    let good = Crawler::new(args_for("https://example.com/", 0, false, false), Database::new());
    assert!(good.is_ok());
    assert_eq!(good.unwrap().base_domain, "example.com");
}

#[test]
fn init_seeds_fresh_run_at_depth_one() {
    let mut crawler =
        Crawler::new(args_for("https://a.test/", 0, true, false), Database::new()).unwrap();
    let reset = crawler.init();
    assert_eq!(reset, 0);
    assert_eq!(crawler.db.pending_count(), 1);
    let task = crawler.db.pop_url().unwrap();
    assert_eq!(task, ("https://a.test/".to_string(), 1));
}

#[test]
fn init_resumes_interrupted_rows() {
    let mut db = Database::new();
    db.queue_url("https://a.test/", 1);
    db.queue_url("https://a.test/p2", 2);
    let _ = db.pop_url().unwrap();
    let mut crawler = Crawler::new(args_for("https://a.test/", 0, true, true), db).unwrap();
    let reset = crawler.init();
    assert_eq!(reset, 1);
    assert_eq!(crawler.db.pending_count(), 2);
    assert_eq!(crawler.db.processing_count(), 0);
}

#[test]
fn depth_gate_limits_successors() {
    // Depth limit 2: a page at depth 1 spawns depth-2 successors, a page
    // at depth 2 spawns none.
    assert!(should_follow_links(2, 1));
    assert!(!should_follow_links(2, 2));
    assert!(!should_follow_links(2, 3));
    // Limit zero means unlimited.
    assert!(should_follow_links(0, 1));
    assert!(should_follow_links(0, 1000));

    let args = args_for("https://a.test/", 2, false, false);
    let html = r#"<a href="/next">next</a>"#;

    let mut db = Database::new();
    handle_page(&mut db, &args, "a.test", "https://a.test/page", 1, html);
    assert_eq!(db.pending_count(), 1);
    let spawned = db.pop_url().unwrap();
    assert_eq!(spawned, ("https://a.test/next".to_string(), 2));

    let mut deep_db = Database::new();
    handle_page(&mut deep_db, &args, "a.test", "https://a.test/page", 2, html);
    assert_eq!(deep_db.pending_count(), 0);
}

#[test]
fn domain_gate_limits_successors() {
    let args = args_for("https://example.com/", 0, true, false);
    let html = r#"
        <a href="https://sub.example.com/x">in scope</a>
        <a href="https://other.com/x">out of scope</a>
        <a href="https://example.com.evil.com/x">suffix trick</a>
    "#;
    let mut db = Database::new();
    handle_page(&mut db, &args, "example.com", "https://example.com/", 1, html);
    assert_eq!(db.pending_count(), 1);
    let spawned = db.pop_url().unwrap();
    assert_eq!(spawned.0, "https://sub.example.com/x");
}

#[test]
fn begin_task_turns_away_second_dispatch() {
    let mut db = Database::new();
    assert!(begin_task(&mut db, "https://a.test/"));
    assert!(!begin_task(&mut db, "https://a.test/"));
    assert!(db.is_visited("https://a.test/"));
}

#[test]
fn worker_stops_after_sustained_idle_streak() {
    let mut db = Database::new();
    let mut idle: u32 = 0;
    let mut sleeps = 0;
    loop {
        match worker_poll(&mut db, &mut idle) {
            WorkerStep::Task(_, _) => panic!("claimed from an empty frontier"),
            WorkerStep::Sleep => sleeps += 1,
            WorkerStep::Stop => break,
        }
    }
    assert_eq!(sleeps, 10);
    assert_eq!(idle, 11);
}

#[test]
fn worker_claim_resets_idle_streak() {
    let mut db = Database::new();
    db.queue_url("https://a.test/", 1);
    let mut idle: u32 = 7;
    match worker_poll(&mut db, &mut idle) {
        WorkerStep::Task(url, depth) => {
            assert_eq!(url, "https://a.test/");
            assert_eq!(depth, 1);
        }
        _ => panic!("pending task not claimed"),
    }
    assert_eq!(idle, 0);
    assert_eq!(db.processing_count(), 1);
}

#[test]
fn end_to_end_single_worker_domain_scoped() {
    let mut crawler =
        Crawler::new(args_for("https://a.test/", 0, true, false), Database::new()).unwrap();
    crawler.init();

    let root_page = r#"
        <html><body>
            Reach us at x@a.test
            <a href="/p2">more</a>
            <a href="https://b.test/">elsewhere</a>
        </body></html>
    "#;
    let leaf_page = "<html><body>nothing new</body></html>";

    let mut idle: u32 = 0;
    let mut claimed: Vec<String> = Vec::new();
    loop {
        match worker_poll(&mut crawler.db, &mut idle) {
            WorkerStep::Task(url, depth) => {
                claimed.push(url.clone());
                if begin_task(&mut crawler.db, &url) {
                    let body = if url == "https://a.test/" { root_page } else { leaf_page };
                    handle_page(
                        &mut crawler.db,
                        &crawler.args,
                        &crawler.base_domain,
                        &url,
                        depth,
                        body,
                    );
                }
                crawler.db.complete_url(&url);
            }
            WorkerStep::Sleep => {}
            WorkerStep::Stop => break,
        }
    }

    assert_eq!(
        claimed,
        vec!["https://a.test/".to_string(), "https://a.test/p2".to_string()]
    );
    assert_eq!(crawler.db.pending_count(), 0);
    assert_eq!(crawler.db.processing_count(), 0);
    assert!(crawler.db.is_visited("https://a.test/"));
    assert!(crawler.db.is_visited("https://a.test/p2"));
    assert!(!crawler.db.is_visited("https://b.test/"));
    assert_eq!(crawler.db.get_email_count(), 1);
    assert_eq!(crawler.db.get_stats(), (1, 1));
    assert!(!crawler.db.insert_email("x@a.test", "https://a.test/"));
}

#[test]
fn content_type_gate_keeps_text_only() {
    assert!(content_type_is_text("text/html; charset=utf-8"));
    assert!(content_type_is_text("text/plain"));
    assert!(!content_type_is_text("image/png"));
    assert!(!content_type_is_text("application/pdf"));
}

#[test]
fn user_agents_rotate_over_a_fixed_pool() {
    let mut agents: Vec<&'static str> = Vec::new();
    for pick in 0..12usize {
        let ua = user_agent_for(pick);
        assert!(ua.starts_with("Mozilla/5.0"));
        if !agents.contains(&ua) {
            agents.push(ua);
        }
    }
    assert_eq!(agents.len(), 6);
    assert_eq!(user_agent_for(0), user_agent_for(6));
}
