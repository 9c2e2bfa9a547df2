//! The crawl orchestration core: seeding and resuming the frontier, the
//! worker scheduling decision with its idle-streak quiescence rule, the
//! visited check-and-mark gate, the depth and domain policy, and the
//! processing of one fetched page.
//!
//! Network fetching, sleeping and process concerns live outside; every
//! decision this module makes is verified against the store model.

use crate::cli::Args;
use crate::database::Database;
use crate::database::RowModel;
use crate::database::StoreModel;
use crate::database::TaskState;
use crate::database::claimed;
use crate::database::count_state;
use crate::database::enqueue_step;
use crate::database::insert_row_step;
use crate::database::no_pending;
use crate::database::reset_step;
use crate::database::TaskModel;
use crate::extractor::clean_emails;
use crate::extractor::email_matches_of;
use crate::extractor::host_in_scope;
use crate::extractor::host_in_scope_spec;
use crate::extractor::links_model;
use crate::extractor::links_spec;
use crate::extractor::LinkInfo;
use crate::extractor::LinkModel;
use vstd::prelude::*;

verus! {

/// A fatal startup failure: the seed URL cannot be used at all.
#[derive(Debug)]
pub enum CrawlError {
    /// The seed does not parse as an absolute URL.
    InvalidSeedUrl,
    /// The seed parses but has no host to scope the crawl to.
    NoHost,
}

impl CrawlError {
    /// A short human-readable account of the failure.
    pub fn describe(&self) -> (r: &'static str)
        ensures
            self is InvalidSeedUrl ==> r@ == "invalid seed URL"@,
            self is NoHost ==> r@ == "seed URL has no host"@,
    {
        match self {
            CrawlError::InvalidSeedUrl => "invalid seed URL",
            CrawlError::NoHost => "seed URL has no host",
        }
    }
}

/// A crawl in progress: the shared store, the run configuration, and the
/// seed's host, which scopes domain-limited runs.
pub struct Crawler {
    pub db: Database,
    pub args: Args,
    pub base_domain: String,
}

/// The host of the configured seed, through the url crate: the host of
/// the seed parsed as an absolute URL, or nothing where the seed does not
/// parse or parses without a host.
pub open spec fn seed_host_spec(s: Seq<char>) -> Option<Seq<char>> {
    match crate::urls::parsed_url_of(s) {
        Option::Some(ser) => crate::urls::host_of(ser),
        Option::None => Option::None,
    }
}

impl Crawler {
    /// Build a crawler for the configured seed: construction succeeds
    /// exactly when the seed parses as an absolute URL with a host, and
    /// the crawl is then scoped to that host.
    pub fn new(args: Args, db: Database) -> (r: Result<Crawler, CrawlError>)
        ensures
            match r {
                Result::Ok(c) => c.db == db && c.args == args && seed_host_spec(args.url@)
                    == Option::Some(c.base_domain@),
                Result::Err(e) => seed_host_spec(args.url@) is None && (e is InvalidSeedUrl
                    <==> crate::urls::parsed_url_of(args.url@) is None),
            },
    {
        let ser = match crate::urls::parse_url_ser(args.url.as_str()) {
            Option::Some(s) => s,
            Option::None => {
                return Err(CrawlError::InvalidSeedUrl);
            },
        };
        let base_domain = match crate::urls::host_of_ser(ser.as_str()) {
            Option::Some(h) => h,
            Option::None => {
                return Err(CrawlError::NoHost);
            },
        };
        Ok(Crawler { db, args, base_domain })
    }

    /// Prepare the frontier. A resumed run repairs rows a crash left in
    /// `Processing` and reports how many; a fresh run forgets all frontier
    /// and visited state and seeds the configured URL at depth one.
    pub fn init(&mut self) -> (reset: u64)
        requires
            old(self).db@.wf(),
        ensures
            final(self).db@.wf(),
            final(self).args == old(self).args,
            final(self).base_domain == old(self).base_domain,
            old(self).args.resume ==> final(self).db@ == reset_step(old(self).db@) && reset
                == count_state(old(self).db@.tasks, TaskState::Processing),
            !old(self).args.resume ==> reset == 0 && final(self).db@ == enqueue_step(
                StoreModel {
                    tasks: Seq::empty(),
                    visited: Seq::empty(),
                    emails: old(self).db@.emails,
                    phones: old(self).db@.phones,
                    images: old(self).db@.images,
                },
                old(self).args.url@,
                1,
            ),
    {
        if self.args.resume {
            self.db.reset_processing()
        } else {
            self.db.clear_queue();
            let ghost cleared = self.db@;
            let seed = self.args.url.clone();
            self.db.queue_url(seed.as_str(), 1);
            proof {
                assert(cleared.tasks =~= Seq::<TaskModel>::empty());
                assert(cleared.visited =~= Seq::<Seq<char>>::empty());
                assert(cleared == (StoreModel {
                    tasks: Seq::empty(),
                    visited: Seq::empty(),
                    emails: old(self).db@.emails,
                    phones: old(self).db@.phones,
                    images: old(self).db@.images,
                }));
            }
            0
        }
    }
}

/// How many consecutive empty claims a worker tolerates before stopping.
pub const IDLE_LIMIT: u32 = 10;

/// What a worker should do next.
pub enum WorkerStep {
    /// Work on this claimed (url, depth) task, then complete it.
    Task(String, u32),
    /// Nothing was pending: back off briefly and poll again.
    Sleep,
    /// Nothing was pending for the whole idle streak: the crawl is done.
    Stop,
}

/// One scheduling decision of a worker. A pending task is claimed
/// atomically and resets the idle streak. An empty frontier lengthens the
/// streak; the worker sleeps, or stops once the streak passes the idle
/// limit — only a sustained run of empty claims is read as quiescence,
/// giving in-flight enqueues time to land.
pub fn worker_poll(db: &mut Database, idle_count: &mut u32) -> (step: WorkerStep)
    requires
        old(db)@.wf(),
        *old(idle_count) <= IDLE_LIMIT,
    ensures
        final(db)@.wf(),
        match step {
            WorkerStep::Task(u, d) => claimed(old(db)@, final(db)@, u@, d) && *final(idle_count)
                == 0,
            WorkerStep::Sleep => final(db)@ == old(db)@ && no_pending(old(db)@.tasks)
                && *final(idle_count) == *old(idle_count) + 1 && *final(idle_count) <= IDLE_LIMIT,
            WorkerStep::Stop => final(db)@ == old(db)@ && no_pending(old(db)@.tasks)
                && *final(idle_count) == *old(idle_count) + 1 && *final(idle_count) > IDLE_LIMIT,
        },
{
    match db.pop_url() {
        Option::Some(task) => {
            *idle_count = 0;
            let (url, depth) = task;
            WorkerStep::Task(url, depth)
        },
        Option::None => {
            *idle_count = *idle_count + 1;
            if *idle_count > IDLE_LIMIT {
                WorkerStep::Stop
            } else {
                WorkerStep::Sleep
            }
        },
    }
}

/// The guarded check-then-act pair around dispatch: report whether the URL
/// is fresh, and if so mark it visited at once — before any network work —
/// so that a second claim of the same URL is turned away.
pub fn begin_task(db: &mut Database, url: &str) -> (fresh: bool)
    requires
        old(db)@.wf(),
    ensures
        final(db)@.wf(),
        fresh == !old(db)@.has_visited(url@),
        fresh ==> final(db)@ == (StoreModel { visited: old(db)@.visited.push(url@), ..old(db)@ }),
        !fresh ==> final(db)@ == old(db)@,
{
    if db.is_visited(url) {
        false
    } else {
        db.mark_visited(url);
        true
    }
}

/// The artifact table after recording each found email in turn against one
/// source page.
pub open spec fn record_emails_step(
    emails: Seq<RowModel>,
    found: Seq<Seq<char>>,
    src: Seq<char>,
) -> Seq<RowModel>
    decreases found.len(),
{
    if found.len() == 0 {
        emails
    } else {
        insert_row_step(record_emails_step(emails, found.drop_last(), src), found.last(), src)
    }
}

/// How many of the found emails were new attributions when recorded in
/// turn against one source page.
pub open spec fn count_new_emails(
    emails: Seq<RowModel>,
    found: Seq<Seq<char>>,
    src: Seq<char>,
) -> nat
    decreases found.len(),
{
    if found.len() == 0 {
        0
    } else {
        count_new_emails(emails, found.drop_last(), src) + if record_emails_step(
            emails,
            found.drop_last(),
            src,
        ).contains(RowModel { value: found.last(), source: src }) {
            0nat
        } else {
            1nat
        }
    }
}

/// Record each found email against its source page; duplicates are counted
/// silently, never an error. Returns how many attributions were new.
pub fn record_emails(db: &mut Database, emails: &Vec<String>, source_url: &str) -> (new_count: u64)
    requires
        old(db)@.wf(),
    ensures
        final(db)@.wf(),
        final(db)@.emails == record_emails_step(
            old(db)@.emails,
            emails.deep_view(),
            source_url@,
        ),
        new_count == count_new_emails(old(db)@.emails, emails.deep_view(), source_url@),
        final(db)@.tasks == old(db)@.tasks,
        final(db)@.visited == old(db)@.visited,
        final(db)@.phones == old(db)@.phones,
        final(db)@.images == old(db)@.images,
{
    let ghost ms = emails.deep_view();
    let n = emails.len();
    let mut i: usize = 0;
    let mut new_count: u64 = 0;
    while i < n
        invariant
            i <= n,
            n == emails.len(),
            ms == emails.deep_view(),
            old(db)@.wf(),
            db@.wf(),
            new_count <= i,
            db@.emails == record_emails_step(old(db)@.emails, ms.subrange(0, i as int), source_url@),
            new_count == count_new_emails(old(db)@.emails, ms.subrange(0, i as int), source_url@),
            db@.tasks == old(db)@.tasks,
            db@.visited == old(db)@.visited,
            db@.phones == old(db)@.phones,
            db@.images == old(db)@.images,
        decreases n - i,
    {
        proof {
            assert(ms.subrange(0, i + 1).drop_last() =~= ms.subrange(0, i as int));
            assert(ms.subrange(0, i + 1).last() == ms[i as int]);
            assert(ms[i as int] == emails@[i as int]@);
        }
        let inserted = db.insert_email(emails[i].as_str(), source_url);
        if inserted {
            new_count = new_count + 1;
        }
        i += 1;
    }
    proof {
        assert(ms.subrange(0, n as int) =~= ms);
    }
    new_count
}

/// The depth gate: a limit of zero means unlimited, and otherwise a page
/// spawns successors only while its own depth is strictly below the limit.
pub open spec fn should_follow_spec(max_depth: u32, depth: u32) -> bool {
    max_depth == 0 || depth < max_depth
}

/// The depth gate: see `should_follow_spec`.
pub fn should_follow_links(max_depth: u32, depth: u32) -> (r: bool)
    ensures
        r == should_follow_spec(max_depth, depth),
{
    max_depth == 0 || depth < max_depth
}

/// The domain gate: every link passes when scoping is off; with scoping on,
/// only a link whose host falls under the base domain.
pub open spec fn link_passes_gate(l: LinkModel, stay: bool, base: Seq<char>) -> bool {
    if !stay {
        true
    } else {
        match l.host {
            Option::Some(h) => host_in_scope_spec(h, base),
            Option::None => false,
        }
    }
}

/// The effect of offering one link to the frontier: the policy gate and
/// the visited tracker decide, then the idempotent enqueue runs.
pub open spec fn offer_link_step(
    pre: StoreModel,
    l: LinkModel,
    d: u32,
    stay: bool,
    base: Seq<char>,
) -> StoreModel {
    if link_passes_gate(l, stay, base) && !pre.has_visited(l.url) {
        enqueue_step(pre, l.url, d)
    } else {
        pre
    }
}

/// The effect of offering each link in turn.
pub open spec fn offer_links_step(
    pre: StoreModel,
    ls: Seq<LinkModel>,
    d: u32,
    stay: bool,
    base: Seq<char>,
) -> StoreModel
    decreases ls.len(),
{
    if ls.len() == 0 {
        pre
    } else {
        offer_link_step(offer_links_step(pre, ls.drop_last(), d, stay, base), ls.last(), d, stay, base)
    }
}

/// Offer every discovered link to the frontier at the successor depth:
/// links turned away by the domain gate or already visited are dropped;
/// the rest are enqueued, each URL at most once ever.
pub fn enqueue_links(
    db: &mut Database,
    links: &Vec<LinkInfo>,
    depth: u32,
    stay_on_domain: bool,
    base_domain: &str,
)
    requires
        old(db)@.wf(),
        depth < u32::MAX,
    ensures
        final(db)@.wf(),
        final(db)@ == offer_links_step(
            old(db)@,
            links_model(links@),
            (depth + 1) as u32,
            stay_on_domain,
            base_domain@,
        ),
{
    let ghost ls = links_model(links@);
    let successor_depth = depth + 1;
    let n = links.len();
    let mut i: usize = 0;
    while i < n
        invariant
            i <= n,
            n == links.len(),
            ls == links_model(links@),
            old(db)@.wf(),
            db@.wf(),
            successor_depth == depth + 1,
            db@ == offer_links_step(
                old(db)@,
                ls.subrange(0, i as int),
                successor_depth,
                stay_on_domain,
                base_domain@,
            ),
        decreases n - i,
    {
        proof {
            assert(ls.subrange(0, i + 1).drop_last() =~= ls.subrange(0, i as int));
            assert(ls.subrange(0, i + 1).last() == ls[i as int]);
            assert(ls[i as int] == links@[i as int]@);
        }
        let follow = if stay_on_domain {
            match &links[i].host {
                Option::Some(h) => host_in_scope(h.as_str(), base_domain),
                Option::None => false,
            }
        } else {
            true
        };
        proof {
            assert(follow == link_passes_gate(ls[i as int], stay_on_domain, base_domain@));
        }
        if follow {
            if !db.is_visited(links[i].url.as_str()) {
                db.queue_url(links[i].url.as_str(), successor_depth);
            }
        }
        i += 1;
    }
    proof {
        assert(ls.subrange(0, n as int) =~= ls);
    }
}

/// What a page offers the frontier: its links resolved against the page's
/// own URL, or nothing at all where that URL does not parse.
pub open spec fn page_links_spec(html: Seq<char>, page_url: Seq<char>) -> Seq<LinkModel> {
    match crate::urls::parsed_url_of(page_url) {
        Option::Some(ser) => links_spec(html, ser),
        Option::None => Seq::empty(),
    }
}

/// Process one fetched page for a claimed task: record its emails against
/// the page URL, and — when the depth gate allows — extract its links and
/// offer each to the frontier at the successor depth. Returns how many
/// recorded emails were new.
pub fn handle_page(
    db: &mut Database,
    args: &Args,
    base_domain: &str,
    page_url: &str,
    depth: u32,
    html: &str,
) -> (new_emails: u64)
    requires
        old(db)@.wf(),
        depth < u32::MAX,
    ensures
        final(db)@.wf(),
        new_emails == count_new_emails(
            old(db)@.emails,
            clean_emails(email_matches_of(html@)),
            page_url@,
        ),
        ({
            let mid = StoreModel {
                emails: record_emails_step(
                    old(db)@.emails,
                    clean_emails(email_matches_of(html@)),
                    page_url@,
                ),
                ..old(db)@
            };
            &&& (!should_follow_spec(args.depth, depth) ==> final(db)@ == mid)
            &&& (should_follow_spec(args.depth, depth) ==> final(db)@ == offer_links_step(
                mid,
                page_links_spec(html@, page_url@),
                (depth + 1) as u32,
                args.stay_on_domain,
                base_domain@,
            ))
        }),
{
    let emails = crate::extractor::extract_emails(html);
    let new_emails = record_emails(db, &emails, page_url);
    let ghost mid = db@;
    proof {
        assert(mid == (StoreModel {
            emails: record_emails_step(
                old(db)@.emails,
                clean_emails(email_matches_of(html@)),
                page_url@,
            ),
            ..old(db)@
        }));
    }
    if should_follow_links(args.depth, depth) {
        match crate::urls::parse_url_ser(page_url) {
            Option::Some(base_ser) => {
                let infos = crate::extractor::extract_link_infos(html, base_ser.as_str());
                enqueue_links(db, &infos, depth, args.stay_on_domain, base_domain);
                proof {
                    assert(links_model(infos@) == page_links_spec(html@, page_url@));
                }
            },
            Option::None => {
                proof {
                    assert(page_links_spec(html@, page_url@) =~= Seq::<LinkModel>::empty());
                    assert(db@ == offer_links_step(
                        mid,
                        page_links_spec(html@, page_url@),
                        (depth + 1) as u32,
                        args.stay_on_domain,
                        base_domain@,
                    ));
                }
            },
        }
    }
    new_emails
}


/// An idempotent enqueue keeps the store well-formed, keeps every existing
/// row, and adds at most one pending row holding the offered URL and depth.
pub proof fn lemma_enqueue_step_props(pre: StoreModel, u: Seq<char>, d: u32)
    requires
        pre.wf(),
    ensures
        enqueue_step(pre, u, d).wf(),
        enqueue_step(pre, u, d).visited == pre.visited,
        enqueue_step(pre, u, d).emails == pre.emails,
        enqueue_step(pre, u, d).phones == pre.phones,
        enqueue_step(pre, u, d).images == pre.images,
        pre.tasks.len() <= enqueue_step(pre, u, d).tasks.len() <= pre.tasks.len() + 1,
        forall|k: int|
            0 <= k < pre.tasks.len() ==> (#[trigger] enqueue_step(pre, u, d).tasks[k])
                == pre.tasks[k],
        forall|k: int|
            pre.tasks.len() <= k < enqueue_step(pre, u, d).tasks.len()
                ==> (#[trigger] enqueue_step(pre, u, d).tasks[k]) == (TaskModel {
                url: u,
                depth: d,
                state: TaskState::Pending,
            }) && !pre.has_task(u),
{
    let post = enqueue_step(pre, u, d);
    if !pre.has_task(u) {
        assert(post.tasks == pre.tasks.push(TaskModel { url: u, depth: d, state: TaskState::Pending }));
        assert forall|a: int, b: int|
            0 <= a < b < post.tasks.len() implies (#[trigger] post.tasks[a]).url != (
        #[trigger] post.tasks[b]).url by {
            if b == post.tasks.len() - 1 {
                assert((#[trigger] pre.tasks[a]).url != u);
            } else {
                assert(pre.tasks[a].url != pre.tasks[b].url);
            }
        }
    }
}

/// Offering links loses nothing and touches only the frontier: every
/// existing row is kept unchanged, nothing but tasks moves, and every row
/// added is a pending task at the offered depth whose URL was neither
/// visited nor in the frontier before.
pub proof fn lemma_offer_links_props(
    pre: StoreModel,
    ls: Seq<LinkModel>,
    d: u32,
    stay: bool,
    base: Seq<char>,
)
    requires
        pre.wf(),
    ensures
        offer_links_step(pre, ls, d, stay, base).wf(),
        offer_links_step(pre, ls, d, stay, base).visited == pre.visited,
        offer_links_step(pre, ls, d, stay, base).emails == pre.emails,
        offer_links_step(pre, ls, d, stay, base).phones == pre.phones,
        offer_links_step(pre, ls, d, stay, base).images == pre.images,
        offer_links_step(pre, ls, d, stay, base).tasks.len() >= pre.tasks.len(),
        forall|k: int|
            0 <= k < pre.tasks.len() ==> (#[trigger] offer_links_step(
                pre,
                ls,
                d,
                stay,
                base,
            ).tasks[k]) == pre.tasks[k],
        forall|k: int|
            pre.tasks.len() <= k < offer_links_step(pre, ls, d, stay, base).tasks.len() ==> {
                let t = #[trigger] offer_links_step(pre, ls, d, stay, base).tasks[k];
                t.state is Pending && t.depth == d && !pre.has_visited(t.url) && !pre.has_task(
                    t.url,
                )
            },
    decreases ls.len(),
{
    if ls.len() > 0 {
        lemma_offer_links_props(pre, ls.drop_last(), d, stay, base);
        let mid = offer_links_step(pre, ls.drop_last(), d, stay, base);
        let l = ls.last();
        let post = offer_links_step(pre, ls, d, stay, base);
        assert(post == offer_link_step(mid, l, d, stay, base));
        if link_passes_gate(l, stay, base) && !mid.has_visited(l.url) {
            lemma_enqueue_step_props(mid, l.url, d);
            assert forall|k: int|
                pre.tasks.len() <= k < post.tasks.len() implies {
                    let t = #[trigger] post.tasks[k];
                    t.state is Pending && t.depth == d && !pre.has_visited(t.url)
                        && !pre.has_task(t.url)
                } by {
                    if k < mid.tasks.len() {
                        assert(post.tasks[k] == mid.tasks[k]);
                    } else {
                        assert(post.tasks[k] == (TaskModel {
                            url: l.url,
                            depth: d,
                            state: TaskState::Pending,
                        }));
                        assert(!mid.has_task(l.url));
                        if pre.has_task(l.url) {
                            let w = choose|i: int|
                                0 <= i < pre.tasks.len() && (#[trigger] pre.tasks[i]).url == l.url;
                            assert((#[trigger] mid.tasks[w]) == pre.tasks[w]);
                            assert(mid.has_task(l.url));
                        }
                    }
                }
        }
    }
}

/// The browser identity a worker presents, picked from a fixed pool of
/// six by a caller-supplied draw, reduced modulo the pool size.
pub fn user_agent_for(pick: usize) -> (ua: &'static str)
    ensures
        ({
            ||| ua@ == "Mozilla/5.0 (Windows NT 10.0; Win64; x64) AppleWebKit/537.36 (KHTML, like Gecko) Chrome/120.0.0.0 Safari/537.36"@
            ||| ua@ == "Mozilla/5.0 (Windows NT 10.0; Win64; x64; rv:121.0) Gecko/20100101 Firefox/121.0"@
            ||| ua@ == "Mozilla/5.0 (Macintosh; Intel Mac OS X 10_15_7) AppleWebKit/537.36 (KHTML, like Gecko) Chrome/120.0.0.0 Safari/537.36"@
            ||| ua@ == "Mozilla/5.0 (Macintosh; Intel Mac OS X 10_15_7) AppleWebKit/605.1.15 (KHTML, like Gecko) Version/17.2 Safari/605.1.15"@
            ||| ua@ == "Mozilla/5.0 (X11; Linux x86_64) AppleWebKit/537.36 (KHTML, like Gecko) Chrome/120.0.0.0 Safari/537.36"@
            ||| ua@ == "Mozilla/5.0 (Windows NT 10.0; Win64; x64) AppleWebKit/537.36 (KHTML, like Gecko) Chrome/120.0.0.0 Safari/537.36 Edg/120.0.0.0"@
        }),
{
    match pick % 6 {
        0 => "Mozilla/5.0 (Windows NT 10.0; Win64; x64) AppleWebKit/537.36 (KHTML, like Gecko) Chrome/120.0.0.0 Safari/537.36",
        1 => "Mozilla/5.0 (Windows NT 10.0; Win64; x64; rv:121.0) Gecko/20100101 Firefox/121.0",
        2 => "Mozilla/5.0 (Macintosh; Intel Mac OS X 10_15_7) AppleWebKit/537.36 (KHTML, like Gecko) Chrome/120.0.0.0 Safari/537.36",
        3 => "Mozilla/5.0 (Macintosh; Intel Mac OS X 10_15_7) AppleWebKit/605.1.15 (KHTML, like Gecko) Version/17.2 Safari/605.1.15",
        4 => "Mozilla/5.0 (X11; Linux x86_64) AppleWebKit/537.36 (KHTML, like Gecko) Chrome/120.0.0.0 Safari/537.36",
        _ => "Mozilla/5.0 (Windows NT 10.0; Win64; x64) AppleWebKit/537.36 (KHTML, like Gecko) Chrome/120.0.0.0 Safari/537.36 Edg/120.0.0.0",
    }
}

/// Whether a response's content type is text the crawl should scan: the
/// body is read only for HTML and plain text.
pub fn content_type_is_text(ct: &str) -> (r: bool)
    ensures
        r == (crate::text::contains_seq(ct@, "text/html"@) || crate::text::contains_seq(
            ct@,
            "text/plain"@,
        )),
{
    if crate::text::str_contains(ct, "text/html") {
        return true;
    }
    crate::text::str_contains(ct, "text/plain")
}

} // verus!
