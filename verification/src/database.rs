//! The durable-state model of a crawl: the frontier of URL tasks with their
//! pending / processing / done lifecycle, the set of visited URLs, and the
//! deduplicated artifact tables (emails, phones, images).
//!
//! The store is the single source of truth for what remains to be crawled.
//! Its operations keep one invariant: every frontier URL, every visited URL
//! and every artifact attribution occurs at most once.

use vstd::prelude::*;

verus! {

/// Lifecycle of a frontier task.
#[derive(Clone, Copy, PartialEq, Eq, Structural, Debug)]
pub enum TaskState {
    Pending,
    Processing,
    Done,
}

/// One row of the crawl frontier: a discovered URL, the depth at which it
/// was discovered, and its lifecycle state.
pub struct FrontierTask {
    pub url: String,
    pub depth: u32,
    pub state: TaskState,
}

/// One artifact attribution: a value (an email, a phone number or an image
/// identifier) together with the page it was found on.
pub struct ArtifactRow {
    pub value: String,
    pub source_url: String,
}

/// Mathematical image of one frontier task.
pub struct TaskModel {
    pub url: Seq<char>,
    pub depth: u32,
    pub state: TaskState,
}

/// Mathematical image of one artifact row.
pub struct RowModel {
    pub value: Seq<char>,
    pub source: Seq<char>,
}

impl View for FrontierTask {
    type V = TaskModel;

    open spec fn view(&self) -> TaskModel {
        TaskModel { url: self.url@, depth: self.depth, state: self.state }
    }
}

impl View for ArtifactRow {
    type V = RowModel;

    open spec fn view(&self) -> RowModel {
        RowModel { value: self.value@, source: self.source_url@ }
    }
}

/// The mathematical image of a task table.
pub open spec fn tasks_model(ts: Seq<FrontierTask>) -> Seq<TaskModel> {
    ts.map_values(|t: FrontierTask| t@)
}

/// The mathematical image of a list of strings.
pub open spec fn strs_model(ss: Seq<String>) -> Seq<Seq<char>> {
    ss.map_values(|s: String| s@)
}

/// The mathematical image of an artifact table.
pub open spec fn rows_model(rs: Seq<ArtifactRow>) -> Seq<RowModel> {
    rs.map_values(|r: ArtifactRow| r@)
}

/// Mathematical image of the whole store.
pub struct StoreModel {
    pub tasks: Seq<TaskModel>,
    pub visited: Seq<Seq<char>>,
    pub emails: Seq<RowModel>,
    pub phones: Seq<RowModel>,
    pub images: Seq<RowModel>,
}

impl StoreModel {
    /// Whether some frontier row holds this URL, in any state.
    pub open spec fn has_task(self, u: Seq<char>) -> bool {
        tasks_contain_url(self.tasks, u)
    }

    /// Whether this URL has ever been dispatched.
    pub open spec fn has_visited(self, u: Seq<char>) -> bool {
        self.visited.contains(u)
    }

    /// Whether this email attribution is already recorded.
    pub open spec fn has_email(self, value: Seq<char>, source: Seq<char>) -> bool {
        self.emails.contains(RowModel { value, source })
    }

    /// Whether this phone attribution is already recorded.
    pub open spec fn has_phone(self, value: Seq<char>, source: Seq<char>) -> bool {
        self.phones.contains(RowModel { value, source })
    }

    /// Whether an image with this identifier is already recorded.
    pub open spec fn has_image(self, uuid: Seq<char>) -> bool {
        rows_contain_value(self.images, uuid)
    }

    /// Every URL, visited entry and artifact attribution occurs at most once;
    /// image identifiers are unique on their own.
    pub open spec fn wf(self) -> bool {
        &&& forall|i: int, j: int|
            0 <= i < j < self.tasks.len() ==> (#[trigger] self.tasks[i]).url != (
            #[trigger] self.tasks[j]).url
        &&& forall|i: int, j: int|
            0 <= i < j < self.visited.len() ==> (#[trigger] self.visited[i]) != (
            #[trigger] self.visited[j])
        &&& forall|i: int, j: int|
            0 <= i < j < self.emails.len() ==> (#[trigger] self.emails[i]) != (
            #[trigger] self.emails[j])
        &&& forall|i: int, j: int|
            0 <= i < j < self.phones.len() ==> (#[trigger] self.phones[i]) != (
            #[trigger] self.phones[j])
        &&& forall|i: int, j: int|
            0 <= i < j < self.images.len() ==> (#[trigger] self.images[i]).value != (
            #[trigger] self.images[j]).value
    }
}

/// Whether some task row holds this URL, in any state.
pub open spec fn tasks_contain_url(tasks: Seq<TaskModel>, u: Seq<char>) -> bool {
    exists|i: int| 0 <= i < tasks.len() && (#[trigger] tasks[i]).url == u
}

/// How many frontier rows hold this URL.
pub open spec fn occurrences(tasks: Seq<TaskModel>, u: Seq<char>) -> nat
    decreases tasks.len(),
{
    if tasks.len() == 0 {
        0
    } else {
        occurrences(tasks.drop_last(), u) + if tasks.last().url == u {
            1nat
        } else {
            0nat
        }
    }
}

/// Whether some row carries this value, whatever its source.
pub open spec fn rows_contain_value(rows: Seq<RowModel>, v: Seq<char>) -> bool {
    exists|i: int| 0 <= i < rows.len() && (#[trigger] rows[i]).value == v
}

/// How many distinct values the rows carry, however many attributions
/// each value has.
pub open spec fn distinct_value_count(rows: Seq<RowModel>) -> nat
    decreases rows.len(),
{
    if rows.len() == 0 {
        0
    } else {
        distinct_value_count(rows.drop_last()) + if rows_contain_value(
            rows.drop_last(),
            rows.last().value,
        ) {
            0nat
        } else {
            1nat
        }
    }
}

/// The effect of recording an attribution: a no-op when the exact
/// (value, source) pair is present, otherwise one new row at the end.
pub open spec fn insert_row_step(rows: Seq<RowModel>, v: Seq<char>, s: Seq<char>) -> Seq<
    RowModel,
> {
    if rows.contains(RowModel { value: v, source: s }) {
        rows
    } else {
        rows.push(RowModel { value: v, source: s })
    }
}

/// The effect of recording an image: a no-op when the identifier is
/// present, otherwise one new row at the end.
pub open spec fn insert_image_step(rows: Seq<RowModel>, v: Seq<char>, s: Seq<char>) -> Seq<
    RowModel,
> {
    if rows_contain_value(rows, v) {
        rows
    } else {
        rows.push(RowModel { value: v, source: s })
    }
}

/// How many tasks are in the given state.
pub open spec fn count_state(tasks: Seq<TaskModel>, s: TaskState) -> nat
    decreases tasks.len(),
{
    if tasks.len() == 0 {
        0
    } else {
        count_state(tasks.drop_last(), s) + if tasks.last().state == s {
            1nat
        } else {
            0nat
        }
    }
}

/// No task is waiting to be claimed.
pub open spec fn no_pending(tasks: Seq<TaskModel>) -> bool {
    forall|i: int| 0 <= i < tasks.len() ==> !((#[trigger] tasks[i]).state is Pending)
}

/// The effect of enqueueing `u` at depth `d`: a no-op when some row already
/// holds `u`, otherwise one new pending row at the end.
pub open spec fn enqueue_step(pre: StoreModel, u: Seq<char>, d: u32) -> StoreModel {
    if pre.has_task(u) {
        pre
    } else {
        StoreModel {
            tasks: pre.tasks.push(TaskModel { url: u, depth: d, state: TaskState::Pending }),
            visited: pre.visited,
            emails: pre.emails,
            phones: pre.phones,
            images: pre.images,
        }
    }
}

/// The task, marked done if it holds the given URL and was claimed: only
/// a processing row moves to done.
pub open spec fn mark_done(t: TaskModel, u: Seq<char>) -> TaskModel {
    if t.url == u && t.state is Processing {
        TaskModel { url: t.url, depth: t.depth, state: TaskState::Done }
    } else {
        t
    }
}

/// The task, moved back to pending if it was processing.
pub open spec fn unprocess(t: TaskModel) -> TaskModel {
    if t.state is Processing {
        TaskModel { url: t.url, depth: t.depth, state: TaskState::Pending }
    } else {
        t
    }
}

/// The effect of completing `u`: a processing row holding `u` is done;
/// a pending, done or absent `u` is left alone — completion is idempotent
/// and never an error.
pub open spec fn complete_step(pre: StoreModel, u: Seq<char>) -> StoreModel {
    StoreModel {
        tasks: pre.tasks.map_values(|t: TaskModel| mark_done(t, u)),
        visited: pre.visited,
        emails: pre.emails,
        phones: pre.phones,
        images: pre.images,
    }
}

/// The effect of a resume repair: every processing row is pending again,
/// all else unchanged.
pub open spec fn reset_step(pre: StoreModel) -> StoreModel {
    StoreModel {
        tasks: pre.tasks.map_values(|t: TaskModel| unprocess(t)),
        visited: pre.visited,
        emails: pre.emails,
        phones: pre.phones,
        images: pre.images,
    }
}

/// Some row was claimed: see `claims_at`.
pub open spec fn claimed(pre: StoreModel, post: StoreModel, u: Seq<char>, d: u32) -> bool {
    exists|i: int| #[trigger] claims_at(pre, post, i, u, d)
}

/// The shape of a successful claim: row `i` was the first pending row, it
/// held `u` at depth `d`, and it alone moved to `Processing`.
pub open spec fn claims_at(pre: StoreModel, post: StoreModel, i: int, u: Seq<char>, d: u32) -> bool {
    &&& 0 <= i < pre.tasks.len()
    &&& pre.tasks[i].state is Pending
    &&& forall|j: int| 0 <= j < i ==> !((#[trigger] pre.tasks[j]).state is Pending)
    &&& u == pre.tasks[i].url
    &&& d == pre.tasks[i].depth
    &&& post.tasks == pre.tasks.update(
        i,
        TaskModel { url: u, depth: d, state: TaskState::Processing },
    )
    &&& post.visited == pre.visited
    &&& post.emails == pre.emails
    &&& post.phones == pre.phones
    &&& post.images == pre.images
}

/// The in-memory store behind the frontier, the visited tracker and the
/// artifact tables.
pub struct Database {
    tasks: Vec<FrontierTask>,
    visited: Vec<String>,
    emails: Vec<ArtifactRow>,
    phones: Vec<ArtifactRow>,
    images: Vec<ArtifactRow>,
}

impl View for Database {
    type V = StoreModel;

    closed spec fn view(&self) -> StoreModel {
        StoreModel {
            tasks: tasks_model(self.tasks@),
            visited: strs_model(self.visited@),
            emails: rows_model(self.emails@),
            phones: rows_model(self.phones@),
            images: rows_model(self.images@),
        }
    }
}

impl Database {
    /// A fresh, empty store.
    pub fn new() -> (db: Database)
        ensures
            db@.wf(),
            db@.tasks =~= Seq::<TaskModel>::empty(),
            db@.visited =~= Seq::<Seq<char>>::empty(),
            db@.emails =~= Seq::<RowModel>::empty(),
            db@.phones =~= Seq::<RowModel>::empty(),
            db@.images =~= Seq::<RowModel>::empty(),
    {
        Database {
            tasks: Vec::new(),
            visited: Vec::new(),
            emails: Vec::new(),
            phones: Vec::new(),
            images: Vec::new(),
        }
    }

    /// Add a URL to the frontier as pending, unless any row (in any state)
    /// already holds it. Idempotent by construction.
    pub fn queue_url(&mut self, url: &str, depth: u32) -> (inserted: bool)
        requires
            old(self)@.wf(),
        ensures
            final(self)@.wf(),
            inserted == !old(self)@.has_task(url@),
            final(self)@ == enqueue_step(old(self)@, url@, depth),
    {
        let n = self.tasks.len();
        let mut i: usize = 0;
        while i < n
            invariant
                i <= n,
                n == self.tasks.len(),
                *self == *old(self),
                old(self)@.wf(),
                forall|k: int| 0 <= k < i ==> (#[trigger] self@.tasks[k]).url != url@,
            decreases n - i,
        {
            if crate::text::str_eq(self.tasks[i].url.as_str(), url) {
                assert((#[trigger] self@.tasks[i as int]).url == url@);
                assert(self@.has_task(url@));
                return false;
            }
            i += 1;
        }
        assert(!self@.has_task(url@));
        self.tasks.push(
            FrontierTask { url: url.to_owned(), depth, state: TaskState::Pending },
        );
        proof {
            assert(final(self)@.tasks =~= enqueue_step(old(self)@, url@, depth).tasks);
            assert forall|i2: int, j2: int|
                0 <= i2 < j2 < final(self)@.tasks.len() implies (
            #[trigger] final(self)@.tasks[i2]).url != (#[trigger] final(self)@.tasks[j2]).url by {
                if j2 < final(self)@.tasks.len() - 1 {
                    assert(old(self)@.tasks[i2].url != old(self)@.tasks[j2].url);
                }
            }
        }
        true
    }

    /// Whether this URL has ever been dispatched to a worker.
    pub fn is_visited(&self, url: &str) -> (r: bool)
        ensures
            r == self@.has_visited(url@),
    {
        let n = self.visited.len();
        let mut i: usize = 0;
        while i < n
            invariant
                i <= n,
                n == self.visited.len(),
                forall|k: int| 0 <= k < i ==> (#[trigger] self@.visited[k]) != url@,
            decreases n - i,
        {
            if crate::text::str_eq(self.visited[i].as_str(), url) {
                assert(self@.visited[i as int] == url@);
                return true;
            }
            i += 1;
        }
        assert(!self@.visited.contains(url@));
        false
    }

    /// Record that this URL has been dispatched. Idempotent.
    pub fn mark_visited(&mut self, url: &str)
        requires
            old(self)@.wf(),
        ensures
            final(self)@.wf(),
            final(self)@.has_visited(url@),
            old(self)@.has_visited(url@) ==> final(self)@ == old(self)@,
            !old(self)@.has_visited(url@) ==> final(self)@ == (StoreModel {
                visited: old(self)@.visited.push(url@),
                ..old(self)@
            }),
    {
        if self.is_visited(url) {
            return ;
        }
        self.visited.push(url.to_owned());
        proof {
            assert(final(self)@.visited =~= old(self)@.visited.push(url@));
            assert(final(self)@.visited.last() == url@);
            assert forall|i2: int, j2: int|
                0 <= i2 < j2 < final(self)@.visited.len() implies (
            #[trigger] final(self)@.visited[i2]) != (#[trigger] final(self)@.visited[j2]) by {
                if j2 == final(self)@.visited.len() - 1 {
                    assert(!old(self)@.visited.contains(url@));
                    assert(old(self)@.visited[i2] != url@);
                }
            }
        }
    }

    /// Atomically claim one pending task: the first pending row moves to
    /// `Processing` and its URL and depth are returned. Returns nothing iff
    /// no pending task exists, leaving the store unchanged.
    pub fn pop_url(&mut self) -> (r: Option<(String, u32)>)
        requires
            old(self)@.wf(),
        ensures
            final(self)@.wf(),
            match r {
                Option::None => final(self)@ == old(self)@ && no_pending(old(self)@.tasks),
                Option::Some(p) => claimed(old(self)@, final(self)@, p.0@, p.1),
            },
    {
        match self.find_first_pending() {
            Option::None => None,
            Option::Some(i) => {
                let url = self.tasks[i].url.clone();
                let depth = self.tasks[i].depth;
                self.tasks[i].state = TaskState::Processing;
                proof {
                    let m = TaskModel { url: url@, depth, state: TaskState::Processing };
                    assert(self@.tasks =~= old(self)@.tasks.update(i as int, m));
                    assert(claims_at(old(self)@, self@, i as int, url@, depth));
                    assert(claimed(old(self)@, self@, url@, depth));
                    assert forall|a: int, b: int|
                        0 <= a < b < self@.tasks.len() implies (#[trigger] self@.tasks[a]).url != (
                    #[trigger] self@.tasks[b]).url by {
                        assert(old(self)@.tasks[a].url != old(self)@.tasks[b].url);
                    }
                }
                Some((url, depth))
            },
        }
    }

    /// The index of the first pending task, if any.
    fn find_first_pending(&self) -> (r: Option<usize>)
        ensures
            match r {
                Option::None => no_pending(self@.tasks),
                Option::Some(i) => i < self@.tasks.len() && self@.tasks[i as int].state is Pending
                    && forall|j: int|
                    0 <= j < i ==> !((#[trigger] self@.tasks[j]).state is Pending),
            },
    {
        let n = self.tasks.len();
        let mut i: usize = 0;
        while i < n
            invariant
                i <= n,
                n == self.tasks.len(),
                forall|k: int| 0 <= k < i ==> !((#[trigger] self@.tasks[k]).state is Pending),
            decreases n - i,
        {
            if self.tasks[i].state == TaskState::Pending {
                return Some(i);
            }
            i += 1;
        }
        None
    }

    /// Mark a claimed (processing) row holding this URL as done. Idempotent;
    /// a no-op on a pending, already-done or unknown URL, never an error.
    pub fn complete_url(&mut self, url: &str)
        requires
            old(self)@.wf(),
        ensures
            final(self)@.wf(),
            final(self)@ == complete_step(old(self)@, url@),
    {
        let n = self.tasks.len();
        let mut i: usize = 0;
        while i < n
            invariant
                i <= n,
                n == self.tasks.len(),
                old(self)@.wf(),
                old(self)@.tasks.len() == n,
                self@.tasks.len() == n,
                self@.visited == old(self)@.visited,
                self@.emails == old(self)@.emails,
                self@.phones == old(self)@.phones,
                self@.images == old(self)@.images,
                forall|k: int|
                    0 <= k < i ==> #[trigger] self@.tasks[k] == mark_done(
                        old(self)@.tasks[k],
                        url@,
                    ),
                forall|k: int| i <= k < n ==> #[trigger] self@.tasks[k] == old(self)@.tasks[k],
            decreases n - i,
        {
            let ghost prev = self@;
            if self.tasks[i].state == TaskState::Processing && crate::text::str_eq(
                self.tasks[i].url.as_str(),
                url,
            ) {
                self.tasks[i].state = TaskState::Done;
                proof {
                    assert(self@.tasks[i as int] == mark_done(old(self)@.tasks[i as int], url@));
                    assert(forall|k: int|
                        0 <= k < n && k != i ==> #[trigger] self@.tasks[k] == prev.tasks[k]);
                }
            } else {
                proof {
                    assert(self@.tasks[i as int] == mark_done(old(self)@.tasks[i as int], url@));
                }
            }
            i += 1;
        }
        proof {
            assert(self@.tasks =~= old(self)@.tasks.map_values(|t: TaskModel| mark_done(t, url@)));
            assert forall|a: int, b: int|
                0 <= a < b < self@.tasks.len() implies (#[trigger] self@.tasks[a]).url != (
            #[trigger] self@.tasks[b]).url by {
                assert(old(self)@.tasks[a].url != old(self)@.tasks[b].url);
            }
        }
    }

    /// Move every `Processing` row back to `Pending` and say how many rows
    /// were moved: repair after an interrupted run, before resuming.
    pub fn reset_processing(&mut self) -> (moved: u64)
        requires
            old(self)@.wf(),
        ensures
            final(self)@.wf(),
            final(self)@ == reset_step(old(self)@),
            moved == count_state(old(self)@.tasks, TaskState::Processing),
    {
        let n = self.tasks.len();
        let mut i: usize = 0;
        let mut moved: u64 = 0;
        while i < n
            invariant
                i <= n,
                n == self.tasks.len(),
                old(self)@.wf(),
                old(self)@.tasks.len() == n,
                self@.tasks.len() == n,
                self@.visited == old(self)@.visited,
                self@.emails == old(self)@.emails,
                self@.phones == old(self)@.phones,
                self@.images == old(self)@.images,
                moved <= i,
                moved == count_state(
                    old(self)@.tasks.subrange(0, i as int),
                    TaskState::Processing,
                ),
                forall|k: int|
                    0 <= k < i ==> #[trigger] self@.tasks[k] == unprocess(old(self)@.tasks[k]),
                forall|k: int| i <= k < n ==> #[trigger] self@.tasks[k] == old(self)@.tasks[k],
            decreases n - i,
        {
            proof {
                assert(old(self)@.tasks.subrange(0, i + 1).drop_last() =~= old(
                    self,
                )@.tasks.subrange(0, i as int));
                assert(old(self)@.tasks.subrange(0, i + 1).last() == old(self)@.tasks[i as int]);
            }
            let ghost prev = self@;
            if self.tasks[i].state == TaskState::Processing {
                self.tasks[i].state = TaskState::Pending;
                moved = moved + 1;
                proof {
                    assert(self@.tasks[i as int] == unprocess(old(self)@.tasks[i as int]));
                    assert(forall|k: int|
                        0 <= k < n && k != i ==> #[trigger] self@.tasks[k] == prev.tasks[k]);
                }
            } else {
                proof {
                    assert(self@.tasks[i as int] == unprocess(old(self)@.tasks[i as int]));
                }
            }
            i += 1;
        }
        proof {
            assert(old(self)@.tasks.subrange(0, n as int) =~= old(self)@.tasks);
            assert(self@.tasks =~= old(self)@.tasks.map_values(|t: TaskModel| unprocess(t)));
            assert forall|a: int, b: int|
                0 <= a < b < self@.tasks.len() implies (#[trigger] self@.tasks[a]).url != (
            #[trigger] self@.tasks[b]).url by {
                assert(old(self)@.tasks[a].url != old(self)@.tasks[b].url);
            }
        }
        moved
    }

    /// How many tasks are in the given state.
    fn count_in_state(&self, want: TaskState) -> (c: u64)
        ensures
            c == count_state(self@.tasks, want),
    {
        let n = self.tasks.len();
        let mut i: usize = 0;
        let mut c: u64 = 0;
        while i < n
            invariant
                i <= n,
                n == self.tasks.len(),
                c <= i,
                c == count_state(self@.tasks.subrange(0, i as int), want),
            decreases n - i,
        {
            proof {
                assert(self@.tasks.subrange(0, i + 1).drop_last() =~= self@.tasks.subrange(
                    0,
                    i as int,
                ));
                assert(self@.tasks.subrange(0, i + 1).last() == self@.tasks[i as int]);
            }
            if self.tasks[i].state == want {
                c = c + 1;
            }
            i += 1;
        }
        proof {
            assert(self@.tasks.subrange(0, n as int) =~= self@.tasks);
        }
        c
    }

    /// How many tasks are waiting to be claimed.
    pub fn pending_count(&self) -> (c: u64)
        ensures
            c == count_state(self@.tasks, TaskState::Pending),
    {
        self.count_in_state(TaskState::Pending)
    }

    /// How many tasks are claimed but not yet finished.
    pub fn processing_count(&self) -> (c: u64)
        ensures
            c == count_state(self@.tasks, TaskState::Processing),
    {
        self.count_in_state(TaskState::Processing)
    }

    /// Forget all frontier and visited state, for a fresh (non-resumed) run.
    /// Artifacts are kept: they are never deleted.
    pub fn clear_queue(&mut self)
        ensures
            final(self)@.tasks =~= Seq::<TaskModel>::empty(),
            final(self)@.visited =~= Seq::<Seq<char>>::empty(),
            final(self)@.emails == old(self)@.emails,
            final(self)@.phones == old(self)@.phones,
            final(self)@.images == old(self)@.images,
            old(self)@.wf() ==> final(self)@.wf(),
    {
        self.tasks.clear();
        self.visited.clear();
        proof {
            assert(self@.tasks =~= Seq::<TaskModel>::empty());
            assert(self@.visited =~= Seq::<Seq<char>>::empty());
            assert(self@.tasks.len() == 0);
            assert(self@.visited.len() == 0);
            assert(self@.emails == old(self)@.emails);
            assert(self@.phones == old(self)@.phones);
            assert(self@.images == old(self)@.images);
        }
    }

    /// Record an email attribution unless this exact (email, source) pair is
    /// already stored. The same email found on another page is a new row.
    pub fn insert_email(&mut self, email: &str, source_url: &str) -> (inserted: bool)
        requires
            old(self)@.wf(),
        ensures
            final(self)@.wf(),
            inserted == !old(self)@.has_email(email@, source_url@),
            final(self)@.emails == insert_row_step(old(self)@.emails, email@, source_url@),
            final(self)@.tasks == old(self)@.tasks,
            final(self)@.visited == old(self)@.visited,
            final(self)@.phones == old(self)@.phones,
            final(self)@.images == old(self)@.images,
    {
        let ghost pair = RowModel { value: email@, source: source_url@ };
        let n = self.emails.len();
        let mut i: usize = 0;
        while i < n
            invariant
                i <= n,
                n == self.emails.len(),
                *self == *old(self),
                old(self)@.wf(),
                pair == (RowModel { value: email@, source: source_url@ }),
                forall|k: int| 0 <= k < i ==> (#[trigger] self@.emails[k]) != pair,
            decreases n - i,
        {
            if crate::text::str_eq(self.emails[i].value.as_str(), email) && crate::text::str_eq(
                self.emails[i].source_url.as_str(),
                source_url,
            ) {
                assert((#[trigger] self@.emails[i as int]) == pair);
                return false;
            }
            i += 1;
        }
        assert(!self@.emails.contains(pair));
        self.emails.push(ArtifactRow { value: email.to_owned(), source_url: source_url.to_owned() });
        proof {
            assert(self@.tasks == old(self)@.tasks);
            assert(self@.visited == old(self)@.visited);
            assert(self@.phones == old(self)@.phones);
            assert(self@.images == old(self)@.images);
            assert(self@.emails =~= old(self)@.emails.push(pair));
            assert forall|a: int, b: int|
                0 <= a < b < self@.emails.len() implies (#[trigger] self@.emails[a]) != (
            #[trigger] self@.emails[b]) by {
                if b == self@.emails.len() - 1 {
                    assert(old(self)@.emails[a] != pair);
                }
            }
        }
        true
    }

    /// Record a phone attribution unless this exact (phone, source) pair is
    /// already stored.
    pub fn insert_phone(&mut self, phone: &str, source_url: &str) -> (inserted: bool)
        requires
            old(self)@.wf(),
        ensures
            final(self)@.wf(),
            inserted == !old(self)@.has_phone(phone@, source_url@),
            final(self)@.phones == insert_row_step(old(self)@.phones, phone@, source_url@),
            final(self)@.tasks == old(self)@.tasks,
            final(self)@.visited == old(self)@.visited,
            final(self)@.emails == old(self)@.emails,
            final(self)@.images == old(self)@.images,
    {
        let ghost pair = RowModel { value: phone@, source: source_url@ };
        let n = self.phones.len();
        let mut i: usize = 0;
        while i < n
            invariant
                i <= n,
                n == self.phones.len(),
                *self == *old(self),
                old(self)@.wf(),
                pair == (RowModel { value: phone@, source: source_url@ }),
                forall|k: int| 0 <= k < i ==> (#[trigger] self@.phones[k]) != pair,
            decreases n - i,
        {
            if crate::text::str_eq(self.phones[i].value.as_str(), phone) && crate::text::str_eq(
                self.phones[i].source_url.as_str(),
                source_url,
            ) {
                assert((#[trigger] self@.phones[i as int]) == pair);
                return false;
            }
            i += 1;
        }
        assert(!self@.phones.contains(pair));
        self.phones.push(ArtifactRow { value: phone.to_owned(), source_url: source_url.to_owned() });
        proof {
            assert(self@.tasks == old(self)@.tasks);
            assert(self@.visited == old(self)@.visited);
            assert(self@.emails == old(self)@.emails);
            assert(self@.images == old(self)@.images);
            assert(self@.phones =~= old(self)@.phones.push(pair));
            assert forall|a: int, b: int|
                0 <= a < b < self@.phones.len() implies (#[trigger] self@.phones[a]) != (
            #[trigger] self@.phones[b]) by {
                if b == self@.phones.len() - 1 {
                    assert(old(self)@.phones[a] != pair);
                }
            }
        }
        true
    }

    /// Record an image by its identifier unless that identifier is already
    /// stored.
    pub fn insert_image(&mut self, uuid: &str, source_url: &str) -> (inserted: bool)
        requires
            old(self)@.wf(),
        ensures
            final(self)@.wf(),
            inserted == !old(self)@.has_image(uuid@),
            final(self)@.images == insert_image_step(old(self)@.images, uuid@, source_url@),
            final(self)@.tasks == old(self)@.tasks,
            final(self)@.visited == old(self)@.visited,
            final(self)@.emails == old(self)@.emails,
            final(self)@.phones == old(self)@.phones,
    {
        let n = self.images.len();
        let mut i: usize = 0;
        while i < n
            invariant
                i <= n,
                n == self.images.len(),
                *self == *old(self),
                old(self)@.wf(),
                forall|k: int| 0 <= k < i ==> (#[trigger] self@.images[k]).value != uuid@,
            decreases n - i,
        {
            if crate::text::str_eq(self.images[i].value.as_str(), uuid) {
                assert((#[trigger] self@.images[i as int]).value == uuid@);
                return false;
            }
            i += 1;
        }
        assert(!rows_contain_value(self@.images, uuid@));
        self.images.push(ArtifactRow { value: uuid.to_owned(), source_url: source_url.to_owned() });
        proof {
            assert(self@.tasks == old(self)@.tasks);
            assert(self@.visited == old(self)@.visited);
            assert(self@.emails == old(self)@.emails);
            assert(self@.phones == old(self)@.phones);
            assert(self@.images =~= old(self)@.images.push(
                RowModel { value: uuid@, source: source_url@ },
            ));
            assert forall|a: int, b: int|
                0 <= a < b < self@.images.len() implies (#[trigger] self@.images[a]).value != (
            #[trigger] self@.images[b]).value by {
                if b == self@.images.len() - 1 {
                    assert(old(self)@.images[a].value != uuid@);
                }
            }
        }
        true
    }

    /// How many distinct values this artifact table carries.
    fn count_distinct_values(rows: &Vec<ArtifactRow>) -> (c: u64)
        ensures
            c == distinct_value_count(rows_model(rows@)),
    {
        let ghost m = rows_model(rows@);
        let n = rows.len();
        let mut i: usize = 0;
        let mut c: u64 = 0;
        while i < n
            invariant
                i <= n,
                n == rows.len(),
                m == rows_model(rows@),
                c <= i,
                c == distinct_value_count(m.subrange(0, i as int)),
            decreases n - i,
        {
            proof {
                assert(m.subrange(0, i + 1).drop_last() =~= m.subrange(0, i as int));
                assert(m.subrange(0, i + 1).last() == m[i as int]);
            }
            let mut j: usize = 0;
            let mut seen = false;
            while j < i
                invariant
                    j <= i < n,
                    n == rows.len(),
                    m == rows_model(rows@),
                    seen ==> rows_contain_value(m.subrange(0, i as int), m[i as int].value),
                    !seen ==> forall|k: int|
                        0 <= k < j ==> (#[trigger] m[k]).value != m[i as int].value,
                decreases i - j,
            {
                if crate::text::str_eq(rows[j].value.as_str(), rows[i].value.as_str()) {
                    proof {
                        assert(m.subrange(0, i as int)[j as int] == m[j as int]);
                        assert((#[trigger] m.subrange(0, i as int)[j as int]).value == m[
                            i as int
                        ].value);
                    }
                    seen = true;
                    j = i;
                } else {
                    j += 1;
                }
            }
            if !seen {
                proof {
                    assert forall|k: int|
                        0 <= k < m.subrange(0, i as int).len() implies (#[trigger] m.subrange(
                        0,
                        i as int,
                    )[k]).value != m[i as int].value by {
                        assert(m.subrange(0, i as int)[k] == m[k]);
                    }
                    assert(!rows_contain_value(m.subrange(0, i as int), m[i as int].value));
                }
                c = c + 1;
            }
            i += 1;
        }
        proof {
            assert(m.subrange(0, n as int) =~= m);
        }
        c
    }

    /// How many distinct email addresses are stored.
    pub fn get_email_count(&self) -> (c: u64)
        ensures
            c == distinct_value_count(self@.emails),
    {
        Self::count_distinct_values(&self.emails)
    }

    /// How many email attributions are stored, duplicates across pages
    /// counted separately.
    pub fn get_total_entries(&self) -> (c: u64)
        ensures
            c == self@.emails.len(),
    {
        self.emails.len() as u64
    }

    /// The pair of (distinct email count, total email attribution count).
    pub fn get_stats(&self) -> (r: (u64, u64))
        ensures
            r.0 == distinct_value_count(self@.emails),
            r.1 == self@.emails.len(),
    {
        let unique = self.get_email_count();
        let total = self.get_total_entries();
        (unique, total)
    }

    /// How many distinct phone numbers are stored.
    pub fn get_phone_count(&self) -> (c: u64)
        ensures
            c == distinct_value_count(self@.phones),
    {
        Self::count_distinct_values(&self.phones)
    }

    /// How many images are stored.
    pub fn get_image_count(&self) -> (c: u64)
        ensures
            c == self@.images.len(),
    {
        self.images.len() as u64
    }
}


/// In a frontier whose URLs are pairwise distinct, a URL occurs exactly
/// once when present and never otherwise.
pub proof fn lemma_occurrences_distinct(tasks: Seq<TaskModel>, u: Seq<char>)
    requires
        forall|i: int, j: int|
            0 <= i < j < tasks.len() ==> (#[trigger] tasks[i]).url != (#[trigger] tasks[j]).url,
    ensures
        occurrences(tasks, u) == if tasks_contain_url(tasks, u) {
            1nat
        } else {
            0nat
        },
    decreases tasks.len(),
{
    if tasks.len() > 0 {
        let prefix = tasks.drop_last();
        assert(forall|k: int| 0 <= k < prefix.len() ==> (#[trigger] prefix[k]) == tasks[k]);
        lemma_occurrences_distinct(prefix, u);
        if tasks.last().url == u {
            assert forall|k: int| 0 <= k < prefix.len() implies (#[trigger] prefix[k]).url != u by {
                assert(tasks[k].url != tasks[tasks.len() - 1].url);
            }
            assert(!tasks_contain_url(prefix, u));
            assert(tasks_contain_url(tasks, u));
        } else {
            if tasks_contain_url(prefix, u) {
                let w = choose|k: int| 0 <= k < prefix.len() && (#[trigger] prefix[k]).url == u;
                assert((#[trigger] tasks[w]).url == u);
            }
            if tasks_contain_url(tasks, u) {
                let w = choose|k: int| 0 <= k < tasks.len() && (#[trigger] tasks[k]).url == u;
                assert(w < tasks.len() - 1);
                assert((#[trigger] prefix[w]).url == u);
            }
        }
    }
}

/// Idempotent enqueue: enqueueing the same URL twice, at whatever depths,
/// leaves the store of the first enqueue untouched, with exactly one
/// frontier row for that URL.
pub proof fn lemma_enqueue_idempotent(db0: StoreModel, u: Seq<char>, d1: u32, d2: u32)
    requires
        db0.wf(),
    ensures
        enqueue_step(enqueue_step(db0, u, d1), u, d2) == enqueue_step(db0, u, d1),
        occurrences(enqueue_step(db0, u, d1).tasks, u) == 1,
{
    let db1 = enqueue_step(db0, u, d1);
    lemma_occurrences_distinct(db0.tasks, u);
    if db0.has_task(u) {
        assert(db1 == db0);
    } else {
        let t = TaskModel { url: u, depth: d1, state: TaskState::Pending };
        assert(db1.tasks == db0.tasks.push(t));
        assert(db1.tasks.drop_last() =~= db0.tasks);
        assert(db1.tasks.last() == t);
        assert(occurrences(db1.tasks, u) == occurrences(db0.tasks, u) + 1);
        assert((#[trigger] db1.tasks[db1.tasks.len() - 1]).url == u);
        assert(db1.has_task(u));
    }
    assert(db1.has_task(u));
    assert(enqueue_step(db1, u, d2) == db1);
}

/// Counting tasks in a state after one row is replaced: the count loses the
/// old row's contribution and gains the new one's.
pub proof fn lemma_count_state_update(tasks: Seq<TaskModel>, i: int, t: TaskModel, s: TaskState)
    requires
        0 <= i < tasks.len(),
    ensures
        count_state(tasks.update(i, t), s) + (if tasks[i].state == s {
            1nat
        } else {
            0nat
        }) == count_state(tasks, s) + (if t.state == s {
            1nat
        } else {
            0nat
        }),
    decreases tasks.len(),
{
    if i == tasks.len() - 1 {
        assert(tasks.update(i, t).drop_last() =~= tasks.drop_last());
        assert(tasks.update(i, t).last() == t);
    } else {
        assert(tasks.update(i, t).drop_last() =~= tasks.drop_last().update(i, t));
        assert(tasks.update(i, t).last() == tasks.last());
        lemma_count_state_update(tasks.drop_last(), i, t, s);
    }
}

/// At-most-one-claim: two successive successful claims never return the
/// same URL, however the depths and rows fall.
pub proof fn lemma_claim_at_most_once(
    db0: StoreModel,
    db1: StoreModel,
    db2: StoreModel,
    i: int,
    j: int,
    u1: Seq<char>,
    d1: u32,
    u2: Seq<char>,
    d2: u32,
)
    requires
        db0.wf(),
        claims_at(db0, db1, i, u1, d1),
        claims_at(db1, db2, j, u2, d2),
    ensures
        u1 != u2,
{
    assert(db1.tasks[i].state is Processing);
    assert(j != i);
    assert(db1.tasks[j] == db0.tasks[j]);
    assert(u2 == db0.tasks[j].url);
    if i < j {
        assert((#[trigger] db0.tasks[i]).url != (#[trigger] db0.tasks[j]).url);
    } else {
        assert((#[trigger] db0.tasks[j]).url != (#[trigger] db0.tasks[i]).url);
    }
}


/// Whether each step of a claim chain is a claim: `models` walks the store
/// through `idxs.len()` successive claims of `urls` at `depths`.
pub open spec fn claim_chain(
    models: Seq<StoreModel>,
    idxs: Seq<int>,
    urls: Seq<Seq<char>>,
    depths: Seq<u32>,
) -> bool {
    &&& models.len() == idxs.len() + 1
    &&& urls.len() == idxs.len()
    &&& depths.len() == idxs.len()
    &&& forall|i: int|
        0 <= i < idxs.len() ==> #[trigger] claims_at(
            models[i],
            models[i + 1],
            idxs[i],
            urls[i],
            depths[i],
        )
}

/// Along a claim chain the frontier keeps its size and its URLs: claims
/// only move states.
pub proof fn lemma_claim_chain_urls_stable(
    models: Seq<StoreModel>,
    idxs: Seq<int>,
    urls: Seq<Seq<char>>,
    depths: Seq<u32>,
    m: int,
)
    requires
        claim_chain(models, idxs, urls, depths),
        0 <= m <= idxs.len(),
    ensures
        models[m].tasks.len() == models[0].tasks.len(),
        forall|x: int|
            0 <= x < models[0].tasks.len() ==> (#[trigger] models[m].tasks[x]).url
                == models[0].tasks[x].url,
    decreases m,
{
    if m > 0 {
        lemma_claim_chain_urls_stable(models, idxs, urls, depths, m - 1);
        assert(claims_at(models[m - 1], models[(m - 1) + 1], idxs[m - 1], urls[m - 1], depths[m - 1]));
        assert(models[(m - 1) + 1] == models[m]);
        assert forall|x: int|
            0 <= x < models[0].tasks.len() implies (#[trigger] models[m].tasks[x]).url
            == models[0].tasks[x].url by {
            assert(models[m - 1].tasks[x].url == models[0].tasks[x].url);
        }
    }
}

/// Once a chain has claimed row `k`, that row stays processing, under its
/// URL, through every later step of the chain.
pub proof fn lemma_claim_chain_row_processing(
    models: Seq<StoreModel>,
    idxs: Seq<int>,
    urls: Seq<Seq<char>>,
    depths: Seq<u32>,
    k: int,
    m: int,
)
    requires
        claim_chain(models, idxs, urls, depths),
        0 <= k < m <= idxs.len(),
    ensures
        0 <= idxs[k] < models[m].tasks.len(),
        models[m].tasks[idxs[k]].url == urls[k],
        models[m].tasks[idxs[k]].state is Processing,
    decreases m - k,
{
    assert(claims_at(models[k], models[k + 1], idxs[k], urls[k], depths[k]));
    lemma_claim_chain_urls_stable(models, idxs, urls, depths, k + 1);
    lemma_claim_chain_urls_stable(models, idxs, urls, depths, m);
    if m == k + 1 {
    } else {
        lemma_claim_chain_row_processing(models, idxs, urls, depths, k, m - 1);
        assert(claims_at(models[m - 1], models[(m - 1) + 1], idxs[m - 1], urls[m - 1], depths[m - 1]));
        assert(models[(m - 1) + 1] == models[m]);
        assert(models[m - 1].tasks[idxs[m - 1]].state is Pending);
        assert(idxs[m - 1] != idxs[k]);
        assert(models[m].tasks[idxs[k]] == models[m - 1].tasks[idxs[k]]);
    }
}

/// At-most-one-claim over a whole chain: however many claims follow one
/// another on a well-formed store, no URL is ever returned twice.
pub proof fn lemma_claim_chain_distinct(
    models: Seq<StoreModel>,
    idxs: Seq<int>,
    urls: Seq<Seq<char>>,
    depths: Seq<u32>,
)
    requires
        claim_chain(models, idxs, urls, depths),
        models[0].wf(),
    ensures
        forall|i: int, j: int| 0 <= i < j < urls.len() ==> urls[i] != urls[j],
{
    assert forall|i: int, j: int| 0 <= i < j < urls.len() implies urls[i] != urls[j] by {
        lemma_claim_chain_row_processing(models, idxs, urls, depths, i, j);
        assert(claims_at(models[j], models[j + 1], idxs[j], urls[j], depths[j]));
        assert(models[j].tasks[idxs[j]].state is Pending);
        assert(idxs[j] != idxs[i]);
        lemma_claim_chain_urls_stable(models, idxs, urls, depths, j);
        assert(urls[i] == models[0].tasks[idxs[i]].url);
        assert(urls[j] == models[0].tasks[idxs[j]].url);
        if idxs[i] < idxs[j] {
            assert((#[trigger] models[0].tasks[idxs[i]]).url != (
            #[trigger] models[0].tasks[idxs[j]]).url);
        } else {
            assert((#[trigger] models[0].tasks[idxs[j]]).url != (
            #[trigger] models[0].tasks[idxs[i]]).url);
        }
    }
}


/// A task that is still pending after part of a claim chain has run is
/// untouched since the start of the chain.
pub proof fn lemma_claim_chain_pending_from_start(
    models: Seq<StoreModel>,
    idxs: Seq<int>,
    urls: Seq<Seq<char>>,
    depths: Seq<u32>,
    m: int,
    x: int,
)
    requires
        claim_chain(models, idxs, urls, depths),
        0 <= m <= idxs.len(),
        0 <= x < models[m].tasks.len(),
        models[m].tasks[x].state is Pending,
    ensures
        0 <= x < models[0].tasks.len(),
        models[m].tasks[x] == models[0].tasks[x],
    decreases m,
{
    lemma_claim_chain_urls_stable(models, idxs, urls, depths, m);
    if m > 0 {
        assert(claims_at(models[m - 1], models[(m - 1) + 1], idxs[m - 1], urls[m - 1], depths[m - 1]));
        assert(models[(m - 1) + 1] == models[m]);
        if x == idxs[m - 1] {
            assert(models[m].tasks[x].state is Processing);
        }
        assert(models[m].tasks[x] == models[m - 1].tasks[x]);
        lemma_claim_chain_pending_from_start(models, idxs, urls, depths, m - 1, x);
    }
}

/// A task the chain never claims keeps its starting state throughout.
pub proof fn lemma_claim_chain_unclaimed_unchanged(
    models: Seq<StoreModel>,
    idxs: Seq<int>,
    urls: Seq<Seq<char>>,
    depths: Seq<u32>,
    k: int,
    m: int,
)
    requires
        claim_chain(models, idxs, urls, depths),
        0 <= k < models[0].tasks.len(),
        0 <= m <= idxs.len(),
        forall|i: int| 0 <= i < m ==> idxs[i] != k,
    ensures
        models[m].tasks[k] == models[0].tasks[k],
    decreases m,
{
    lemma_claim_chain_urls_stable(models, idxs, urls, depths, m);
    if m > 0 {
        lemma_claim_chain_urls_stable(models, idxs, urls, depths, m - 1);
        lemma_claim_chain_unclaimed_unchanged(models, idxs, urls, depths, k, m - 1);
        assert(claims_at(models[m - 1], models[(m - 1) + 1], idxs[m - 1], urls[m - 1], depths[m - 1]));
        assert(models[(m - 1) + 1] == models[m]);
        assert(idxs[m - 1] != k);
        assert(models[m].tasks[k] == models[m - 1].tasks[k]);
    }
}

/// A frontier with nothing pending counts no pending task.
pub proof fn lemma_no_pending_count_zero(tasks: Seq<TaskModel>)
    requires
        no_pending(tasks),
    ensures
        count_state(tasks, TaskState::Pending) == 0,
    decreases tasks.len(),
{
    if tasks.len() > 0 {
        assert(forall|i: int|
            0 <= i < tasks.drop_last().len() ==> (#[trigger] tasks.drop_last()[i]) == tasks[i]);
        lemma_no_pending_count_zero(tasks.drop_last());
        assert(!((#[trigger] tasks[tasks.len() - 1]).state is Pending));
    }
}

/// Each claim of a chain takes one off the pending count.
pub proof fn lemma_claim_chain_pending_count(
    models: Seq<StoreModel>,
    idxs: Seq<int>,
    urls: Seq<Seq<char>>,
    depths: Seq<u32>,
    m: int,
)
    requires
        claim_chain(models, idxs, urls, depths),
        0 <= m <= idxs.len(),
    ensures
        count_state(models[m].tasks, TaskState::Pending) + m == count_state(
            models[0].tasks,
            TaskState::Pending,
        ),
    decreases m,
{
    if m > 0 {
        lemma_claim_chain_pending_count(models, idxs, urls, depths, m - 1);
        assert(claims_at(models[m - 1], models[(m - 1) + 1], idxs[m - 1], urls[m - 1], depths[m - 1]));
        assert(models[(m - 1) + 1] == models[m]);
        lemma_claim_preserves_frontier(models[m - 1], models[m], idxs[m - 1], urls[m - 1], depths[m - 1]);
    }
}

/// Draining the frontier: when a chain of claims ends with nothing pending,
/// the claims are exactly the initially pending rows — each claim returns
/// such a row's URL and depth, every such row is claimed, no URL twice, and
/// the chain is exactly as long as the initial pending count.
pub proof fn lemma_claim_chain_drains(
    models: Seq<StoreModel>,
    idxs: Seq<int>,
    urls: Seq<Seq<char>>,
    depths: Seq<u32>,
)
    requires
        claim_chain(models, idxs, urls, depths),
        models[0].wf(),
        no_pending(models[idxs.len() as int].tasks),
    ensures
        forall|i: int|
            0 <= i < idxs.len() ==> 0 <= idxs[i] < models[0].tasks.len() && (
            #[trigger] models[0].tasks[idxs[i]]) == (TaskModel {
                url: urls[i],
                depth: depths[i],
                state: TaskState::Pending,
            }),
        forall|k: int|
            0 <= k < models[0].tasks.len() && (#[trigger] models[0].tasks[k]).state is Pending
                ==> exists|i: int| 0 <= i < idxs.len() && #[trigger] idxs[i] == k,
        forall|i: int, j: int| 0 <= i < j < urls.len() ==> urls[i] != urls[j],
        idxs.len() == count_state(models[0].tasks, TaskState::Pending),
{
    let n = idxs.len() as int;
    lemma_claim_chain_distinct(models, idxs, urls, depths);
    assert forall|i: int|
        0 <= i < n implies 0 <= idxs[i] < models[0].tasks.len() && (
    #[trigger] models[0].tasks[idxs[i]]) == (TaskModel {
        url: urls[i],
        depth: depths[i],
        state: TaskState::Pending,
    }) by {
        assert(claims_at(models[i], models[i + 1], idxs[i], urls[i], depths[i]));
        lemma_claim_chain_pending_from_start(models, idxs, urls, depths, i, idxs[i]);
    }
    assert forall|k: int|
        0 <= k < models[0].tasks.len() && (#[trigger] models[0].tasks[k]).state is Pending implies
        exists|i: int| 0 <= i < idxs.len() && #[trigger] idxs[i] == k by {
        if forall|i: int| 0 <= i < n ==> #[trigger] idxs[i] != k {
            lemma_claim_chain_urls_stable(models, idxs, urls, depths, n);
            lemma_claim_chain_unclaimed_unchanged(models, idxs, urls, depths, k, n);
            assert((#[trigger] models[n].tasks[k]).state is Pending);
            assert(false);
        }
    }
    lemma_claim_chain_pending_count(models, idxs, urls, depths, n);
    lemma_no_pending_count_zero(models[n].tasks);
}

/// A claim loses nothing: every URL keeps its row and depth, one pending
/// row becomes processing, and no other state changes.
pub proof fn lemma_claim_preserves_frontier(
    pre: StoreModel,
    post: StoreModel,
    i: int,
    u: Seq<char>,
    d: u32,
)
    requires
        claims_at(pre, post, i, u, d),
    ensures
        post.tasks.len() == pre.tasks.len(),
        forall|k: int|
            0 <= k < pre.tasks.len() ==> (#[trigger] post.tasks[k]).url == pre.tasks[k].url
                && post.tasks[k].depth == pre.tasks[k].depth,
        count_state(post.tasks, TaskState::Pending) + 1 == count_state(
            pre.tasks,
            TaskState::Pending,
        ),
        count_state(post.tasks, TaskState::Processing) == count_state(
            pre.tasks,
            TaskState::Processing,
        ) + 1,
        count_state(post.tasks, TaskState::Done) == count_state(pre.tasks, TaskState::Done),
{
    let t = TaskModel { url: u, depth: d, state: TaskState::Processing };
    lemma_count_state_update(pre.tasks, i, t, TaskState::Pending);
    lemma_count_state_update(pre.tasks, i, t, TaskState::Processing);
    lemma_count_state_update(pre.tasks, i, t, TaskState::Done);
}

/// Counting states after a resume repair, over a task table alone.
pub proof fn lemma_reset_counts(tasks: Seq<TaskModel>)
    ensures
        count_state(tasks.map_values(|t: TaskModel| unprocess(t)), TaskState::Processing) == 0,
        count_state(tasks.map_values(|t: TaskModel| unprocess(t)), TaskState::Pending)
            == count_state(tasks, TaskState::Pending) + count_state(
            tasks,
            TaskState::Processing,
        ),
        count_state(tasks.map_values(|t: TaskModel| unprocess(t)), TaskState::Done) == count_state(
            tasks,
            TaskState::Done,
        ),
    decreases tasks.len(),
{
    let rt = tasks.map_values(|t: TaskModel| unprocess(t));
    if tasks.len() == 0 {
        assert(rt =~= Seq::<TaskModel>::empty());
    } else {
        assert(rt.drop_last() =~= tasks.drop_last().map_values(|t: TaskModel| unprocess(t)));
        assert(rt.last() == unprocess(tasks.last()));
        lemma_reset_counts(tasks.drop_last());
    }
}

/// Resume safety: the repair keeps every row, URL and depth, returns every
/// interrupted row to pending, and leaves nothing mid-processing; the count
/// it reports is exactly the number of rows that were interrupted.
pub proof fn lemma_resume_safety(pre: StoreModel)
    requires
        pre.wf(),
    ensures
        reset_step(pre).wf(),
        reset_step(pre).tasks.len() == pre.tasks.len(),
        forall|k: int|
            0 <= k < pre.tasks.len() ==> (#[trigger] reset_step(pre).tasks[k]).url
                == pre.tasks[k].url && reset_step(pre).tasks[k].depth == pre.tasks[k].depth,
        count_state(reset_step(pre).tasks, TaskState::Processing) == 0,
        count_state(reset_step(pre).tasks, TaskState::Pending) == count_state(
            pre.tasks,
            TaskState::Pending,
        ) + count_state(pre.tasks, TaskState::Processing),
{
    lemma_reset_counts(pre.tasks);
    let post = reset_step(pre);
    assert forall|a: int, b: int|
        0 <= a < b < post.tasks.len() implies (#[trigger] post.tasks[a]).url != (
    #[trigger] post.tasks[b]).url by {
        assert(pre.tasks[a].url != pre.tasks[b].url);
    }
}

/// Artifact dedup: inserting the same attribution twice stores one row and
/// the repeat changes nothing; the same value from a second page stores a
/// second row, both attributions kept.
pub proof fn lemma_artifact_dedup(rows: Seq<RowModel>, v: Seq<char>, s1: Seq<char>, s2: Seq<char>)
    requires
        s1 != s2,
        !rows.contains(RowModel { value: v, source: s1 }),
        !rows.contains(RowModel { value: v, source: s2 }),
    ensures
        insert_row_step(rows, v, s1).len() == rows.len() + 1,
        insert_row_step(insert_row_step(rows, v, s1), v, s1) == insert_row_step(rows, v, s1),
        insert_row_step(insert_row_step(rows, v, s1), v, s2).len() == rows.len() + 2,
        insert_row_step(insert_row_step(rows, v, s1), v, s2).contains(
            RowModel { value: v, source: s1 },
        ),
        insert_row_step(insert_row_step(rows, v, s1), v, s2).contains(
            RowModel { value: v, source: s2 },
        ),
{
    let p1 = RowModel { value: v, source: s1 };
    let p2 = RowModel { value: v, source: s2 };
    let once = insert_row_step(rows, v, s1);
    assert(once == rows.push(p1));
    assert(once[once.len() - 1] == p1);
    assert(once.contains(p1));
    assert forall|k: int| 0 <= k < once.len() implies (#[trigger] once[k]) != p2 by {
        if k < rows.len() {
            assert(rows[k] == once[k]);
            assert(rows.contains(p2) == exists|m: int|
                0 <= m < rows.len() && (#[trigger] rows[m]) == p2);
        }
    }
    assert(!once.contains(p2));
    let twice = insert_row_step(once, v, s2);
    assert(twice == once.push(p2));
    assert(twice[twice.len() - 1] == p2);
    assert(twice[once.len() - 1] == p1);
    assert(twice.contains(p1));
    assert(twice.contains(p2));
}

} // verus!
