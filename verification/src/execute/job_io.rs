use vstd::prelude::*;
use crate::text::str_eq;

verus! {

/// Text that a job wrote while it could not be shown.
#[derive(Debug)]
pub enum Output {
    Stdout(String),
    Stderr(String),
}

#[derive(PartialEq, Eq, Structural, Clone, Copy)]
pub enum TrackedJobState {
    InProgress,
    Complete,
    Closed,
}

struct TrackedJob {
    job_id: String,
    job_state: TrackedJobState,
    buffer: Vec<Output>,
}

/// What the console has to do: write text on behalf of a job, or let a job
/// read from stdin.
#[derive(Debug)]
pub enum IoAction {
    Stdout { job: String, text: String },
    Stderr { job: String, text: String },
    StdinReady { job: String },
}

/// How a job ended.
#[derive(Debug)]
pub enum JobOutcome {
    UpToDate,
    Success,
    Failed(String),
}

/// `a` writes out the held-back output `o` of job `id`.
pub open spec fn releases(a: IoAction, id: Seq<char>, o: Output) -> bool {
    match o {
        Output::Stdout(t) => a matches IoAction::Stdout { job, text } && job@ == id && text@ == t@,
        Output::Stderr(t) => a matches IoAction::Stderr { job, text } && job@ == id && text@ == t@,
    }
}

/// The line that announces that job `id` started.
pub open spec fn started_line(id: Seq<char>) -> Seq<char> {
    "[v--v] "@ + id + " started\n"@
}

fn started_text(job_id: &str) -> (r: String)
    ensures
        r@ == started_line(job_id@),
{
    let mut r = String::from_str("[v--v] ");
    r.append(job_id);
    r.append(" started\n");
    r
}

/// The line that announces how job `id` ended.
pub open spec fn outcome_line(id: Seq<char>, outcome: JobOutcome) -> Seq<char> {
    match outcome {
        JobOutcome::UpToDate => "[ UP ] "@ + id + " is up to date\n"@,
        JobOutcome::Success => "[ OK ] "@ + id + " succeeded\n"@,
        JobOutcome::Failed(e) => "[FAIL] "@ + id + " failed: "@ + e@ + "\n"@,
    }
}

fn outcome_text(job_id: &str, outcome: &JobOutcome) -> (r: String)
    ensures
        r@ == outcome_line(job_id@, *outcome),
{
    match outcome {
        JobOutcome::UpToDate => {
            let mut r = String::from_str("[ UP ] ");
            r.append(job_id);
            r.append(" is up to date\n");
            r
        },
        JobOutcome::Success => {
            let mut r = String::from_str("[ OK ] ");
            r.append(job_id);
            r.append(" succeeded\n");
            r
        },
        JobOutcome::Failed(e) => {
            let mut r = String::from_str("[FAIL] ");
            r.append(job_id);
            r.append(" failed: ");
            r.append(e.as_str());
            r.append("\n");
            r
        },
    }
}

/// Job `j` is the first job that is not closed.
spec fn first_open(jobs: Seq<TrackedJob>, j: int) -> bool {
    &&& 0 <= j < jobs.len()
    &&& jobs[j].job_state != TrackedJobState::Closed
    &&& forall|k: int| 0 <= k < j ==> #[trigger] jobs[k].job_state == TrackedJobState::Closed
}

/// The jobs on whose behalf the actions write text, in order.
pub open spec fn action_jobs(actions: Seq<IoAction>) -> Seq<Seq<char>>
    decreases actions.len(),
{
    if actions.len() == 0 {
        seq![]
    } else {
        let rest = action_jobs(actions.drop_last());
        match actions.last() {
            IoAction::Stdout { job, .. } => rest.push(job@),
            IoAction::Stderr { job, .. } => rest.push(job@),
            IoAction::StdinReady { .. } => rest,
        }
    }
}

/// The entries of each job form one contiguous block.
pub open spec fn grouped(log: Seq<Seq<char>>) -> bool {
    forall|i: int, j: int, k: int|
        0 <= i < j < k < log.len() && #[trigger] log[i] == #[trigger] log[k] ==> #[trigger] log[j] == log[i]
}

/// Shows the console output of concurrently running jobs one job at a time:
/// the output of the job that is shown goes out at once, the output of the
/// others is held back until their turn comes.
pub struct ConcurrentIO {
    jobs: Vec<TrackedJob>,
    active_job: Option<usize>,
    log: Ghost<Seq<Seq<char>>>,
}

spec fn count_open(jobs: Seq<TrackedJob>) -> nat
    decreases jobs.len(),
{
    if jobs.len() == 0 {
        0
    } else {
        count_open(jobs.drop_last()) + if jobs.last().job_state != TrackedJobState::Closed {
            1nat
        } else {
            0nat
        }
    }
}

proof fn lemma_count_open_eq(a: Seq<TrackedJob>, b: Seq<TrackedJob>)
    requires
        a.len() == b.len(),
        forall|k: int| 0 <= k < a.len() ==> #[trigger] a[k].job_state == b[k].job_state,
    ensures
        count_open(a) == count_open(b),
    decreases a.len(),
{
    if a.len() > 0 {
        lemma_count_open_eq(a.drop_last(), b.drop_last());
        assert(a.last().job_state == b.last().job_state);
    }
}

proof fn lemma_count_open_update(jobs: Seq<TrackedJob>, i: int, job: TrackedJob)
    requires
        0 <= i < jobs.len(),
    ensures
        count_open(jobs.update(i, job)) + (if jobs[i].job_state != TrackedJobState::Closed {
            1int
        } else {
            0int
        }) == count_open(jobs) + (if job.job_state != TrackedJobState::Closed {
            1int
        } else {
            0int
        }),
    decreases jobs.len(),
{
    if i < jobs.len() - 1 {
        lemma_count_open_update(jobs.drop_last(), i, job);
        assert(jobs.update(i, job).drop_last() =~= jobs.drop_last().update(i, job));
    } else {
        assert(jobs.update(i, job).drop_last() =~= jobs.drop_last());
    }
}

impl ConcurrentIO {
    /// The ids of the tracked jobs.
    pub closed spec fn job_ids(&self) -> Seq<Seq<char>> {
        self.jobs@.map_values(|j: TrackedJob| j.job_id@)
    }

    /// The state of each tracked job.
    pub closed spec fn job_states(&self) -> Seq<TrackedJobState> {
        self.jobs@.map_values(|j: TrackedJob| j.job_state)
    }

    /// The job whose output is shown now.
    pub closed spec fn active(&self) -> Option<usize> {
        self.active_job
    }

    /// The jobs on whose behalf text has been written so far, in order.
    pub closed spec fn log(&self) -> Seq<Seq<char>> {
        self.log@
    }

    pub open spec fn tracks(&self, id: Seq<char>) -> bool {
        self.job_ids().contains(id)
    }

    pub closed spec fn wf(&self) -> bool {
        &&& forall|i: int, j: int|
            0 <= i < j < self.jobs@.len() ==> #[trigger] self.jobs@[i].job_id@ != #[trigger] self.jobs@[j].job_id@
        &&& self.active_job matches Some(a) ==> {
            &&& (a as int) < self.jobs@.len()
            &&& self.jobs@[a as int].job_state != TrackedJobState::Closed
            &&& self.jobs@[a as int].buffer@.len() == 0
        }
    }

    /// Job `j` is closed or shown.
    spec fn settled_job(&self, j: int) -> bool {
        self.jobs@[j].job_state == TrackedJobState::Closed || (self.active_job matches Some(a) && a as int == j)
    }

    /// `id` is the id of a job that is closed or shown.
    spec fn owned_entry(&self, id: Seq<char>) -> bool {
        exists|j: int| 0 <= j < self.jobs@.len() && self.jobs@[j].job_id@ == id && #[trigger] self.settled_job(j)
    }

    /// Output is grouped by job, every job in the output is closed or shown,
    /// and the shown job's output ends the log.
    pub closed spec fn output_grouped(&self) -> bool {
        let log = self.log@;
        &&& grouped(log)
        &&& forall|i: int| 0 <= i < log.len() ==> #[trigger] self.owned_entry(log[i])
        &&& self.active_job matches Some(a) ==> forall|i: int, j: int|
            0 <= i < j < log.len() && #[trigger] log[i] == self.jobs@[a as int].job_id@ ==> #[trigger] log[j]
                == log[i]
    }

    pub fn new() -> (r: ConcurrentIO)
        ensures
            r.wf(),
            r.inv(),
            r.output_grouped(),
            r.job_ids().len() == 0,
            r.active() is None,
            r.log().len() == 0,
    {
        ConcurrentIO { jobs: Vec::new(), active_job: None, log: Ghost(Seq::empty()) }
    }

    /// The held-back output of each tracked job.
    pub closed spec fn buffers(&self) -> Seq<Seq<Output>> {
        self.jobs@.map_values(|j: TrackedJob| j.buffer@)
    }

    /// Writes out the held-back output of job `i`.
    fn flush_buffer(&mut self, i: usize) -> (actions: Vec<IoAction>)
        requires
            old(self).wf(),
            (i as int) < old(self).jobs@.len(),
        ensures
            final(self).wf(),
            final(self).active_job == old(self).active_job,
            final(self).jobs@.len() == old(self).jobs@.len(),
            forall|k: int|
                #![trigger final(self).jobs@[k]]
                0 <= k < final(self).jobs@.len() ==> final(self).jobs@[k].job_id@ == old(self).jobs@[k].job_id@
                    && final(self).jobs@[k].job_state == old(self).jobs@[k].job_state,
            forall|k: int| 0 <= k < final(self).jobs@.len() && k != i ==> #[trigger] final(self).jobs@[k].buffer@
                == old(self).jobs@[k].buffer@,
            final(self).jobs@[i as int].buffer@.len() == 0,
            actions@.len() == old(self).jobs@[i as int].buffer@.len(),
            forall|k: int|
                0 <= k < actions@.len() ==> releases(
                    #[trigger] actions@[k],
                    old(self).jobs@[i as int].job_id@,
                    old(self).jobs@[i as int].buffer@[k],
                ),
            action_jobs(actions@) == repeat(old(self).jobs@[i as int].job_id@, old(self).jobs@[i as int].buffer@.len()),
            final(self).log@ == old(self).log@ + action_jobs(actions@),
    {
        let mut buffer: Vec<Output> = Vec::new();
        std::mem::swap(&mut buffer, &mut self.jobs[i].buffer);
        let ghost id = self.jobs@[i as int].job_id@;
        let mut actions: Vec<IoAction> = Vec::new();
        let mut k: usize = 0;
        while k < buffer.len()
            invariant
                k <= buffer@.len(),
                (i as int) < self.jobs@.len(),
                self.jobs@[i as int].job_id@ == id,
                action_jobs(actions@) == repeat(id, k as nat),
                actions@.len() == k,
                forall|m: int| 0 <= m < k ==> releases(#[trigger] actions@[m], id, buffer@[m]),
            decreases buffer@.len() - k,
        {
            let job = self.jobs[i].job_id.clone();
            let ghost before = actions@;
            match &buffer[k] {
                Output::Stdout(s) => {
                    actions.push(IoAction::Stdout { job, text: s.clone() });
                },
                Output::Stderr(s) => {
                    actions.push(IoAction::Stderr { job, text: s.clone() });
                },
            }
            proof {
                lemma_action_jobs_push(before, actions@.last());
                assert(actions@ == before.push(actions@.last()));
                assert(action_jobs(actions@) =~= repeat(id, k as nat + 1));
            }
            k = k + 1;
        }
        proof {
            self.log@ = self.log@ + action_jobs(actions@);
        }
        actions
    }

    /// The shown job, if any, is running; with no shown job, every job is closed.
    pub closed spec fn settled(&self) -> bool {
        match self.active_job {
            Some(a) => self.jobs@[a as int].job_state == TrackedJobState::InProgress,
            None => forall|j: int| 0 <= j < self.jobs@.len() ==> #[trigger] self.jobs@[j].job_state
                == TrackedJobState::Closed,
        }
    }

    /// Each job keeps its id; its state stays, or goes from complete to closed.
    spec fn jobs_advanced(old_jobs: Seq<TrackedJob>, new_jobs: Seq<TrackedJob>) -> bool {
        &&& new_jobs.len() == old_jobs.len()
        &&& forall|k: int|
            0 <= k < new_jobs.len() ==> {
                &&& (#[trigger] new_jobs[k]).job_id@ == old_jobs[k].job_id@
                &&& (new_jobs[k].job_state == old_jobs[k].job_state || (old_jobs[k].job_state
                    == TrackedJobState::Complete && new_jobs[k].job_state == TrackedJobState::Closed))
            }
    }

    /// Job `j` became the shown job: its held-back output was written out,
    /// followed by the signal that it may read stdin; nothing else changed.
    spec fn shown_next(s0: Self, s1: Self, j: int, actions: Seq<IoAction>) -> bool {
        let id = s0.jobs@[j].job_id@;
        let buffer = s0.jobs@[j].buffer@;
        &&& s1.active_job matches Some(a) && a as int == j
        &&& s1.jobs@.len() == s0.jobs@.len()
        &&& forall|k: int|
            #![trigger s1.jobs@[k]]
            0 <= k < s1.jobs@.len() ==> {
                &&& s1.jobs@[k].job_id@ == s0.jobs@[k].job_id@
                &&& s1.jobs@[k].job_state == s0.jobs@[k].job_state
                &&& k != j ==> s1.jobs@[k].buffer@ == s0.jobs@[k].buffer@
            }
        &&& s1.jobs@[j].buffer@.len() == 0
        &&& actions.len() == buffer.len() + 1
        &&& forall|k: int| 0 <= k < buffer.len() ==> releases(#[trigger] actions[k], id, buffer[k])
        &&& actions.last() matches IoAction::StdinReady { job } && job@ == id
    }

    /// Closes the shown job once it has completed, and picks the next job to
    /// show, writing out the output that it held back.
    fn update_active_job(&mut self) -> (actions: Vec<IoAction>)
        requires
            old(self).wf(),
        ensures
            final(self).wf(),
            final(self).settled(),
            Self::jobs_advanced(old(self).jobs@, final(self).jobs@),
            final(self).log@ == old(self).log@ + action_jobs(actions@),
            old(self).output_grouped() ==> final(self).output_grouped(),
            old(self).active_job matches Some(a) && old(self).jobs@[a as int].job_state
                == TrackedJobState::InProgress ==> actions@.len() == 0 && *final(self) == *old(self),
            old(self).active_job matches Some(a) ==> (old(self).jobs@[a as int].job_state
                != TrackedJobState::InProgress ==> final(self).jobs@[a as int].job_state == TrackedJobState::Closed),
            forall|j: int|
                #![trigger first_open(old(self).jobs@, j)]
                old(self).active_job is None && first_open(old(self).jobs@, j) && old(self).jobs@[j].job_state
                    == TrackedJobState::InProgress ==> Self::shown_next(*old(self), *final(self), j, actions@),
        decreases 2 * count_open(old(self).jobs@) + if old(self).active_job is None {
            1int
        } else {
            0int
        },
    {
        match self.active_job {
            Some(a) => {
                if self.jobs[a].job_state == TrackedJobState::InProgress {
                    return Vec::new();
                }
                let ghost s0 = *self;
                let ghost grouped0 = self.output_grouped();
                let mut actions = self.flush_buffer(a);
                let ghost jobs1 = self.jobs@;
                self.jobs[a].job_state = TrackedJobState::Closed;
                self.active_job = None;
                proof {
                    let jobs0 = s0.jobs@;
                    let log0 = s0.log@;
                    let id = jobs0[a as int].job_id@;
                    assert forall|k: int| 0 <= k < jobs0.len() implies #[trigger] jobs0[k].job_state
                        == jobs1[k].job_state by {
                        assert(jobs1[k].job_id@ == jobs0[k].job_id@);
                    }
                    lemma_count_open_eq(jobs0, jobs1);
                    lemma_count_open_update(jobs1, a as int, self.jobs@[a as int]);
                    assert(self.jobs@ == jobs1.update(a as int, self.jobs@[a as int]));
                    assert forall|i: int, j: int|
                        0 <= i < j < self.jobs@.len() implies #[trigger] self.jobs@[i].job_id@
                        != #[trigger] self.jobs@[j].job_id@ by {
                        assert(jobs1[i].job_id@ == jobs0[i].job_id@);
                        assert(jobs1[j].job_id@ == jobs0[j].job_id@);
                    }
                    if grouped0 {
                        lemma_grouped_append_block(log0, id, jobs0[a as int].buffer@.len());
                        let log = self.log@;
                        assert(log == log0 + repeat(id, jobs0[a as int].buffer@.len()));
                        assert forall|i: int| 0 <= i < log.len() implies #[trigger] self.owned_entry(log[i]) by {
                            if i < log0.len() {
                                assert(s0.owned_entry(log0[i]));
                                let j = choose|j: int|
                                    0 <= j < jobs0.len() && jobs0[j].job_id@ == log0[i] && #[trigger] s0.settled_job(j);
                                assert(jobs1[j].job_id@ == jobs0[j].job_id@);
                                assert(self.jobs@[j].job_id@ == log[i]);
                                if j != a as int {
                                    assert(jobs1[j].job_state == jobs0[j].job_state);
                                }
                                assert(self.settled_job(j));
                            } else {
                                assert(log[i] == id);
                                assert(jobs1[a as int].job_id@ == id);
                                assert(self.jobs@[a as int].job_id@ == id);
                                assert(self.settled_job(a as int));
                            }
                        }
                        assert(self.output_grouped());
                    }
                }
                let ghost log_mid = self.log@;
                let mut more = self.update_active_job();
                let ghost a1 = actions@;
                let ghost a2 = more@;
                actions.append(&mut more);
                proof {
                    let jobs0 = s0.jobs@;
                    lemma_action_jobs_append(a1, a2);
                    assert(actions@ == a1 + a2);
                    assert(self.log@ =~= s0.log@ + action_jobs(actions@));
                    assert forall|k: int| 0 <= k < self.jobs@.len() implies {
                        &&& (#[trigger] self.jobs@[k]).job_id@ == jobs0[k].job_id@
                        &&& (self.jobs@[k].job_state == jobs0[k].job_state || (jobs0[k].job_state
                            == TrackedJobState::Complete && self.jobs@[k].job_state == TrackedJobState::Closed))
                    } by {
                        assert(jobs1[k].job_id@ == jobs0[k].job_id@);
                        assert(jobs1[k].job_state == jobs0[k].job_state);
                    }
                }
                actions
            },
            None => {
                let mut j: usize = 0;
                while j < self.jobs.len()
                    invariant
                        j <= self.jobs@.len(),
                        forall|k: int| 0 <= k < j ==> #[trigger] self.jobs@[k].job_state == TrackedJobState::Closed,
                    ensures
                        j <= self.jobs@.len(),
                        forall|k: int| 0 <= k < j ==> #[trigger] self.jobs@[k].job_state == TrackedJobState::Closed,
                        j < self.jobs@.len() ==> self.jobs@[j as int].job_state != TrackedJobState::Closed,
                    decreases self.jobs@.len() - j,
                {
                    if self.jobs[j].job_state != TrackedJobState::Closed {
                        break;
                    }
                    j = j + 1;
                }
                if j == self.jobs.len() {
                    return Vec::new();
                }
                let ghost s0 = *self;
                let ghost grouped0 = self.output_grouped();
                let mut actions = self.flush_buffer(j);
                let ghost fa = actions@;
                let job = self.jobs[j].job_id.clone();
                actions.push(IoAction::StdinReady { job });
                self.active_job = Some(j);
                proof {
                    let jobs0 = s0.jobs@;
                    let log0 = s0.log@;
                    let jobs1 = self.jobs@;
                    let id = jobs0[j as int].job_id@;
                    let a0 = actions@.drop_last();
                    lemma_action_jobs_push(a0, actions@.last());
                    assert(actions@ == a0.push(actions@.last()));
                    assert(a0 == fa);
                    assert(self.log@ =~= log0 + action_jobs(actions@));
                    assert forall|k: int| 0 <= k < jobs0.len() implies #[trigger] jobs0[k].job_state
                        == jobs1[k].job_state by {
                        assert(jobs1[k].job_id@ == jobs0[k].job_id@);
                    }
                    lemma_count_open_eq(jobs0, jobs1);
                    assert forall|i: int, k: int|
                        0 <= i < k < jobs1.len() implies #[trigger] jobs1[i].job_id@
                        != #[trigger] jobs1[k].job_id@ by {
                        assert(jobs1[i].job_id@ == jobs0[i].job_id@);
                        assert(jobs1[k].job_id@ == jobs0[k].job_id@);
                    }
                    if grouped0 {
                        assert forall|i: int, k: int| 0 <= i < k < log0.len() && log0[i] == id implies log0[k] == id by {
                            assert(s0.owned_entry(log0[i]));
                            let jj = choose|jj: int|
                                0 <= jj < jobs0.len() && jobs0[jj].job_id@ == log0[i] && #[trigger] s0.settled_job(jj);
                            if jj != j as int {
                                assert(jobs0[jj].job_id@ != jobs0[j as int].job_id@);
                            }
                        }
                        lemma_grouped_append_block(log0, id, jobs0[j as int].buffer@.len());
                        let log = self.log@;
                        assert(log == log0 + repeat(id, jobs0[j as int].buffer@.len()));
                        assert forall|i: int| 0 <= i < log.len() implies #[trigger] self.owned_entry(log[i]) by {
                            if i < log0.len() {
                                assert(s0.owned_entry(log0[i]));
                                let jj = choose|jj: int|
                                    0 <= jj < jobs0.len() && jobs0[jj].job_id@ == log0[i] && #[trigger] s0.settled_job(jj);
                                assert(jobs1[jj].job_id@ == jobs0[jj].job_id@);
                                assert(self.jobs@[jj].job_id@ == log[i]);
                                assert(self.settled_job(jj));
                            } else {
                                assert(log[i] == id);
                                assert(jobs1[j as int].job_id@ == id);
                                assert(self.settled_job(j as int));
                            }
                        }
                        assert(self.output_grouped());
                    }
                }
                let ghost log_mid = self.log@;
                let mut more = self.update_active_job();
                let ghost a1 = actions@;
                let ghost a2 = more@;
                actions.append(&mut more);
                proof {
                    lemma_action_jobs_append(a1, a2);
                    assert(actions@ == a1 + a2);
                    assert(self.log@ =~= s0.log@ + action_jobs(actions@));
                    assert forall|jj: int|
                        #![trigger first_open(s0.jobs@, jj)]
                        first_open(s0.jobs@, jj) && s0.jobs@[jj].job_state == TrackedJobState::InProgress implies Self::shown_next(s0, *self, jj, actions@) by {
                        if jj < j as int {
                            assert(s0.jobs@[jj].job_state == TrackedJobState::Closed);
                        }
                        if jj > j as int {
                            assert(s0.jobs@[j as int].job_state == TrackedJobState::Closed);
                        }
                        assert(a2.len() == 0);
                        assert(actions@ == a1);
                        assert forall|k: int| 0 <= k < fa.len() implies releases(#[trigger] actions@[k], s0.jobs@[jj].job_id@, s0.jobs@[jj].buffer@[k]) by {
                            assert(actions@[k] == fa[k]);
                        }
                    }
                }
                actions
            },
        }
    }

    /// The tracker is consistent and no job waits on a finished one.
    pub closed spec fn inv(&self) -> bool {
        self.wf() && self.settled()
    }

    /// `id` is the job whose output is shown now.
    pub open spec fn shows(&self, id: Seq<char>) -> bool {
        self.active() matches Some(a) && self.job_ids()[a as int] == id
    }

    /// The held-back output after `o` is held back for job `id`: a tracked job
    /// that has not completed keeps it, any other job drops it.
    pub open spec fn held_back(&self, id: Seq<char>, o: Output) -> Seq<Seq<Output>> {
        Seq::new(
            self.buffers().len(),
            |k: int|
                if self.job_ids()[k] == id && self.job_states()[k] != TrackedJobState::Complete {
                    self.buffers()[k].push(o)
                } else {
                    self.buffers()[k]
                },
        )
    }

    /// Two trackers whose jobs have the same ids and are closed alike, with the same
    /// shown job and the same log, group their output alike.
    proof fn lemma_grouping_kept(s0: Self, s1: Self)
        requires
            s0.output_grouped(),
            s1.wf(),
            s0.jobs@.len() == s1.jobs@.len(),
            forall|k: int|
                #![trigger s1.jobs@[k]]
                0 <= k < s1.jobs@.len() ==> s1.jobs@[k].job_id@ == s0.jobs@[k].job_id@ && (
                s1.jobs@[k].job_state == TrackedJobState::Closed) == (s0.jobs@[k].job_state
                    == TrackedJobState::Closed),
            s0.active_job == s1.active_job,
            s0.log@ == s1.log@,
        ensures
            s1.output_grouped(),
    {
        let log = s1.log@;
        assert forall|i: int| 0 <= i < log.len() implies #[trigger] s1.owned_entry(log[i]) by {
            assert(s0.owned_entry(log[i]));
            let j = choose|j: int|
                0 <= j < s0.jobs@.len() && s0.jobs@[j].job_id@ == log[i] && #[trigger] s0.settled_job(j);
            assert(s1.jobs@[j].job_id@ == log[i]);
            assert(s1.settled_job(j));
        }
        if let Some(a) = s1.active_job {
            assert(s1.jobs@[a as int].job_id@ == s0.jobs@[a as int].job_id@);
        }
    }

    /// Writes `out` for job `job_id` if that job is shown, and otherwise holds
    /// it back.
    fn emit(&mut self, job_id: &str, out: Output) -> (actions: Vec<IoAction>)
        requires
            old(self).wf(),
        ensures
            final(self).wf(),
            old(self).settled() ==> final(self).settled(),
            final(self).job_ids() == old(self).job_ids(),
            final(self).job_states() == old(self).job_states(),
            final(self).active() == old(self).active(),
            final(self).jobs@.len() == old(self).jobs@.len(),
            forall|k: int|
                #![trigger final(self).jobs@[k]]
                0 <= k < final(self).jobs@.len() ==> final(self).jobs@[k].job_id@ == old(self).jobs@[k].job_id@
                    && final(self).jobs@[k].job_state == old(self).jobs@[k].job_state,
            old(self).shows(job_id@) ==> {
                &&& actions@.len() == 1
                &&& releases(actions@[0], job_id@, out)
                &&& final(self).buffers() == old(self).buffers()
            },
            !old(self).shows(job_id@) ==> {
                &&& actions@.len() == 0
                &&& final(self).buffers() == old(self).held_back(job_id@, out)
            },
            final(self).log() == old(self).log() + action_jobs(actions@),
            old(self).output_grouped() ==> final(self).output_grouped(),
    {
        let ghost s0 = *self;
        let shown = match self.active_job {
            Some(a) => str_eq(self.jobs[a].job_id.as_str(), job_id),
            None => false,
        };
        proof {
            assert(self.job_ids().len() == self.jobs@.len());
            if let Some(a) = self.active_job {
                assert(self.job_ids()[a as int] == self.jobs@[a as int].job_id@);
            }
            assert(shown == s0.shows(job_id@));
        }
        if shown {
            let job = String::from_str(job_id);
            let ghost jv = job@;
            let action = match out {
                Output::Stdout(text) => IoAction::Stdout { job, text },
                Output::Stderr(text) => IoAction::Stderr { job, text },
            };
            let mut actions: Vec<IoAction> = Vec::new();
            actions.push(action);
            proof {
                let empty = Seq::<IoAction>::empty();
                lemma_action_jobs_push(empty, actions@[0]);
                assert(actions@ == empty.push(actions@[0]));
                assert(action_jobs(empty) =~= Seq::<Seq<char>>::empty());
                assert(action_jobs(actions@) =~= seq![job_id@]);
                let log0 = self.log@;
                self.log@ = self.log@.push(job_id@);
                assert(self.log@ =~= log0 + action_jobs(actions@));
                if s0.output_grouped() {
                    let log = self.log@;
                    let a = self.active_job->0;
                    assert forall|i: int, j: int, k: int|
                        0 <= i < j < k < log.len() && #[trigger] log[i] == #[trigger] log[k] implies #[trigger] log[j]
                        == log[i] by {
                        if k < log0.len() {
                            assert(log0[i] == log0[k]);
                        } else {
                            assert(log0[i] == self.jobs@[a as int].job_id@);
                            assert(log0[j] == log0[i]);
                        }
                    }
                    assert forall|i: int| 0 <= i < log.len() implies #[trigger] self.owned_entry(log[i]) by {
                        if i < log0.len() {
                            assert(s0.owned_entry(log0[i]));
                            let j = choose|j: int|
                                0 <= j < s0.jobs@.len() && s0.jobs@[j].job_id@ == log0[i] && #[trigger] s0.settled_job(j);
                            assert(self.settled_job(j));
                        } else {
                            assert(log[i] == job_id@);
                            assert(self.jobs@[a as int].job_id@ == job_id@);
                            assert(self.settled_job(a as int));
                        }
                    }
                    assert forall|i: int, j: int|
                        0 <= i < j < log.len() && #[trigger] log[i] == self.jobs@[a as int].job_id@ implies #[trigger] log[j]
                        == log[i] by {
                        if j < log0.len() {
                            assert(log0[i] == self.jobs@[a as int].job_id@);
                        }
                    }
                }
            }
            actions
        } else {
            match self.find_job(job_id) {
                Some(i) => {
                    if self.jobs[i].job_state != TrackedJobState::Complete {
                        let mut buf: Vec<Output> = Vec::new();
                        std::mem::swap(&mut buf, &mut self.jobs[i].buffer);
                        buf.push(out);
                        std::mem::swap(&mut buf, &mut self.jobs[i].buffer);
                    }
                    proof {
                        if let Some(a) = s0.active_job {
                            assert(a != i);
                        }
                        assert forall|p: int, q: int|
                            0 <= p < q < self.jobs@.len() implies #[trigger] self.jobs@[p].job_id@
                            != #[trigger] self.jobs@[q].job_id@ by {
                            assert(s0.jobs@[p].job_id@ != s0.jobs@[q].job_id@);
                        }
                        assert(self.job_ids() =~= s0.job_ids());
                        assert(self.job_states() =~= s0.job_states());
                        assert forall|k: int| 0 <= k < self.jobs@.len() implies self.buffers()[k]
                            == s0.held_back(job_id@, out)[k] by {
                            if k != i {
                                assert(s0.jobs@[k].job_id@ != job_id@);
                            }
                        }
                        assert(self.buffers() =~= s0.held_back(job_id@, out));
                        if s0.output_grouped() {
                            Self::lemma_grouping_kept(s0, *self);
                        }
                    }
                },
                None => {
                    proof {
                        assert forall|k: int| 0 <= k < self.jobs@.len() implies self.buffers()[k]
                            == s0.held_back(job_id@, out)[k] by {
                            assert(self.job_ids()[k] == self.jobs@[k].job_id@);
                        }
                        assert(self.buffers() =~= s0.held_back(job_id@, out));
                    }
                },
            }
            proof {
                assert(action_jobs(seq![]) =~= seq![]);
                assert(self.log@ =~= s0.log@ + action_jobs(seq![]));
            }
            Vec::new()
        }
    }

    /// Writes text on the standard output on behalf of job `job_id`, at once if
    /// the job is shown; otherwise the text is held back until the job is
    /// shown, or dropped if the job has already completed.
    pub fn print_stdout(&mut self, job_id: &str, text: String) -> (actions: Vec<IoAction>)
        requires
            old(self).inv(),
        ensures
            final(self).inv(),
            final(self).job_ids() == old(self).job_ids(),
            final(self).job_states() == old(self).job_states(),
            final(self).active() == old(self).active(),
            old(self).shows(job_id@) ==> {
                &&& actions@.len() == 1
                &&& releases(actions@[0], job_id@, Output::Stdout(text))
                &&& final(self).buffers() == old(self).buffers()
            },
            !old(self).shows(job_id@) ==> {
                &&& actions@.len() == 0
                &&& final(self).buffers() == old(self).held_back(job_id@, Output::Stdout(text))
            },
            final(self).log() == old(self).log() + action_jobs(actions@),
            old(self).output_grouped() ==> final(self).output_grouped(),
    {
        self.emit(job_id, Output::Stdout(text))
    }

    /// Writes text on the standard error on behalf of job `job_id`, with the
    /// same rules as `print_stdout`.
    pub fn print_stderr(&mut self, job_id: &str, text: String) -> (actions: Vec<IoAction>)
        requires
            old(self).inv(),
        ensures
            final(self).inv(),
            final(self).job_ids() == old(self).job_ids(),
            final(self).job_states() == old(self).job_states(),
            final(self).active() == old(self).active(),
            old(self).shows(job_id@) ==> {
                &&& actions@.len() == 1
                &&& releases(actions@[0], job_id@, Output::Stderr(text))
                &&& final(self).buffers() == old(self).buffers()
            },
            !old(self).shows(job_id@) ==> {
                &&& actions@.len() == 0
                &&& final(self).buffers() == old(self).held_back(job_id@, Output::Stderr(text))
            },
            final(self).log() == old(self).log() + action_jobs(actions@),
            old(self).output_grouped() ==> final(self).output_grouped(),
    {
        self.emit(job_id, Output::Stderr(text))
    }

    /// Starts tracking job `job_id` (afresh, if it was tracked already) and
    /// announces it; the first job that starts when nothing is shown becomes
    /// the shown job.
    pub fn job_started(&mut self, job_id: &str) -> (actions: Vec<IoAction>)
        requires
            old(self).inv(),
        ensures
            final(self).inv(),
            old(self).tracks(job_id@) ==> final(self).job_ids() == old(self).job_ids(),
            !old(self).tracks(job_id@) ==> final(self).job_ids() == old(self).job_ids().push(job_id@),
            forall|k: int|
                0 <= k < final(self).job_ids().len() && #[trigger] final(self).job_ids()[k] == job_id@
                    ==> final(self).job_states()[k] == TrackedJobState::InProgress,
            final(self).log() == old(self).log() + action_jobs(actions@),
            old(self).output_grouped() && !old(self).tracks(job_id@) ==> final(self).output_grouped(),
            !old(self).tracks(job_id@) && old(self).active() is None ==> {
                &&& final(self).shows(job_id@)
                &&& actions@.len() == 2
                &&& actions@[0] matches IoAction::Stdout { job, text } && job@ == job_id@ && text@
                    == started_line(job_id@)
                &&& actions@[1] matches IoAction::StdinReady { job } && job@ == job_id@
                &&& final(self).buffers() == old(self).buffers().push(seq![])
                &&& final(self).job_states() == old(self).job_states().push(TrackedJobState::InProgress)
            },
            !old(self).tracks(job_id@) && old(self).active() is Some ==> {
                &&& final(self).active() == old(self).active()
                &&& actions@.len() == 0
                &&& final(self).buffers().len() == old(self).buffers().len() + 1
                &&& final(self).buffers().drop_last() == old(self).buffers()
                &&& final(self).buffers().last().len() == 1
                &&& final(self).buffers().last()[0] matches Output::Stdout(t) && t@ == started_line(job_id@)
                &&& final(self).job_states() == old(self).job_states().push(TrackedJobState::InProgress)
            },
    {
        let ghost s0 = *self;
        let fresh = TrackedJob {
            job_id: String::from_str(job_id),
            job_state: TrackedJobState::InProgress,
            buffer: Vec::new(),
        };
        let found = self.find_job(job_id);
        match found {
            Some(i) => {
                let mut slot = fresh;
                std::mem::swap(&mut slot, &mut self.jobs[i]);
            },
            None => {
                self.jobs.push(fresh);
            },
        }
        let ghost s1 = *self;
        proof {
            let n = s0.jobs@.len() as int;
            assert forall|k: int| 0 <= k < n implies #[trigger] self.jobs@[k].job_id@ == s0.jobs@[k].job_id@ by {}
            if found is None {
                assert(self.jobs@.len() == n + 1);
                assert forall|k: int| 0 <= k < n implies #[trigger] self.jobs@[k] == s0.jobs@[k] by {}
                assert forall|k: int| 0 <= k < n implies #[trigger] s0.jobs@[k].job_id@ != job_id@ by {
                    assert(s0.job_ids()[k] == s0.jobs@[k].job_id@);
                }
            }
            assert forall|p: int, q: int|
                0 <= p < q < self.jobs@.len() implies #[trigger] self.jobs@[p].job_id@
                != #[trigger] self.jobs@[q].job_id@ by {
                if q < n {
                    assert(s0.jobs@[p].job_id@ != s0.jobs@[q].job_id@);
                } else {
                    assert(s0.jobs@[p].job_id@ != job_id@);
                }
            }
            if let Some(a) = s0.active_job {
                if found != Some(a) {
                    assert(self.jobs@[a as int] == s0.jobs@[a as int]);
                }
            }
            assert(self.wf());
        }
        let text = started_text(job_id);
        let ghost t = text;
        let mut actions = self.emit(job_id, Output::Stdout(text));
        let ghost s2 = *self;
        let mut more = self.update_active_job();
        let ghost a1 = actions@;
        let ghost a2 = more@;
        actions.append(&mut more);
        proof {
            let n = s0.jobs@.len() as int;
            lemma_action_jobs_append(a1, a2);
            assert(actions@ == a1 + a2);
            assert(self.log@ =~= s0.log@ + action_jobs(actions@));
            assert forall|k: int| 0 <= k < self.jobs@.len() implies #[trigger] self.jobs@[k].job_id@
                == s1.jobs@[k].job_id@ by {
                assert(s2.job_ids()[k] == s1.job_ids()[k]);
            }
            if let Some(i) = found {
                assert(s0.job_ids()[i as int] == job_id@);
                assert(s0.tracks(job_id@));
            }
            if found is None {
                assert(self.job_ids() =~= s0.job_ids().push(job_id@));
            } else {
                assert(self.job_ids() =~= s0.job_ids());
            }
            assert forall|k: int|
                0 <= k < self.job_ids().len() && #[trigger] self.job_ids()[k] == job_id@ implies self.job_states()[k]
                == TrackedJobState::InProgress by {
                assert(s2.job_states()[k] == s1.job_states()[k]);
                if found is None {
                    if k < n {
                        assert(s0.jobs@[k].job_id@ != job_id@);
                    }
                } else {
                    assert(s1.jobs@[k].job_id@ == job_id@);
                    if k != found->0 {
                        assert(s0.jobs@[k].job_id@ != s0.jobs@[found->0 as int].job_id@);
                    }
                }
            }
            if found is None {
                assert(s1.jobs@.drop_last() == s0.jobs@);
                if s0.output_grouped() {
                    assert forall|i: int| 0 <= i < s0.log@.len() implies #[trigger] s1.owned_entry(s0.log@[i]) by {
                        assert(s0.owned_entry(s0.log@[i]));
                        let j = choose|j: int|
                            0 <= j < s0.jobs@.len() && s0.jobs@[j].job_id@ == s0.log@[i] && #[trigger] s0.settled_job(j);
                        assert(s1.jobs@[j] == s0.jobs@[j]);
                        assert(s1.settled_job(j));
                    }
                    if let Some(a) = s0.active_job {
                        assert(s1.jobs@[a as int] == s0.jobs@[a as int]);
                    }
                    assert(s1.output_grouped());
                }
                assert forall|k: int| 0 <= k < n implies #[trigger] s2.jobs@[k].buffer@ == s0.jobs@[k].buffer@ by {
                    assert(s1.jobs@[k] == s0.jobs@[k]);
                    assert(s0.jobs@[k].job_id@ != job_id@);
                    assert(s2.buffers()[k] == s1.held_back(job_id@, Output::Stdout(t))[k]);
                }
                assert(s2.buffers()[n] == s1.held_back(job_id@, Output::Stdout(t))[n]);
                assert(s2.jobs@[n].buffer@ == seq![Output::Stdout(t)]);
                if s0.active_job is None {
                    assert(first_open(s2.jobs@, n)) by {
                        assert forall|k: int| 0 <= k < n implies #[trigger] s2.jobs@[k].job_state
                            == TrackedJobState::Closed by {
                            assert(s2.job_states()[k] == s1.job_states()[k]);
                            assert(s1.jobs@[k] == s0.jobs@[k]);
                        }
                        assert(s2.job_states()[n] == s1.job_states()[n]);
                    }
                    assert(s2.job_states()[n] == s1.job_states()[n]);
                    assert(Self::shown_next(s2, *self, n, a2));
                    assert(a1.len() == 0);
                    assert(actions@ == a2);
                    assert(releases(a2[0], job_id@, Output::Stdout(t)));
                    assert(self.jobs@[n].buffer@ =~= Seq::<Output>::empty());
                    assert(self.buffers() =~= s0.buffers().push(seq![])) by {
                        assert forall|k: int| 0 <= k < n implies self.buffers()[k] == s0.buffers()[k] by {
                            assert(self.jobs@[k].buffer@ == s2.jobs@[k].buffer@);
                        }
                    }
                    assert(self.job_states() =~= s0.job_states().push(TrackedJobState::InProgress)) by {
                        assert forall|k: int| 0 <= k < n implies self.job_states()[k] == s0.job_states()[k] by {
                            assert(self.jobs@[k].job_state == s2.jobs@[k].job_state);
                            assert(s2.job_states()[k] == s1.job_states()[k]);
                            assert(s1.jobs@[k] == s0.jobs@[k]);
                        }
                        assert(self.jobs@[n as int].job_state == s2.jobs@[n as int].job_state);
                        assert(s2.job_states()[n] == s1.job_states()[n]);
                    }
                } else {
                    let a = s0.active_job->0;
                    assert(s1.jobs@[a as int] == s0.jobs@[a as int]);
                    assert(s2.active_job == s1.active_job);
                    assert(s2.job_states()[a as int] == s1.job_states()[a as int]);
                    assert(*self == s2);
                    assert(self.buffers().drop_last() =~= s0.buffers()) by {
                        assert forall|k: int| 0 <= k < n implies self.buffers()[k] == s0.buffers()[k] by {
                            assert(self.jobs@[k].buffer@ == s2.jobs@[k].buffer@);
                        }
                    }
                    assert(self.job_states() =~= s0.job_states().push(TrackedJobState::InProgress)) by {
                        assert forall|k: int| 0 <= k < n implies self.job_states()[k] == s0.job_states()[k] by {
                            assert(s2.job_states()[k] == s1.job_states()[k]);
                            assert(s1.jobs@[k] == s0.jobs@[k]);
                        }
                        assert(s2.job_states()[n] == s1.job_states()[n]);
                    }
                }
            }
        }
        actions
    }

    /// The job states after job `id` reports completion: a tracked job that
    /// is not closed becomes complete.
    pub open spec fn states_after_completion(&self, id: Seq<char>) -> Seq<TrackedJobState> {
        Seq::new(
            self.job_states().len(),
            |k: int|
                if self.job_ids()[k] == id && self.job_states()[k] != TrackedJobState::Closed {
                    TrackedJobState::Complete
                } else {
                    self.job_states()[k]
                },
        )
    }

    /// `after` is the held-back output once the standard-output line `line`
    /// of job `id` is held back.
    pub open spec fn holds_back_line(&self, after: Seq<Seq<Output>>, id: Seq<char>, line: Seq<char>) -> bool {
        &&& after.len() == self.buffers().len()
        &&& forall|k: int|
            0 <= k < after.len() ==> if self.job_ids()[k] == id && self.job_states()[k]
                != TrackedJobState::Complete {
                &&& (#[trigger] after[k]).len() == self.buffers()[k].len() + 1
                &&& after[k].drop_last() == self.buffers()[k]
                &&& after[k].last() matches Output::Stdout(t) && t@ == line
            } else {
                after[k] == self.buffers()[k]
            }
    }

    /// Reports that job `job_id` ended with `outcome`. A shown job announces
    /// it at once and is closed, and the next job is shown; another job holds
    /// the announcement back and waits, complete, for its turn.
    pub fn job_completed(&mut self, job_id: &str, outcome: &JobOutcome) -> (actions: Vec<IoAction>)
        requires
            old(self).inv(),
        ensures
            final(self).inv(),
            final(self).job_ids() == old(self).job_ids(),
            final(self).log() == old(self).log() + action_jobs(actions@),
            old(self).output_grouped() ==> final(self).output_grouped(),
            old(self).shows(job_id@) ==> {
                &&& actions@.len() >= 1
                &&& actions@[0] matches IoAction::Stdout { job, text } && job@ == job_id@ && text@
                    == outcome_line(job_id@, *outcome)
                &&& !final(self).shows(job_id@)
                &&& forall|k: int|
                    0 <= k < final(self).job_ids().len() && #[trigger] final(self).job_ids()[k] == job_id@
                        ==> final(self).job_states()[k] == TrackedJobState::Closed
            },
            !old(self).shows(job_id@) ==> {
                &&& actions@.len() == 0
                &&& final(self).active() == old(self).active()
                &&& final(self).job_states() == old(self).states_after_completion(job_id@)
                &&& old(self).holds_back_line(final(self).buffers(), job_id@, outcome_line(job_id@, *outcome))
            },
    {
        let ghost s0 = *self;
        let text = outcome_text(job_id, outcome);
        let ghost t = text;
        let mut actions = self.emit(job_id, Output::Stdout(text));
        let ghost s1 = *self;
        let found = self.find_job(job_id);
        proof {
            let hb = s0.held_back(job_id@, Output::Stdout(t));
            assert(s1.buffers() == hb || s0.shows(job_id@));
            if !s0.shows(job_id@) {
                assert forall|k: int| 0 <= k < s1.buffers().len() implies if s0.job_ids()[k] == job_id@
                    && s0.job_states()[k] != TrackedJobState::Complete {
                    &&& (#[trigger] s1.buffers()[k]).len() == s0.buffers()[k].len() + 1
                    &&& s1.buffers()[k].drop_last() == s0.buffers()[k]
                    &&& s1.buffers()[k].last() matches Output::Stdout(tt) && tt@ == outcome_line(job_id@, *outcome)
                } else {
                    s1.buffers()[k] == s0.buffers()[k]
                } by {
                    assert(s1.buffers()[k] == hb[k]);
                    if s0.job_ids()[k] == job_id@ && s0.job_states()[k] != TrackedJobState::Complete {
                        assert(s1.buffers()[k].drop_last() =~= s0.buffers()[k]);
                    }
                }
            }
        }
        if let Some(i) = found {
            if self.jobs[i].job_state != TrackedJobState::Closed {
                self.jobs[i].job_state = TrackedJobState::Complete;
                let ghost s2 = *self;
                proof {
                    assert(self.jobs@ == s1.jobs@.update(i as int, self.jobs@[i as int]));
                    assert forall|p: int, q: int|
                        0 <= p < q < self.jobs@.len() implies #[trigger] self.jobs@[p].job_id@
                        != #[trigger] self.jobs@[q].job_id@ by {
                        assert(s1.jobs@[p].job_id@ != s1.jobs@[q].job_id@);
                    }
                    assert(self.wf());
                    if s0.output_grouped() {
                        Self::lemma_grouping_kept(s1, *self);
                    }
                }
                let mut more = self.update_active_job();
                let ghost a1 = actions@;
                let ghost a2 = more@;
                actions.append(&mut more);
                proof {
                    lemma_action_jobs_append(a1, a2);
                    assert(actions@ == a1 + a2);
                    assert(self.log@ =~= s0.log@ + action_jobs(actions@));
                    assert forall|k: int| 0 <= k < self.jobs@.len() implies #[trigger] self.jobs@[k].job_id@
                        == s0.jobs@[k].job_id@ by {
                        assert(s2.jobs@[k].job_id@ == s1.jobs@[k].job_id@);
                    }
                    assert(self.job_ids() =~= s0.job_ids());
                    assert(s0.job_ids()[i as int] == job_id@);
                    if s0.shows(job_id@) {
                        let a = s0.active_job->0;
                        if a != i {
                            assert(s0.jobs@[a as int].job_id@ != s0.jobs@[i as int].job_id@);
                        }
                        assert(actions@[0] == a1[0]);
                        assert(self.jobs@[i as int].job_state == TrackedJobState::Closed);
                        assert forall|k: int|
                            0 <= k < self.job_ids().len() && #[trigger] self.job_ids()[k] == job_id@ implies self.job_states()[k]
                            == TrackedJobState::Closed by {
                            if k != i {
                                assert(self.jobs@[k].job_id@ != self.jobs@[i as int].job_id@);
                            }
                        }
                        if self.shows(job_id@) {
                            let b = self.active_job->0;
                            if b != i {
                                assert(self.jobs@[b as int].job_id@ != self.jobs@[i as int].job_id@);
                            }
                        }
                    } else {
                        if s0.active_job is None {
                            assert(s0.jobs@[i as int].job_state == TrackedJobState::Closed);
                        }
                        let a = s0.active_job->0;
                        if a == i {
                            assert(s0.job_ids()[a as int] == job_id@);
                        }
                        assert(s2.jobs@[a as int].job_state == TrackedJobState::InProgress);
                        assert(*self == s2);
                        assert(self.job_states() =~= s0.states_after_completion(job_id@)) by {
                            assert forall|k: int| 0 <= k < self.jobs@.len() implies self.job_states()[k]
                                == s0.states_after_completion(job_id@)[k] by {
                                if k != i {
                                    assert(s0.jobs@[k].job_id@ != s0.jobs@[i as int].job_id@);
                                    assert(s0.job_ids()[k] != job_id@);
                                }
                            }
                        }
                        assert(self.buffers() =~= s1.buffers());
                    }
                }
                return actions;
            }
        }
        proof {
            assert(self.job_ids() =~= s0.job_ids());
            if s0.shows(job_id@) {
                let a = s0.active_job->0;
                assert(s0.job_ids()[a as int] == job_id@);
                assert(found is Some);
                let i = found->0;
                if a != i {
                    assert(s0.jobs@[a as int].job_id@ != s0.jobs@[i as int].job_id@);
                }
            }
            assert(self.job_states() =~= s0.states_after_completion(job_id@)) by {
                assert forall|k: int| 0 <= k < self.jobs@.len() implies self.job_states()[k]
                    == s0.states_after_completion(job_id@)[k] by {
                    if s0.job_ids()[k] == job_id@ {
                        assert(found is Some);
                        let i = found->0;
                        if k != i {
                            assert(s0.jobs@[k].job_id@ != s0.jobs@[i as int].job_id@);
                        }
                    }
                }
            }
            assert(action_jobs(actions@) =~= Seq::<Seq<char>>::empty());
        }
        actions
    }

    /// Marks every job that is not closed as complete and writes out all
    /// output that was held back, job after job, until every job is closed.
    pub fn finish(&mut self) -> (actions: Vec<IoAction>)
        requires
            old(self).inv(),
        ensures
            final(self).inv(),
            final(self).job_ids() == old(self).job_ids(),
            final(self).active() is None,
            forall|k: int| 0 <= k < final(self).job_states().len() ==> #[trigger] final(self).job_states()[k]
                == TrackedJobState::Closed,
            final(self).log() == old(self).log() + action_jobs(actions@),
            old(self).output_grouped() ==> final(self).output_grouped(),
    {
        let ghost s0 = *self;
        let mut k: usize = 0;
        while k < self.jobs.len()
            invariant
                self.wf(),
                k <= self.jobs@.len(),
                self.jobs@.len() == s0.jobs@.len(),
                self.active_job == s0.active_job,
                self.log@ == s0.log@,
                forall|m: int|
                    #![trigger self.jobs@[m]]
                    0 <= m < self.jobs@.len() ==> self.jobs@[m].job_id@ == s0.jobs@[m].job_id@ && (
                    self.jobs@[m].job_state == TrackedJobState::Closed) == (s0.jobs@[m].job_state
                        == TrackedJobState::Closed),
                forall|m: int| 0 <= m < k ==> #[trigger] self.jobs@[m].job_state != TrackedJobState::InProgress,
            decreases self.jobs@.len() - k,
        {
            if self.jobs[k].job_state != TrackedJobState::Closed {
                let ghost before = self.jobs@;
                self.jobs[k].job_state = TrackedJobState::Complete;
                proof {
                    assert(self.jobs@ == before.update(k as int, self.jobs@[k as int]));
                    assert forall|p: int, q: int|
                        0 <= p < q < self.jobs@.len() implies #[trigger] self.jobs@[p].job_id@
                        != #[trigger] self.jobs@[q].job_id@ by {
                        assert(before[p].job_id@ != before[q].job_id@);
                    }
                }
            }
            k = k + 1;
        }
        proof {
            if s0.output_grouped() {
                Self::lemma_grouping_kept(s0, *self);
            }
        }
        let ghost s1 = *self;
        let actions = self.update_active_job();
        proof {
            assert forall|m: int| 0 <= m < self.jobs@.len() implies #[trigger] self.jobs@[m].job_state
                != TrackedJobState::InProgress by {
                assert(s1.jobs@[m].job_state != TrackedJobState::InProgress);
            }
            if let Some(b) = self.active_job {
                assert(self.jobs@[b as int].job_state != TrackedJobState::InProgress);
            }
            assert forall|m: int| 0 <= m < self.jobs@.len() implies #[trigger] self.jobs@[m].job_id@
                == s0.jobs@[m].job_id@ by {
                assert(s1.jobs@[m].job_id@ == s0.jobs@[m].job_id@);
            }
            assert(self.job_ids() =~= s0.job_ids());
        }
        actions
    }

    fn find_job(&self, job_id: &str) -> (r: Option<usize>)
        requires
            self.wf(),
        ensures
            r matches Some(i) ==> (i as int) < self.jobs@.len() && self.jobs@[i as int].job_id@ == job_id@,
            r is None ==> !self.tracks(job_id@),
    {
        let mut i: usize = 0;
        while i < self.jobs.len()
            invariant
                i <= self.jobs@.len(),
                forall|k: int| 0 <= k < i ==> self.jobs@[k].job_id@ != job_id@,
            decreases self.jobs@.len() - i,
        {
            if str_eq(self.jobs[i].job_id.as_str(), job_id) {
                return Some(i);
            }
            i = i + 1;
        }
        proof {
            if self.tracks(job_id@) {
                let k = choose|k: int| 0 <= k < self.job_ids().len() && self.job_ids()[k] == job_id@;
                assert(self.jobs@[k].job_id@ == job_id@);
            }
        }
        None
    }
}

pub open spec fn repeat(x: Seq<char>, k: nat) -> Seq<Seq<char>> {
    Seq::new(k, |i: int| x)
}

proof fn lemma_action_jobs_push(actions: Seq<IoAction>, a: IoAction)
    ensures
        action_jobs(actions.push(a)) == match a {
            IoAction::Stdout { job, .. } => action_jobs(actions).push(job@),
            IoAction::Stderr { job, .. } => action_jobs(actions).push(job@),
            IoAction::StdinReady { .. } => action_jobs(actions),
        },
{
    assert(actions.push(a).drop_last() =~= actions);
}

proof fn lemma_action_jobs_append(a: Seq<IoAction>, b: Seq<IoAction>)
    ensures
        action_jobs(a + b) == action_jobs(a) + action_jobs(b),
    decreases b.len(),
{
    if b.len() == 0 {
        assert(a + b =~= a);
        assert(action_jobs(b) =~= seq![]);
        assert(action_jobs(a) + action_jobs(b) =~= action_jobs(a));
    } else {
        lemma_action_jobs_append(a, b.drop_last());
        assert((a + b).drop_last() =~= a + b.drop_last());
        let rest = action_jobs(a) + action_jobs(b.drop_last());
        match b.last() {
            IoAction::Stdout { job, .. } => {
                assert(rest.push(job@) =~= action_jobs(a) + action_jobs(b.drop_last()).push(job@));
            },
            IoAction::Stderr { job, .. } => {
                assert(rest.push(job@) =~= action_jobs(a) + action_jobs(b.drop_last()).push(job@));
            },
            IoAction::StdinReady { .. } => {},
        }
    }
}

/// Appending a block of entries of `x` keeps the log grouped when every entry
/// of `x` already in the log ends it.
proof fn lemma_grouped_append_block(log: Seq<Seq<char>>, x: Seq<char>, k: nat)
    requires
        grouped(log),
        forall|i: int, j: int| 0 <= i < j < log.len() && log[i] == x ==> log[j] == x,
    ensures
        grouped(log + repeat(x, k)),
        forall|i: int, j: int|
            0 <= i < j < (log + repeat(x, k)).len() && (log + repeat(x, k))[i] == x ==> (log + repeat(x, k))[j]
                == x,
{
    let nl = log + repeat(x, k);
    assert forall|i: int, j: int| 0 <= i < j < nl.len() && nl[i] == x implies nl[j] == x by {
        if j < log.len() {
            assert(log[i] == x);
        }
    }
    assert forall|i: int, j: int, m: int|
        0 <= i < j < m < nl.len() && #[trigger] nl[i] == #[trigger] nl[m] implies #[trigger] nl[j] == nl[i] by {
        if m < log.len() {
            assert(log[i] == log[m]);
            assert(log[j] == nl[j]);
        } else {
            assert(nl[m] == x);
        }
    }
}

} // verus!
