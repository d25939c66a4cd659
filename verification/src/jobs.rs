use vstd::prelude::*;
use crate::text::{string_views, is_digit, digit_val};

verus! {

broadcast use vstd::string::group_string_axioms;

// ---------------------------------------------------------------------------
// Jobs
// ---------------------------------------------------------------------------

/// Where a background job stands.
#[derive(Clone, Copy, Debug, PartialEq, Eq, Structural)]
pub enum JobStatus {
    Pending,
    Running,
    Completed,
    Failed,
}

/// A background job of the web interface.
#[derive(Clone, Debug)]
pub struct Job {
    pub id: String,
    pub job_type: String,
    pub status: JobStatus,
    pub progress: u32,
    pub message: String,
    pub output: Vec<String>,
    pub created_at: String,
}

/// A job as plain values.
pub struct JobView {
    pub id: Seq<char>,
    pub job_type: Seq<char>,
    pub status: JobStatus,
    pub progress: u32,
    pub message: Seq<char>,
    pub output: Seq<Seq<char>>,
    pub created_at: Seq<char>,
}

impl View for Job {
    type V = JobView;

    open spec fn view(&self) -> JobView {
        JobView {
            id: self.id@,
            job_type: self.job_type@,
            status: self.status,
            progress: self.progress,
            message: self.message@,
            output: string_views(self.output@),
            created_at: self.created_at@,
        }
    }
}

/// The text of a random (version 4) UUID: 36 characters, lowercase hex
/// digits in groups of 8-4-4-4-12 joined by `-`, version digit `4`, variant
/// digit one of `8`, `9`, `a`, `b`.
pub open spec fn uuid_v4_text(s: Seq<char>) -> bool {
    &&& s.len() == 36
    &&& forall|i: int|
        0 <= i < 36 ==> if i == 8 || i == 13 || i == 18 || i == 23 {
            s[i] == '-'
        } else {
            ('0' <= #[trigger] s[i] <= '9') || ('a' <= s[i] <= 'f')
        }
    &&& s[14] == '4'
    &&& (s[19] == '8' || s[19] == '9' || s[19] == 'a' || s[19] == 'b')
}

/// A fresh job id: `uuid::Uuid::new_v4()` in its hyphenated text form.
/// Trusted: the text has the shape that the `uuid` crate's formatting gives
/// a version 4 UUID. Which UUID comes out is random and not stated.
#[verifier::external_body]
fn new_job_id() -> (r: String)
    ensures
        uuid_v4_text(r@),
{
    uuid::Uuid::new_v4().to_string()
}

/// Two ASCII digits at `i` and `i + 1` whose value lies in `lo..=hi`.
pub open spec fn two_digits_in(s: Seq<char>, i: int, lo: nat, hi: nat) -> bool {
    &&& is_digit(s[i])
    &&& is_digit(s[i + 1])
    &&& lo <= digit_val(s[i]) * 10 + digit_val(s[i + 1]) <= hi
}

/// A year as `%Y` writes it: four digits, or a sign and at least four digits
/// for a year outside `0..=9999`.
pub open spec fn year_text(y: Seq<char>) -> bool {
    ||| y.len() == 4 && (forall|i: int| 0 <= i < 4 ==> is_digit(#[trigger] y[i]))
    ||| y.len() >= 5 && (y[0] == '+' || y[0] == '-') && (forall|i: int|
        1 <= i < y.len() ==> is_digit(#[trigger] y[i]))
}

/// Text in the shape `%Y-%m-%d %H:%M:%S`: a year, then month `01`-`12`,
/// day `01`-`31`, hour `00`-`23`, minute `00`-`59` and second `00`-`60`.
pub open spec fn timestamp_text(s: Seq<char>) -> bool {
    let n = s.len() as int;
    &&& n >= 19
    &&& year_text(s.take(n - 15))
    &&& s[n - 15] == '-'
    &&& two_digits_in(s, n - 14, 1, 12)
    &&& s[n - 12] == '-'
    &&& two_digits_in(s, n - 11, 1, 31)
    &&& s[n - 9] == ' '
    &&& two_digits_in(s, n - 8, 0, 23)
    &&& s[n - 6] == ':'
    &&& two_digits_in(s, n - 5, 0, 59)
    &&& s[n - 3] == ':'
    &&& two_digits_in(s, n - 2, 0, 60)
}

/// The local date and time as `%Y-%m-%d %H:%M:%S`, from `chrono::Local::now`.
/// Trusted: the text has the shape that chrono's zero-padded numeric fields
/// give (a second of `60` stands for a leap second). Which date and time come
/// out depends on the clock and the time zone and is not stated.
#[verifier::external_body]
fn local_timestamp() -> (r: String)
    ensures
        timestamp_text(r@),
{
    chrono::Local::now().format("%Y-%m-%d %H:%M:%S").to_string()
}

/// A copy of a list of strings.
pub fn copy_strings(v: &Vec<String>) -> (r: Vec<String>)
    ensures
        string_views(r@) == string_views(v@),
{
    let mut r: Vec<String> = Vec::new();
    let mut i: usize = 0;
    while i < v.len()
        invariant
            i <= v.len(),
            r.len() == i,
            forall|k: int| 0 <= k < i ==> #[trigger] r@[k]@ == v@[k]@,
        decreases v.len() - i,
    {
        let item: String = v[i].clone();
        r.push(item);
        i += 1;
    }
    assert(string_views(r@) =~= string_views(v@));
    r
}

impl Job {
    /// A job that has just been queued.
    pub open spec fn fresh(v: JobView, job_type: Seq<char>) -> bool {
        &&& v.job_type == job_type
        &&& v.status == JobStatus::Pending
        &&& v.progress == 0
        &&& v.message == "Pending..."@
        &&& v.output == Seq::<Seq<char>>::empty()
    }

    /// A new pending job of the given type, with a fresh random id and the
    /// local time of its creation.
    pub fn new(job_type: &str) -> (r: Job)
        ensures
            Job::fresh(r@, job_type@),
            uuid_v4_text(r@.id),
            timestamp_text(r@.created_at),
    {
        let job = Job {
            id: new_job_id(),
            job_type: job_type.to_owned(),
            status: JobStatus::Pending,
            progress: 0,
            message: "Pending...".to_owned(),
            output: Vec::new(),
            created_at: local_timestamp(),
        };
        assert(job@.output =~= Seq::<Seq<char>>::empty());
        job
    }

    /// A copy of the job.
    pub fn duplicate(&self) -> (r: Job)
        ensures
            r@ == self@,
    {
        Job {
            id: self.id.clone(),
            job_type: self.job_type.clone(),
            status: self.status,
            progress: self.progress,
            message: self.message.clone(),
            output: copy_strings(&self.output),
            created_at: self.created_at.clone(),
        }
    }
}

impl Job {
    /// Whether the job has ended (completed or failed); a job's update
    /// stream stops then.
    pub fn is_finished(&self) -> (r: bool)
        ensures
            r == (self.status == JobStatus::Completed || self.status == JobStatus::Failed),
    {
        self.status == JobStatus::Completed || self.status == JobStatus::Failed
    }

    /// Marks the job as running with the given message.
    pub fn start(&mut self, message: String)
        ensures
            final(self)@ == (JobView { status: JobStatus::Running, message: message@, ..old(self)@ }),
    {
        self.status = JobStatus::Running;
        self.message = message;
    }

    /// Marks the job as failed with the given message.
    pub fn fail(&mut self, message: String)
        ensures
            final(self)@ == (JobView { status: JobStatus::Failed, message: message@, ..old(self)@ }),
    {
        self.status = JobStatus::Failed;
        self.message = message;
    }

    /// Ends the job: completed when nothing failed, failed otherwise.
    pub fn finish(&mut self, succeeded: bool, message: String)
        ensures
            final(self)@ == (JobView {
                status: if succeeded {
                    JobStatus::Completed
                } else {
                    JobStatus::Failed
                },
                message: message@,
                progress: 100,
                ..old(self)@
            }),
    {
        self.progress = 100;
        self.status = if succeeded {
            JobStatus::Completed
        } else {
            JobStatus::Failed
        };
        self.message = message;
    }

    /// Stops a running ping job at the user's request.
    pub fn stop(&mut self)
        ensures
            final(self)@ == (JobView {
                status: JobStatus::Completed,
                message: "Stopped by user"@,
                ..old(self)@
            }),
    {
        self.status = JobStatus::Completed;
        self.message = "Stopped by user".to_owned();
    }

    /// Appends a line to the job's output.
    pub fn log(&mut self, line: String)
        ensures
            final(self)@ == (JobView { output: old(self)@.output.push(line@), ..old(self)@ }),
    {
        let ghost before = self.output@;
        self.output.push(line);
        assert(string_views(self.output@) =~= string_views(before).push(self.output@.last()@));
    }

    /// Appends a line and keeps only the last 50 lines.
    pub fn log_capped(&mut self, line: String)
        ensures
            final(self)@ == (JobView { output: capped(old(self)@.output.push(line@)), ..old(self)@ }),
    {
        let ghost before = self.output@;
        self.output.push(line);
        assert(string_views(self.output@) =~= string_views(before).push(self.output@.last()@));
        if self.output.len() > 50 {
            let ghost full = self.output@;
            self.output.remove(0);
            assert(string_views(self.output@) =~= string_views(full).drop_first());
        }
    }

    /// Sets the progress to `done` out of `total`, in whole percent rounded down.
    pub fn set_progress(&mut self, done: usize, total: usize)
        requires
            0 < total,
            done <= total,
            done * 100 <= usize::MAX,
        ensures
            final(self)@ == (JobView { progress: percent(done as nat, total as nat) as u32, ..old(self)@ }),
            final(self)@.progress <= 100,
    {
        self.progress = progress_percent(done, total);
    }
}

/// A line list cut to its last 50 lines when it grew past 50.
pub open spec fn capped(lines: Seq<Seq<char>>) -> Seq<Seq<char>> {
    if lines.len() > 50 {
        lines.drop_first()
    } else {
        lines
    }
}

/// `done` out of `total` in whole percent, rounded down.
pub open spec fn percent(done: nat, total: nat) -> nat {
    (done * 100) / total
}

/// `(done * 100) / total` as a `u32`.
pub fn progress_percent(done: usize, total: usize) -> (r: u32)
    requires
        0 < total,
        done <= total,
        done * 100 <= usize::MAX,
    ensures
        r == percent(done as nat, total as nat),
        r <= 100,
{
    assert((done * 100) / (total as int) <= 100) by (nonlinear_arith)
        requires
            0 < total,
            done <= total,
    ;
    let p: usize = (done * 100) / total;
    p as u32
}

// ---------------------------------------------------------------------------
// The job table
// ---------------------------------------------------------------------------

/// The first position of `id` in `keys`, or -1.
pub open spec fn index_of(keys: Seq<Seq<char>>, id: Seq<char>) -> int
    decreases keys.len(),
{
    if keys.len() == 0 {
        -1
    } else if keys.last() == id {
        let k = index_of(keys.drop_last(), id);
        if k >= 0 {
            k
        } else {
            keys.len() - 1
        }
    } else {
        index_of(keys.drop_last(), id)
    }
}

pub proof fn lemma_index_of(keys: Seq<Seq<char>>, id: Seq<char>)
    ensures
        -1 <= index_of(keys, id) < keys.len(),
        index_of(keys, id) >= 0 ==> keys[index_of(keys, id)] == id,
        index_of(keys, id) == -1 <==> !keys.contains(id),
        forall|j: int| 0 <= j < index_of(keys, id) ==> keys[j] != id,
    decreases keys.len(),
{
    if keys.len() > 0 {
        let init = keys.drop_last();
        lemma_index_of(init, id);
        assert forall|j: int| 0 <= j < init.len() implies init[j] == keys[j] by {}
        if index_of(keys, id) == -1 {
            assert forall|j: int| 0 <= j < keys.len() implies keys[j] != id by {
                if j < init.len() {
                    assert(init[j] == keys[j]);
                }
            }
        }
        if keys.contains(id) && index_of(init, id) == -1 {
            let j = choose|j: int| 0 <= j < keys.len() && keys[j] == id;
            if j < init.len() {
                assert(init.contains(id)) by {
                    assert(init[j] == id);
                }
            }
        }
    }
}

/// Jobs by id, in the order they were created (a map keyed by the id each
/// job was created with).
pub struct JobStore {
    pub keys: Vec<String>,
    pub jobs: Vec<Job>,
}

impl JobStore {
    pub open spec fn ids(&self) -> Seq<Seq<char>> {
        string_views(self.keys@)
    }

    /// One job per key, and no key twice.
    pub open spec fn wf(&self) -> bool {
        &&& self.keys.len() == self.jobs.len()
        &&& forall|i: int, j: int|
            0 <= i < j < self.keys.len() ==> #[trigger] self.keys@[i]@ != #[trigger] self.keys@[j]@
    }

    /// The job filed under `id`.
    pub open spec fn lookup(&self, id: Seq<char>) -> Option<JobView> {
        let k = index_of(self.ids(), id);
        if k >= 0 {
            Some(self.jobs@[k]@)
        } else {
            None
        }
    }

    /// An empty table.
    pub fn new() -> (r: JobStore)
        ensures
            r.wf(),
            r.ids() == Seq::<Seq<char>>::empty(),
            forall|id: Seq<char>| r.lookup(id) is None,
    {
        let r = JobStore { keys: Vec::new(), jobs: Vec::new() };
        assert(r.ids() =~= Seq::<Seq<char>>::empty());
        r
    }

    /// The position of `id`, if it is filed.
    fn find(&self, id: &str) -> (r: Option<usize>)
        requires
            self.wf(),
        ensures
            match r {
                Some(k) => k == index_of(self.ids(), id@),
                None => index_of(self.ids(), id@) == -1,
            },
    {
        proof {
            lemma_index_of(self.ids(), id@);
        }
        let key = id.to_owned();
        let mut i: usize = 0;
        while i < self.keys.len()
            invariant
                self.wf(),
                key@ == id@,
                i <= self.keys.len(),
                forall|j: int| 0 <= j < i ==> self.ids()[j] != id@,
                -1 <= index_of(self.ids(), id@) < self.keys.len(),
                index_of(self.ids(), id@) >= 0 ==> self.ids()[index_of(self.ids(), id@)] == id@,
                index_of(self.ids(), id@) == -1 <==> !self.ids().contains(id@),
                forall|j: int| 0 <= j < index_of(self.ids(), id@) ==> self.ids()[j] != id@,
            decreases self.keys.len() - i,
        {
            if self.keys[i] == key {
                assert(self.ids()[i as int] == id@);
                return Some(i);
            }
            i += 1;
        }
        proof {
            if self.ids().contains(id@) {
                let j = choose|j: int| 0 <= j < self.ids().len() && self.ids()[j] == id@;
            }
        }
        None
    }
    /// Files `job` under `key`: replaces the job filed under it, if any,
    /// and adds it at the end otherwise.
    fn insert(&mut self, key: String, job: Job)
        requires
            old(self).wf(),
        ensures
            final(self).wf(),
            final(self).lookup(key@) == Some(job@),
            forall|id: Seq<char>| id != key@ ==> final(self).lookup(id) == old(self).lookup(id),
            old(self).ids().contains(key@) ==> final(self).ids() == old(self).ids(),
            !old(self).ids().contains(key@) ==> final(self).ids() == old(self).ids().push(key@),
    {
        let ghost old_store = *self;
        proof {
            lemma_index_of(self.ids(), key@);
        }
        match self.find(key.as_str()) {
            Some(k) => {
                let ghost old_jobs = self.jobs@;
                self.jobs.remove(k);
                self.jobs.insert(k, job);
                assert(self.jobs@ =~= old_jobs.update(k as int, job));
                assert(self.ids() == old_store.ids());
                assert forall|id: Seq<char>| id != key@ implies self.lookup(id)
                    == old_store.lookup(id) by {
                    lemma_index_of(self.ids(), id);
                }
            },
            None => {
                let ghost old_ids = self.ids();
                self.keys.push(key);
                self.jobs.push(job);
                assert(self.ids() =~= old_ids.push(key@));
                assert forall|i: int, j: int| 0 <= i < j < self.keys.len() implies #[trigger] self.keys@[i]@
                    != #[trigger] self.keys@[j]@ by {
                    if j == self.keys.len() - 1 {
                        assert(old_ids[i] == self.keys@[i]@);
                    } else {
                        assert(old_store.keys@[i] == self.keys@[i]);
                        assert(old_store.keys@[j] == self.keys@[j]);
                    }
                }
                proof {
                    lemma_index_of(self.ids(), key@);
                    lemma_index_first(self.ids(), key@, self.keys.len() - 1);
                }
                assert forall|id: Seq<char>| id != key@ implies self.lookup(id)
                    == old_store.lookup(id) by {
                    lemma_index_of(self.ids(), id);
                    lemma_index_of(old_ids, id);
                    assert(self.ids().drop_last() =~= old_ids);
                }
            },
        }
    }

    /// Creates a pending job of the given type, files it under its id and
    /// returns it.
    pub fn create_job(&mut self, job_type: &str) -> (r: Job)
        requires
            old(self).wf(),
        ensures
            final(self).wf(),
            Job::fresh(r@, job_type@),
            uuid_v4_text(r@.id),
            timestamp_text(r@.created_at),
            final(self).lookup(r@.id) == Some(r@),
            forall|id: Seq<char>| id != r@.id ==> final(self).lookup(id) == old(self).lookup(id),
            !old(self).ids().contains(r@.id) ==> final(self).ids() == old(self).ids().push(r@.id),
            old(self).ids().contains(r@.id) ==> final(self).ids() == old(self).ids(),
            final(self).ids().len() == old(self).ids().len() + if old(self).ids().contains(r@.id) {
                0int
            } else {
                1int
            },
    {
        let job = Job::new(job_type);
        let copy = job.duplicate();
        let key = job.id.clone();
        self.insert(key, copy);
        job
    }

    /// Applies `updater` to the job filed under `job_id`, if there is one;
    /// every other job stays as it was.
    pub fn update_job<F: FnOnce(Job) -> Job>(&mut self, job_id: &str, updater: F)
        requires
            old(self).wf(),
            forall|j: Job| call_requires(updater, (j,)),
        ensures
            final(self).wf(),
            final(self).ids() == old(self).ids(),
            forall|id: Seq<char>| id != job_id@ ==> final(self).lookup(id) == old(self).lookup(id),
            old(self).lookup(job_id@) is None ==> final(self).lookup(job_id@) is None,
            old(self).lookup(job_id@) is Some ==> exists|before: Job, after: Job|
                #![trigger call_ensures(updater, (before,), after)]
                before@ == old(self).lookup(job_id@).unwrap() && call_ensures(
                    updater,
                    (before,),
                    after,
                ) && final(self).lookup(job_id@) == Some(after@),
    {
        let ghost old_store = *self;
        proof {
            lemma_index_of(self.ids(), job_id@);
        }
        match self.find(job_id) {
            Some(k) => {
                let ghost old_jobs = self.jobs@;
                let before = self.jobs.remove(k);
                let ghost b = before;
                let after = updater(before);
                let ghost a = after;
                self.jobs.insert(k, after);
                assert(self.jobs@ =~= old_jobs.update(k as int, a));
                assert(self.ids() == old_store.ids());
                assert(call_ensures(updater, (b,), a));
                assert forall|id: Seq<char>| id != job_id@ implies self.lookup(id)
                    == old_store.lookup(id) by {
                    lemma_index_of(self.ids(), id);
                }
            },
            None => {},
        }
    }

    /// A copy of the job filed under `job_id`.
    pub fn get_job(&self, job_id: &str) -> (r: Option<Job>)
        requires
            self.wf(),
        ensures
            match r {
                Some(j) => self.lookup(job_id@) == Some(j@),
                None => self.lookup(job_id@) is None,
            },
    {
        proof {
            lemma_index_of(self.ids(), job_id@);
        }
        match self.find(job_id) {
            Some(k) => Some(self.jobs[k].duplicate()),
            None => None,
        }
    }

    /// Copies of all jobs, in the order they were filed.
    pub fn get_all_jobs(&self) -> (r: Vec<Job>)
        requires
            self.wf(),
        ensures
            r.len() == self.jobs.len(),
            forall|i: int| 0 <= i < r.len() ==> #[trigger] r@[i]@ == self.jobs@[i]@,
    {
        let mut r: Vec<Job> = Vec::new();
        let mut i: usize = 0;
        while i < self.jobs.len()
            invariant
                i <= self.jobs.len(),
                r.len() == i,
                forall|k: int| 0 <= k < i ==> #[trigger] r@[k]@ == self.jobs@[k]@,
            decreases self.jobs.len() - i,
        {
            r.push(self.jobs[i].duplicate());
            i += 1;
        }
        r
    }
}

/// With distinct keys, a key's first position is its only one.
pub proof fn lemma_index_first(keys: Seq<Seq<char>>, id: Seq<char>, k: int)
    requires
        0 <= k < keys.len(),
        keys[k] == id,
        forall|i: int, j: int| 0 <= i < j < keys.len() ==> #[trigger] keys[i] != #[trigger] keys[j],
    ensures
        index_of(keys, id) == k,
{
    lemma_index_of(keys, id);
    let f = index_of(keys, id);
    assert(keys.contains(id));
    if f < k {
        assert(keys[f] != keys[k]);
    }
}

/// Listing and looking up agree: each listed job is the one found under its
/// key, and an id finds a job exactly when it is among the keys.
pub proof fn lemma_listed_jobs_found(store: JobStore)
    requires
        store.wf(),
    ensures
        forall|i: int|
            0 <= i < store.jobs.len() ==> store.lookup(#[trigger] store.ids()[i]) == Some(
                store.jobs@[i]@,
            ),
        forall|id: Seq<char>| #[trigger] store.lookup(id) is Some <==> store.ids().contains(id),
{
    assert forall|i: int| 0 <= i < store.jobs.len() implies store.lookup(#[trigger] store.ids()[i])
        == Some(store.jobs@[i]@) by {
        assert forall|a: int, b: int|
            0 <= a < b < store.ids().len() implies #[trigger] store.ids()[a] != #[trigger] store.ids()[b] by {
            assert(store.keys@[a]@ != store.keys@[b]@);
        }
        lemma_index_first(store.ids(), store.ids()[i], i);
    }
    assert forall|id: Seq<char>| #[trigger] store.lookup(id) is Some <==> store.ids().contains(id) by {
        lemma_index_of(store.ids(), id);
    }
}

} // verus!
