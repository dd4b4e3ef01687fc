//! Discovery Proxy query jobs: which unicast questions are outstanding, and their budget.
use super::{spec_question, Reachability, TranslatedQuestion, TranslatedV, Zone, ZoneV};
use crate::dns::name::canonical_wire;
use crate::dns::wire::{Question, QuestionV};
use crate::error::Error;
use crate::time::Time;
use vstd::prelude::*;

verus! {

pub const MAX_JOBS: usize = 128;
pub const MAX_JOB_BYTES: usize = 4194304;

struct Job {
    query: TranslatedQuestion,
    until: Time,
    multicast: Option<u64>,
    cancelled: bool,
    bytes: usize,
}

pub struct JobV {
    pub query: TranslatedV,
    pub until: Time,
    pub multicast: Option<u64>,
    pub cancelled: bool,
    pub bytes: nat,
}

impl View for Job {
    type V = JobV;

    closed spec fn view(&self) -> JobV {
        JobV {
            query: self.query@,
            until: self.until,
            multicast: self.multicast,
            cancelled: self.cancelled,
            bytes: self.bytes as nat,
        }
    }
}

pub struct ProxyV {
    pub zone: ZoneV,
    pub reachability: Reachability,
    pub jobs: Seq<(u64, JobV)>,
    pub sequence: u64,
    pub again: bool,
}

/// Outstanding unicast questions and the multicast lookups that answer them.
pub struct Proxy {
    zone: Zone,
    reachability: Reachability,
    jobs: Vec<(u64, Job)>,
    sequence: u64,
    again: bool,
}

pub open spec fn jobs_bytes(jobs: Seq<(u64, JobV)>) -> nat
    decreases jobs.len(),
{
    if jobs.len() == 0 {
        0
    } else {
        jobs_bytes(jobs.drop_last()) + jobs.last().1.bytes
    }
}

pub open spec fn same_question(a: QuestionV, b: QuestionV) -> bool {
    canonical_wire(a.name) == canonical_wire(b.name) && a.kind == b.kind && a.class == b.class
}

/// The memory a job is charged: a fixed part and both names.
pub open spec fn job_bytes(t: TranslatedV) -> nat {
    2048 + canonical_wire(t.original.name).len() * 4 + t.original.name.len() * 128 + canonical_wire(
        t.multicast.name,
    ).len() * 4 + t.multicast.name.len() * 128
}

impl View for Proxy {
    type V = ProxyV;

    closed spec fn view(&self) -> ProxyV {
        ProxyV {
            zone: self.zone@,
            reachability: self.reachability,
            jobs: self.jobs@.map_values(|e: (u64, Job)| (e.0, e.1@)),
            sequence: self.sequence,
            again: self.again,
        }
    }
}

/// Jobs are kept in increasing id order, every id at most the last one given out, within
/// the count and byte budgets.
pub open spec fn proxy_wf(p: ProxyV) -> bool {
    &&& p.jobs.len() <= MAX_JOBS
    &&& jobs_bytes(p.jobs) <= MAX_JOB_BYTES
    &&& forall|i: int, j: int| 0 <= i < j < p.jobs.len() ==> p.jobs[i].0 < p.jobs[j].0
    &&& forall|i: int| 0 <= i < p.jobs.len() ==> (#[trigger] p.jobs[i]).0 <= p.sequence
}

/// The first live job for the same question, by id.
pub open spec fn find_live(jobs: Seq<(u64, JobV)>, q: QuestionV, now: Time, i: int) -> Option<u64>
    decreases jobs.len() - i,
{
    if i < 0 || i >= jobs.len() {
        None
    } else if !jobs[i].1.cancelled && jobs[i].1.until > now && same_question(jobs[i].1.query.original, q) {
        Some(jobs[i].0)
    } else {
        find_live(jobs, q, now, i + 1)
    }
}

pub open spec fn sat_add(a: u64, b: u64) -> u64 {
    if a + b > u64::MAX {
        u64::MAX
    } else {
        (a + b) as u64
    }
}

/// What starting a question does: the id of a live job for the same question, or a new
/// job with a six-second deadline, or why it cannot start.
pub open spec fn spec_start(p: ProxyV, q: QuestionV, now: Time) -> Result<(ProxyV, u64), Error> {
    match spec_question(p.zone, q) {
        Err(e) => Err(e),
        Ok(None) => Err(Error::Invalid),
        Ok(Some(t)) => match find_live(p.jobs, q, now, 0) {
            Some(id) => Ok((p, id)),
            None => if p.jobs.len() == MAX_JOBS || jobs_bytes(p.jobs) + job_bytes(t) > MAX_JOB_BYTES
                || p.sequence == u64::MAX {
                Err(Error::Capacity)
            } else {
                let id = (p.sequence + 1) as u64;
                Ok(
                    (
                        ProxyV {
                            sequence: id,
                            jobs: p.jobs.push(
                                (
                                    id,
                                    JobV {
                                        query: t,
                                        until: sat_add(now, 6000),
                                        multicast: None,
                                        cancelled: false,
                                        bytes: job_bytes(t),
                                    },
                                ),
                            ),
                            ..p
                        },
                        id,
                    ),
                )
            },
        },
    }
}

/// When the proxy next needs to run: now for a job that is cancelled, has not started its
/// multicast lookup, or waits behind a full batch; else the earliest deadline.
pub open spec fn job_due(j: JobV, again: bool, now: Time) -> Time {
    if j.cancelled || j.multicast is None || again {
        now
    } else {
        j.until
    }
}

pub open spec fn spec_next_deadline(jobs: Seq<(u64, JobV)>, again: bool, now: Time) -> Option<Time>
    decreases jobs.len(),
{
    if jobs.len() == 0 {
        None
    } else {
        let d = job_due(jobs.last().1, again, now);
        match spec_next_deadline(jobs.drop_last(), again, now) {
            None => Some(d),
            Some(e) => Some(if d < e { d } else { e }),
        }
    }
}

proof fn lemma_jobs_bytes_push(jobs: Seq<(u64, JobV)>, e: (u64, JobV))
    ensures
        jobs_bytes(jobs.push(e)) == jobs_bytes(jobs) + e.1.bytes,
{
    assert(jobs.push(e).drop_last() =~= jobs);
}

pub(crate) fn same_question_exec(a: &Question, b: &Question) -> (r: bool)
    ensures
        r == same_question(a@, b@),
{
    a.name.eq(&b.name) && a.kind == b.kind && a.class == b.class
}

impl Proxy {
    pub closed spec fn wf(&self) -> bool {
        proxy_wf(self@)
    }

    pub fn new(zone: Zone) -> (r: Proxy)
        ensures
            r.wf(),
            r@ == (ProxyV {
                zone: zone@,
                reachability: Reachability {
                    on_link: false,
                    ipv4_link_local: false,
                    different_private_realm: false,
                    different_ula_realm: false,
                    include_unusable: false,
                },
                jobs: Seq::empty(),
                sequence: 0,
                again: false,
            }),
    {
        let reachability = Reachability {
            on_link: false,
            ipv4_link_local: false,
            different_private_realm: false,
            different_ula_realm: false,
            include_unusable: false,
        };
        let p = Proxy { zone, reachability, jobs: Vec::new(), sequence: 0, again: false };
        assert(p@.jobs =~= Seq::<(u64, JobV)>::empty());
        p
    }

    pub fn set_reachability(&mut self, reachability: Reachability)
        requires
            old(self).wf(),
        ensures
            final(self).wf(),
            final(self)@ == (ProxyV { reachability, ..old(self)@ }),
    {
        self.reachability = reachability;
        assert(self@.jobs =~= old(self)@.jobs);
    }

    /// The number of jobs and the bytes they are charged.
    pub fn counts(&self) -> (r: (usize, usize))
        requires
            self.wf(),
        ensures
            r.0 == self@.jobs.len(),
            r.1 == jobs_bytes(self@.jobs),
    {
        let ghost jv = self@.jobs;
        let mut total: usize = 0;
        let mut i: usize = 0;
        while i < self.jobs.len()
            invariant
                jv == self@.jobs,
                proxy_wf(self@),
                i <= self.jobs@.len(),
                total == jobs_bytes(jv.take(i as int)),
            decreases self.jobs@.len() - i,
        {
            proof {
                assert(jv.take(i + 1).drop_last() =~= jv.take(i as int));
                lemma_jobs_bytes_prefix(jv, i + 1);
            }
            total = total + self.jobs[i].1.bytes;
            i = i + 1;
        }
        assert(jv.take(self.jobs@.len() as int) =~= jv);
        (self.jobs.len(), total)
    }

    /// Starts (or joins) the lookup for a unicast question.
    pub fn start(&mut self, question: Question, now: Time) -> (r: Result<u64, Error>)
        requires
            old(self).wf(),
        ensures
            final(self).wf(),
            match spec_start(old(self)@, question@, now) {
                Ok((p, id)) => r == Ok::<u64, Error>(id) && final(self)@ == p,
                Err(e) => r == Err::<u64, Error>(e) && final(self)@ == old(self)@,
            },
    {
        let query = match self.zone.question(&question) {
            Err(e) => return Err(e),
            Ok(None) => return Err(Error::Invalid),
            Ok(Some(t)) => t,
        };
        let ghost jv = self@.jobs;
        let mut i: usize = 0;
        while i < self.jobs.len()
            invariant
                jv == self@.jobs,
                self@ == old(self)@,
                proxy_wf(self@),
                spec_question(self@.zone, question@) == Ok::<Option<TranslatedV>, Error>(Some(query@)),
                i <= self.jobs@.len(),
                find_live(jv, question@, now, 0) == find_live(jv, question@, now, i as int),
            decreases self.jobs@.len() - i,
        {
            let j = &self.jobs[i].1;
            assert(jv[i as int].1 == j@);
            if !j.cancelled && j.until > now && same_question_exec(&j.query.original, &question) {
                return Ok(self.jobs[i].0);
            }
            i = i + 1;
        }
        let (count, used) = self.counts();
        let on = query.original.name.canonical().len();
        let mn = query.multicast.name.canonical().len();
        query.original.name.check_valid();
        query.multicast.name.check_valid();
        let bytes = 2048 + on * 4 + query.original.name.label_count() * 128 + mn * 4 + query.multicast.name.label_count()
            * 128;
        if count == MAX_JOBS || used + bytes > MAX_JOB_BYTES || self.sequence == u64::MAX {
            return Err(Error::Capacity);
        }
        self.sequence = self.sequence + 1;
        let id = self.sequence;
        let ghost before = self@.jobs;
        let job = Job { query, until: if now > u64::MAX - 6000 { u64::MAX } else { now + 6000 }, multicast: None, cancelled: false, bytes };
        self.jobs.push((id, job));
        proof {
            assert(self@.jobs =~= before.push((id, job@)));
            lemma_jobs_bytes_push(before, (id, job@));
        }
        Ok(id)
    }

    /// Marks a job cancelled; the next poll stops its lookup.
    pub fn cancel(&mut self, id: u64)
        requires
            old(self).wf(),
        ensures
            final(self).wf(),
            final(self)@.zone == old(self)@.zone,
            final(self)@.sequence == old(self)@.sequence,
            final(self)@.jobs.len() == old(self)@.jobs.len(),
            final(self)@.jobs == cancel_jobs(old(self)@.jobs, id),
            final(self)@.again == old(self)@.again,
            forall|i: int| 0 <= i < old(self)@.jobs.len() ==> (#[trigger] final(self)@.jobs[i]) == if old(self)@.jobs[i].0 == id {
                (id, JobV { cancelled: true, ..old(self)@.jobs[i].1 })
            } else {
                old(self)@.jobs[i]
            },
    {
        let ghost jv = self@.jobs;
        let mut i: usize = 0;
        while i < self.jobs.len()
            invariant
                jv == old(self)@.jobs,
                self@.zone == old(self)@.zone,
                self@.sequence == old(self)@.sequence,
                self@.reachability == old(self)@.reachability,
                self@.again == old(self)@.again,
                self@.jobs.len() == jv.len(),
                i <= jv.len(),
                forall|k: int| 0 <= k < jv.len() ==> (#[trigger] self@.jobs[k]).0 == jv[k].0 && self@.jobs[k].1.bytes == jv[k].1.bytes,
                forall|k: int| 0 <= k < i ==> (#[trigger] self@.jobs[k]) == if jv[k].0 == id {
                    (id, JobV { cancelled: true, ..jv[k].1 })
                } else {
                    jv[k]
                },
                forall|k: int| i <= k < jv.len() ==> (#[trigger] self@.jobs[k]) == jv[k],
            decreases jv.len() - i,
        {
            if self.jobs[i].0 == id {
                let ghost before = self@.jobs;
                let (k, mut job) = self.jobs.remove(i);
                job.cancelled = true;
                self.jobs.insert(i, (k, job));
                assert(self@.jobs =~= before.update(i as int, (id, JobV { cancelled: true, ..before[i as int].1 })));
            }
            i = i + 1;
        }
        proof {
            assert(self@.jobs.len() == jv.len());
            assert forall|a: int, b: int| 0 <= a < b < self@.jobs.len() implies self@.jobs[a].0 < self@.jobs[b].0 by {
                assert(self@.jobs[a].0 == jv[a].0);
                assert(self@.jobs[b].0 == jv[b].0);
            }
            lemma_jobs_bytes_same(jv, self@.jobs);
            assert(self@.jobs =~= cancel_jobs(jv, id));
        }
    }

    /// When the proxy next needs to run, if any job is outstanding.
    pub fn next_deadline(&self, now: Time) -> (r: Option<Time>)
        ensures
            r == spec_next_deadline(self@.jobs, self@.again, now),
    {
        let ghost jv = self@.jobs;
        let mut best: Option<Time> = None;
        let mut i: usize = 0;
        while i < self.jobs.len()
            invariant
                jv == self@.jobs,
                i <= self.jobs@.len(),
                best == spec_next_deadline(jv.take(i as int), self@.again, now),
            decreases self.jobs@.len() - i,
        {
            let j = &self.jobs[i].1;
            proof {
                assert(jv.take(i + 1).drop_last() =~= jv.take(i as int));
                assert(jv[i as int].1 == j@);
            }
            let d = if j.cancelled || j.multicast.is_none() || self.again { now } else { j.until };
            best = match best {
                None => Some(d),
                Some(e) => Some(if d < e { d } else { e }),
            };
            i = i + 1;
        }
        assert(jv.take(self.jobs@.len() as int) =~= jv);
        best
    }
}

proof fn lemma_jobs_bytes_prefix(jobs: Seq<(u64, JobV)>, i: int)
    requires
        0 <= i <= jobs.len(),
    ensures
        jobs_bytes(jobs.take(i)) <= jobs_bytes(jobs),
    decreases jobs.len() - i,
{
    if i < jobs.len() {
        lemma_jobs_bytes_prefix(jobs, i + 1);
        assert(jobs.take(i + 1).drop_last() =~= jobs.take(i));
    } else {
        assert(jobs.take(i) =~= jobs);
    }
}

proof fn lemma_jobs_bytes_same(a: Seq<(u64, JobV)>, b: Seq<(u64, JobV)>)
    requires
        a.len() == b.len(),
        forall|k: int| 0 <= k < a.len() ==> (#[trigger] a[k]).1.bytes == b[k].1.bytes,
    ensures
        jobs_bytes(a) == jobs_bytes(b),
    decreases a.len(),
{
    if a.len() > 0 {
        lemma_jobs_bytes_same(a.drop_last(), b.drop_last());
    }
}

proof fn lemma_find_live_push(jobs: Seq<(u64, JobV)>, e: (u64, JobV), q: QuestionV, now: Time, i: int)
    requires
        0 <= i <= jobs.len(),
        find_live(jobs, q, now, i) is None,
    ensures
        find_live(jobs.push(e), q, now, i) == find_live(seq![e], q, now, 0),
    decreases jobs.len() - i,
{
    let s = jobs.push(e);
    if i < jobs.len() {
        assert(s[i] == jobs[i]);
        lemma_find_live_push(jobs, e, q, now, i + 1);
    } else {
        assert(s[i] == e);
        assert(find_live(s, q, now, i + 1) == None::<u64>);
        assert(find_live(seq![e], q, now, 1) == None::<u64>);
    }
}

/// Starting a question again, at the same time, joins the job the first start left behind:
/// the same id, and no change.
pub proof fn lemma_start_joins(p: ProxyV, q: QuestionV, now: Time)
    requires
        now < u64::MAX,
        spec_start(p, q, now) is Ok,
    ensures
        spec_start((spec_start(p, q, now)->Ok_0).0, q, now) == spec_start(p, q, now),
{
    let (p2, id) = spec_start(p, q, now)->Ok_0;
    let t = spec_question(p.zone, q)->Ok_0->0;
    if find_live(p.jobs, q, now, 0) is None {
        let e = (id, JobV { query: t, until: sat_add(now, 6000), multicast: None, cancelled: false, bytes: job_bytes(t) });
        assert(p2.jobs == p.jobs.push(e));
        lemma_find_live_push(p.jobs, e, q, now, 0);
        assert(t.original == q);
        assert(find_live(seq![e], q, now, 0) == Some(id));
    }
}

proof fn lemma_find_live_later(jobs: Seq<(u64, JobV)>, q: QuestionV, now: Time, later: Time, i: int)
    requires
        now <= later,
        find_live(jobs, q, now, i) is None,
    ensures
        find_live(jobs, q, later, i) is None,
    decreases jobs.len() - i,
{
    if 0 <= i < jobs.len() {
        lemma_find_live_later(jobs, q, now, later, i + 1);
    }
}

/// Starting a question that opened a new job, again at any time before that job's deadline
/// (with nothing else done in between), joins it: the same id and no change. A question
/// that opens a new job gets an id above every job's id before it.
pub proof fn lemma_start_joins_later(p: ProxyV, q: QuestionV, now: Time, later: Time)
    requires
        proxy_wf(p),
        spec_start(p, q, now) is Ok,
        find_live(p.jobs, q, now, 0) is None,
        now <= later,
        later < sat_add(now, 6000),
    ensures
        spec_start((spec_start(p, q, now)->Ok_0).0, q, later) == Ok::<(ProxyV, u64), Error>(spec_start(p, q, now)->Ok_0),
        forall|i: int| 0 <= i < p.jobs.len() ==> (#[trigger] p.jobs[i]).0 < (spec_start(p, q, now)->Ok_0).1,
{
    let (p2, id) = spec_start(p, q, now)->Ok_0;
    let t = spec_question(p.zone, q)->Ok_0->0;
    let e = (id, JobV { query: t, until: sat_add(now, 6000), multicast: None, cancelled: false, bytes: job_bytes(t) });
    assert(p2.jobs == p.jobs.push(e));
    lemma_find_live_later(p.jobs, q, now, later, 0);
    lemma_find_live_push(p.jobs, e, q, later, 0);
    assert(t.original == q);
    assert(find_live(seq![e], q, later, 0) == Some(id));
}

/// The jobs after `cancel(id)`.
pub open spec fn cancel_jobs(jobs: Seq<(u64, JobV)>, id: u64) -> Seq<(u64, JobV)> {
    jobs.map_values(|e: (u64, JobV)| if e.0 == id { (id, JobV { cancelled: true, ..e.1 }) } else { e })
}

proof fn lemma_due_now(jobs: Seq<(u64, JobV)>, again: bool, now: Time, k: int)
    requires
        0 <= k < jobs.len(),
        jobs[k].1.cancelled,
    ensures
        spec_next_deadline(jobs, again, now) matches Some(d) && d <= now,
    decreases jobs.len(),
{
    if k < jobs.len() - 1 {
        lemma_due_now(jobs.drop_last(), again, now, k);
    }
}

proof fn lemma_find_live_not(jobs: Seq<(u64, JobV)>, q: QuestionV, now: Time, id: u64, i: int)
    ensures
        find_live(cancel_jobs(jobs, id), q, now, i) != Some(id),
    decreases jobs.len() - i,
{
    if 0 <= i < jobs.len() {
        lemma_find_live_not(jobs, q, now, id, i + 1);
    }
}

/// After `cancel(id)` of a job that exists, the proxy is due at once, and starting any
/// question again gives an id other than `id`.
pub proof fn lemma_cancel_due(p: ProxyV, id: u64, q: QuestionV, now: Time)
    requires
        proxy_wf(p),
        exists|k: int| 0 <= k < p.jobs.len() && p.jobs[k].0 == id,
    ensures
        spec_next_deadline(cancel_jobs(p.jobs, id), p.again, now) matches Some(d) && d <= now,
        spec_start(ProxyV { jobs: cancel_jobs(p.jobs, id), ..p }, q, now) matches Ok((_, other)) ==> other != id,
{
    let k = choose|k: int| 0 <= k < p.jobs.len() && p.jobs[k].0 == id;
    let c = cancel_jobs(p.jobs, id);
    assert(c[k].1.cancelled);
    lemma_due_now(c, p.again, now, k);
    lemma_find_live_not(p.jobs, q, now, id, 0);
    assert(p.jobs[k].0 <= p.sequence);
}

/// Before anything starts, nothing is due and nothing is held.
pub proof fn lemma_idle(again: bool, now: Time)
    ensures
        spec_next_deadline(Seq::<(u64, JobV)>::empty(), again, now) is None,
        jobs_bytes(Seq::<(u64, JobV)>::empty()) == 0,
{
}

} // verus!
