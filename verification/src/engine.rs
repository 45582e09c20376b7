//! The order in which the jobs of all queues are published and retired.
//!
//! One worker owns the engine. It takes in what has retired, offers commands of the waiting jobs to the
//! firmware in turn, and lets jobs go that are through.
use crate::commands;
use crate::commands::{resolve_barriers, Stream, CommandKind, Header, NO_BARRIER};
use crate::error::Error;
use crate::lanes::Stamp;
use crate::submit::Receipt;
use vstd::prelude::*;

verus! {

/// Most commands that are published before the firmware is told.
pub const MAX_ADMITTED: u32 = 64;

/// A command of a job.
#[derive(Clone, Copy, Debug)]
pub struct Command {
    /// Whether it is for the compute queue.
    pub compute: bool,
    /// What it waits for among the renders and among the computes of its job.
    pub barriers: (u16, u16),
}

/// The commands of one submission.
pub struct Job {
    pub id: u64,
    /// Names the public queue of the submission.
    pub queue: u64,
    pub commands: Vec<Command>,
    /// How many commands are published.
    pub next: usize,
    /// How many of them have not retired.
    pub pending: usize,
    pub error: Option<Error>,
    /// The completions of the renders, behind the last one before the job.
    pub renders: Vec<Option<Stamp>>,
    /// The completions of the computes, behind the last one before the job.
    pub computes: Vec<Option<Stamp>>,
}

/// A published command that has not retired.
#[derive(Clone, Copy, Debug, PartialEq, Eq, Structural)]
pub struct Issued {
    pub id: u64,
    pub owner: u64,
}

/// All jobs that have started, in the order in which they came.
pub struct Engine {
    /// Whether there is a worker.
    pub running: bool,
    /// Where the next round starts.
    pub cursor: usize,
    pub jobs: Vec<Job>,
    pub issued: Vec<Issued>,
}

/// One attempt to publish commands: rounds over all jobs, until one of them publishes nothing.
#[derive(Clone, Copy, Debug, PartialEq, Eq, Structural)]
pub struct Pass {
    /// Where this round started.
    pub start: usize,
    /// How many jobs this round has passed.
    pub offset: usize,
    /// How many commands were published.
    pub admitted: u32,
    /// How many of them before this round.
    pub before: u32,
    /// Whether anything has changed.
    pub progress: bool,
}

/// What is handed to the firmware for a command.
#[derive(Clone, Copy, Debug)]
pub struct Request {
    pub command: usize,
    pub compute: bool,
    pub dependencies: [Option<Stamp>; 2],
}

/// How many of the first `k` commands are of a kind.
pub open spec fn kind_count(commands: Seq<Command>, k: int, compute: bool) -> nat
    decreases k,
{
    if k <= 0 {
        0
    } else {
        kind_count(commands, k - 1, compute) + if commands[k - 1].compute == compute {
            1nat
        } else {
            0
        }
    }
}

/// How many published commands of a job have not retired.
pub open spec fn owned(issued: Seq<Issued>, owner: u64) -> nat
    decreases issued.len(),
{
    if issued.len() == 0 {
        0
    } else {
        owned(issued.drop_last(), owner) + if issued.last().owner == owner {
            1nat
        } else {
            0
        }
    }
}

/// Whether the barriers of all commands speak of commands before them.
pub open spec fn barriers_ok(commands: Seq<Command>) -> bool {
    forall|k: int|
        0 <= k < commands.len() ==> {
            let barriers = (#[trigger] commands[k]).barriers;
            &&& barriers.0 == NO_BARRIER || barriers.0 <= kind_count(commands, k, false)
            &&& barriers.1 == NO_BARRIER || barriers.1 <= kind_count(commands, k, true)
        }
}

/// Whether a barrier speaks of something in a history.
pub open spec fn known(history: Seq<Option<Stamp>>, barrier: u16) -> bool {
    barrier == NO_BARRIER || barrier < history.len()
}

impl Job {
    /// Whether all commands are published, or none will be any more.
    pub open spec fn is_through(self) -> bool {
        self.error is Some || self.next == self.commands@.len()
    }

    /// What holds of every job: the histories have an entry for each published command.
    pub open spec fn wf(self) -> bool {
        &&& self.next <= self.commands@.len()
        &&& if self.renders@.len() == 0 {
            self.next == 0 && self.computes@.len() == 0
        } else {
            &&& self.renders@.len() == 1 + kind_count(self.commands@, self.next as int, false)
            &&& self.computes@.len() == 1 + kind_count(self.commands@, self.next as int, true)
        }
    }

    /// A job of which nothing is published.
    pub fn new(id: u64, queue: u64, commands: Vec<Command>) -> (out: Self)
        ensures
            out.wf(),
            out.id == id,
            out.queue == queue,
            out.commands@ == commands@,
            out.next == 0,
            out.pending == 0,
            out.error is None,
            out.renders@.len() == 0,
            out.computes@.len() == 0,
    {
        Job {
            id,
            queue,
            commands,
            next: 0,
            pending: 0,
            error: None,
            renders: Vec::new(),
            computes: Vec::new(),
        }
    }

    /// Whether all commands are published, or none will be any more.
    pub fn through(&self) -> (out: bool)
        ensures
            out == self.is_through(),
    {
        self.error.is_some() || self.next == self.commands.len()
    }
}

/// Whether a job can publish a command: the jobs before it on its queue are through.
pub open spec fn ready(jobs: Seq<Job>, i: int) -> bool {
    &&& !jobs[i].is_through()
    &&& forall|k: int|
        0 <= k < i && (#[trigger] jobs[k]).queue == jobs[i].queue ==> jobs[k].is_through()
}

/// The job at an offset from the start of a round.
pub open spec fn turn(start: int, offset: int, len: int) -> int {
    (start + offset) % len
}

/// The first offset, from one on, at which a round comes to a job that is ready.
pub open spec fn scan(jobs: Seq<Job>, start: int, offset: int) -> int
    decreases jobs.len() - offset,
{
    if offset < 0 || offset >= jobs.len() {
        jobs.len() as int
    } else if ready(jobs, turn(start, offset, jobs.len() as int)) {
        offset
    } else {
        scan(jobs, start, offset + 1)
    }
}

/// The job whose turn it is, and the pass after it.
pub open spec fn turn_of(jobs: Seq<Job>, cursor: usize, pass: Pass) -> Option<(int, Pass)> {
    let len = jobs.len() as int;
    let here = scan(jobs, pass.start as int, pass.offset as int);
    let again = scan(jobs, cursor as int, 0);
    if pass.admitted == MAX_ADMITTED {
        None
    } else if here < len {
        Some((turn(pass.start as int, here, len), Pass { offset: (here + 1) as usize, ..pass }))
    } else if pass.admitted != pass.before && again < len {
        Some(
            (
                turn(cursor as int, again, len),
                Pass { start: cursor, offset: (again + 1) as usize, before: pass.admitted, ..pass },
            ),
        )
    } else {
        None
    }
}

/// The first published command with a name.
pub open spec fn issued_at(issued: Seq<Issued>, id: u64, from: int) -> int
    decreases issued.len() - from,
{
    if from < 0 || from >= issued.len() {
        issued.len() as int
    } else if issued[from].id == id {
        from
    } else {
        issued_at(issued, id, from + 1)
    }
}

/// The first job with a name.
pub open spec fn job_at(jobs: Seq<Job>, id: u64, from: int) -> int
    decreases jobs.len() - from,
{
    if from < 0 || from >= jobs.len() {
        jobs.len() as int
    } else if jobs[from].id == id {
        from
    } else {
        job_at(jobs, id, from + 1)
    }
}

/// The first job that can go.
pub open spec fn gone_at(jobs: Seq<Job>, from: int) -> int
    decreases jobs.len() - from,
{
    if from < 0 || from >= jobs.len() {
        jobs.len() as int
    } else if jobs[from].pending == 0 && jobs[from].is_through() {
        from
    } else {
        gone_at(jobs, from + 1)
    }
}

proof fn lemma_issued_at(issued: Seq<Issued>, id: u64, from: int)
    requires
        0 <= from <= issued.len(),
    ensures
        from <= issued_at(issued, id, from) <= issued.len(),
        issued_at(issued, id, from) < issued.len() ==> issued[issued_at(issued, id, from)].id == id,
        issued_at(issued, id, from) == issued.len() ==> forall|k: int|
            from <= k < issued.len() ==> (#[trigger] issued[k]).id != id,
    decreases issued.len() - from,
{
    if from < issued.len() && issued[from].id != id {
        lemma_issued_at(issued, id, from + 1);
    }
}

proof fn lemma_job_at(jobs: Seq<Job>, id: u64, from: int, j: int)
    requires
        0 <= from <= j < jobs.len(),
        jobs[j].id == id,
    ensures
        from <= job_at(jobs, id, from) <= j,
        jobs[job_at(jobs, id, from)].id == id,
    decreases jobs.len() - from,
{
    if jobs[from].id != id {
        lemma_job_at(jobs, id, from + 1, j);
    }
}

proof fn lemma_scan(jobs: Seq<Job>, start: int, offset: int)
    requires
        0 <= offset <= jobs.len(),
        0 <= start,
    ensures
        offset <= scan(jobs, start, offset) <= jobs.len(),
        scan(jobs, start, offset) < jobs.len() ==> ready(
            jobs,
            turn(start, scan(jobs, start, offset), jobs.len() as int),
        ),
    decreases jobs.len() - offset,
{
    if offset < jobs.len() && !ready(jobs, turn(start, offset, jobs.len() as int)) {
        lemma_scan(jobs, start, offset + 1);
    }
}

proof fn lemma_turn(start: int, offset: int, len: int)
    requires
        0 <= start,
        0 <= offset < len,
    ensures
        turn(start, offset, len) == if offset < len - start % len {
            start % len + offset
        } else {
            offset - (len - start % len)
        },
        0 <= turn(start, offset, len) < len,
{
    let s = start % len;
    let q = start / len;
    vstd::arithmetic::div_mod::lemma_fundamental_div_mod(start, len);
    vstd::arithmetic::div_mod::lemma_mod_bound(start, len);
    assert(q * len == len * q) by (nonlinear_arith);
    if offset < len - s {
        vstd::arithmetic::div_mod::lemma_fundamental_div_mod_converse(
            start + offset,
            len,
            q,
            s + offset,
        );
    } else {
        assert(len * (q + 1) == len * q + len) by (nonlinear_arith);
        vstd::arithmetic::div_mod::lemma_fundamental_div_mod_converse(
            start + offset,
            len,
            q + 1,
            s + offset - len,
        );
    }
}

proof fn lemma_owned_bound(issued: Seq<Issued>, owner: u64)
    ensures
        owned(issued, owner) <= issued.len(),
    decreases issued.len(),
{
    if issued.len() > 0 {
        lemma_owned_bound(issued.drop_last(), owner);
    }
}

proof fn lemma_owned_remove(issued: Seq<Issued>, i: int, owner: u64)
    requires
        0 <= i < issued.len(),
    ensures
        owned(issued, owner) == owned(issued.remove(i), owner) + if issued[i].owner == owner {
            1nat
        } else {
            0
        },
    decreases issued.len(),
{
    if i == issued.len() - 1 {
        assert(issued.remove(i) =~= issued.drop_last());
    } else {
        lemma_owned_remove(issued.drop_last(), i, owner);
        assert(issued.remove(i).drop_last() =~= issued.drop_last().remove(i));
    }
}

proof fn lemma_owned_push(issued: Seq<Issued>, new: Issued, owner: u64)
    ensures
        owned(issued.push(new), owner) == owned(issued, owner) + if new.owner == owner {
            1nat
        } else {
            0
        },
{
    assert(issued.push(new).drop_last() =~= issued);
}

proof fn lemma_owned_none(issued: Seq<Issued>, owner: u64)
    requires
        owned(issued, owner) == 0,
    ensures
        forall|k: int| 0 <= k < issued.len() ==> (#[trigger] issued[k]).owner != owner,
    decreases issued.len(),
{
    if issued.len() > 0 {
        lemma_owned_none(issued.drop_last(), owner);
        assert forall|k: int| 0 <= k < issued.len() implies (#[trigger] issued[k]).owner != owner by {
            if k < issued.len() - 1 {
                assert(issued.drop_last()[k].owner != owner);
            }
        }
    }
}

proof fn lemma_owned_some(issued: Seq<Issued>, owner: u64)
    requires
        owned(issued, owner) > 0,
    ensures
        exists|k: int| 0 <= k < issued.len() && (#[trigger] issued[k]).owner == owner,
    decreases issued.len(),
{
    if issued.last().owner == owner {
        assert(issued[issued.len() - 1].owner == owner);
    } else {
        lemma_owned_some(issued.drop_last(), owner);
        let k = choose|k: int|
            0 <= k < issued.drop_last().len() && (#[trigger] issued.drop_last()[k]).owner == owner;
        assert(issued[k].owner == owner);
    }
}

impl Pass {
    /// What holds of a pass over the jobs of an engine.
    pub open spec fn fits(self, engine: Engine) -> bool {
        self.offset <= engine.jobs@.len() && self.before <= self.admitted <= MAX_ADMITTED
    }
}

impl Engine {
    /// Whether every two jobs have different names.
    pub open spec fn distinct(self) -> bool {
        forall|i: int, j: int|
            0 <= i < j < self.jobs@.len() ==> (#[trigger] self.jobs@[i]).id != (#[trigger] self.jobs@[j]).id
    }

    /// Whether no job has started while one before it on its queue is not through.
    pub open spec fn in_order(self) -> bool {
        forall|i: int, j: int|
            0 <= i < j < self.jobs@.len() && (#[trigger] self.jobs@[i]).queue == (
            #[trigger] self.jobs@[j]).queue && !self.jobs@[i].is_through() ==> self.jobs@[j].renders@.len()
                == 0 && self.jobs@[j].next == 0
    }

    /// What holds of the engine between any two operations: jobs count what they have issued, everything
    /// issued belongs to a job, and queues are published in order.
    pub open spec fn wf(self) -> bool {
        &&& self.distinct()
        &&& self.in_order()
        &&& forall|i: int|
            0 <= i < self.jobs@.len() ==> {
                &&& (#[trigger] self.jobs@[i]).wf()
                &&& self.jobs@[i].pending == owned(self.issued@, self.jobs@[i].id)
            }
        &&& forall|k: int|
            0 <= k < self.issued@.len() ==> exists|i: int|
                0 <= i < self.jobs@.len() && (#[trigger] self.jobs@[i]).id == (
                #[trigger] self.issued@[k]).owner
    }

    /// Whether a name is not in use.
    pub open spec fn fresh(self, id: u64) -> bool {
        &&& forall|i: int| 0 <= i < self.jobs@.len() ==> (#[trigger] self.jobs@[i]).id != id
    }

    /// An engine without jobs.
    pub fn new() -> (out: Self)
        ensures
            out.wf(),
            !out.running,
            out.cursor == 0,
            out.jobs@.len() == 0,
            out.issued@.len() == 0,
    {
        Engine { running: false, cursor: 0, jobs: Vec::new(), issued: Vec::new() }
    }

    /// Takes in a job. Answers whether a worker has to be started.
    pub fn enqueue(&mut self, job: Job) -> (out: bool)
        requires
            old(self).wf(),
            old(self).fresh(job.id),
            job.wf(),
            job.next == 0,
            job.pending == 0,
            job.renders@.len() == 0,
        ensures
            final(self).wf(),
            final(self).jobs@ == old(self).jobs@.push(job),
            final(self).issued@ == old(self).issued@,
            final(self).cursor == old(self).cursor,
            final(self).running,
            out == !old(self).running,
    {
        proof {
            if owned(self.issued@, job.id) != 0 {
                lemma_owned_some(self.issued@, job.id);
            }
            assert forall|k: int| 0 <= k < self.issued@.len() implies exists|i: int|
                0 <= i < self.jobs@.push(job).len() && (#[trigger] self.jobs@.push(job)[i]).id == (
                #[trigger] self.issued@[k]).owner by {
                let i = choose|i: int|
                    0 <= i < self.jobs@.len() && (#[trigger] self.jobs@[i]).id == self.issued@[k].owner;
                assert(self.jobs@.push(job)[i].id == self.issued@[k].owner);
            }
        }
        self.jobs.push(job);
        let idle: bool = !self.running;
        self.running = true;
        idle
    }

    /// The engine after a command has retired.
    pub open spec fn after_retired(self, id: u64, result: Result<(), Error>, after: Engine) -> bool {
        let i = issued_at(self.issued@, id, 0);
        let j = job_at(self.jobs@, self.issued@[i].owner, 0);
        let job = self.jobs@[j];
        &&& after.running == self.running
        &&& after.cursor == self.cursor
        &&& after.issued@ == self.issued@.remove(i)
        &&& after.jobs@ == self.jobs@.update(
            j,
            Job {
                pending: (job.pending - 1) as usize,
                error: match result {
                    Ok(_) => job.error,
                    Err(e) => Some(e),
                },
                ..job
            },
        )
    }

    /// Takes in that a command has retired, with or without an error.
    pub fn retired(&mut self, id: u64, result: Result<(), Error>) -> (out: Result<(), Error>)
        requires
            old(self).wf(),
        ensures
            final(self).wf(),
            if issued_at(old(self).issued@, id, 0) == old(self).issued@.len() {
                out == Err::<(), Error>(Error::EIO) && *final(self) == *old(self)
            } else {
                out == Ok::<(), Error>(()) && old(self).after_retired(id, result, *final(self))
            },
    {
        let ghost before = *self;
        let mut i: usize = 0;
        while i < self.issued.len() && self.issued[i].id != id
            invariant
                i <= self.issued@.len(),
                issued_at(self.issued@, id, 0) == issued_at(self.issued@, id, i as int),
            decreases self.issued@.len() - i,
        {
            i = i + 1;
        }
        if i == self.issued.len() {
            return Err(Error::EIO);
        }
        let owner: u64 = self.issued[i].owner;
        proof {
            let j = choose|j: int| 0 <= j < self.jobs@.len() && (#[trigger] self.jobs@[j]).id == owner;
            assert(0 <= j < self.jobs@.len() && self.jobs@[j].id == owner) by {
                assert(self.issued@[i as int].owner == owner);
            }
            lemma_job_at(self.jobs@, owner, 0, j);
        }
        let mut j: usize = 0;
        while j < self.jobs.len() && self.jobs[j].id != owner
            invariant
                j <= self.jobs@.len(),
                job_at(self.jobs@, owner, 0) == job_at(self.jobs@, owner, j as int),
            decreases self.jobs@.len() - j,
        {
            j = j + 1;
        }
        if j == self.jobs.len() {
            return Err(Error::EIO);
        }
        proof {
            lemma_owned_remove(self.issued@, i as int, owner);
            assert(self.jobs@[j as int].pending == owned(self.issued@, owner));
        }
        self.issued.remove(i);
        self.jobs[j].pending = self.jobs[j].pending - 1;
        match result {
            Ok(()) => {},
            Err(e) => {
                self.jobs[j].error = Some(e);
            },
        }
        proof {
            let job = before.jobs@[j as int];
            let error = match result {
                Ok(_) => job.error,
                Err(e) => Some(e),
            };
            let pending = (job.pending - 1) as usize;
            assert(self.jobs@ =~= before.jobs@.update(j as int, Job { pending, error, ..job }));
            assert(before.after_retired(id, result, *self));
            assert forall|k: int| 0 <= k < self.jobs@.len() implies {
                &&& (#[trigger] self.jobs@[k]).wf()
                &&& self.jobs@[k].pending == owned(self.issued@, self.jobs@[k].id)
            } by {
                assert(before.jobs@[k].wf());
                lemma_owned_remove(before.issued@, i as int, before.jobs@[k].id);
                if k != j {
                    assert(before.jobs@[k].id != before.jobs@[j as int].id);
                }
            }
            assert forall|k: int| 0 <= k < self.issued@.len() implies exists|l: int|
                0 <= l < self.jobs@.len() && (#[trigger] self.jobs@[l]).id == (
                #[trigger] self.issued@[k]).owner by {
                let at = if k < i {
                    k
                } else {
                    k + 1
                };
                assert(self.issued@[k] == before.issued@[at]);
                let l = choose|l: int|
                    0 <= l < before.jobs@.len() && (#[trigger] before.jobs@[l]).id
                        == before.issued@[at].owner;
                assert(self.jobs@[l].id == self.issued@[k].owner);
            }
            assert forall|a: int, b: int| 0 <= a < b < self.jobs@.len() implies (
            #[trigger] self.jobs@[a]).id != (#[trigger] self.jobs@[b]).id by {
                assert(before.jobs@[a].id != before.jobs@[b].id);
            }
            assert forall|a: int, b: int|
                0 <= a < b < self.jobs@.len() && (#[trigger] self.jobs@[a]).queue == (
                #[trigger] self.jobs@[b]).queue && !self.jobs@[a].is_through() implies self.jobs@[b].renders@.len()
                == 0 && self.jobs@[b].next == 0 by {
                assert(before.jobs@[a].queue == before.jobs@[b].queue);
            }
        }
        Ok(())
    }

    /// Starts a pass.
    pub fn open_pass(&self) -> (out: Pass)
        ensures
            out == (Pass { start: self.cursor, offset: 0, admitted: 0, before: 0, progress: false }),
            out.fits(*self),
    {
        Pass { start: self.cursor, offset: 0, admitted: 0, before: 0, progress: false }
    }

    /// Whether a job can publish a command.
    fn is_ready(&self, i: usize) -> (out: bool)
        requires
            i < self.jobs@.len(),
        ensures
            out == ready(self.jobs@, i as int),
    {
        if self.jobs[i].through() {
            return false;
        }
        let mut k: usize = 0;
        while k < i
            invariant
                k <= i < self.jobs@.len(),
                forall|m: int|
                    0 <= m < k && (#[trigger] self.jobs@[m]).queue == self.jobs@[i as int].queue
                        ==> self.jobs@[m].is_through(),
            decreases i - k,
        {
            if self.jobs[k].queue == self.jobs[i].queue && !self.jobs[k].through() {
                return false;
            }
            k = k + 1;
        }
        true
    }

    /// The rest of a round.
    fn scan_from(&self, start: usize, from: usize) -> (out: Option<(usize, usize)>)
        requires
            from <= self.jobs@.len(),
        ensures
            ({
                let at = scan(self.jobs@, start as int, from as int);
                if at < self.jobs@.len() {
                    out == Some((turn(start as int, at, self.jobs@.len() as int) as usize, at as usize))
                        && 0 <= at && turn(start as int, at, self.jobs@.len() as int)
                        < self.jobs@.len() && 0 <= turn(start as int, at, self.jobs@.len() as int)
                } else {
                    out is None
                }
            }),
    {
        let len: usize = self.jobs.len();
        let mut offset: usize = from;
        while offset < len
            invariant
                len == self.jobs@.len(),
                offset <= len,
                scan(self.jobs@, start as int, from as int) == scan(
                    self.jobs@,
                    start as int,
                    offset as int,
                ),
            decreases len - offset,
        {
            proof {
                lemma_turn(start as int, offset as int, len as int);
            }
            let s: usize = start % len;
            let index: usize = if offset < len - s {
                s + offset
            } else {
                offset - (len - s)
            };
            if self.is_ready(index) {
                return Some((index, offset));
            }
            offset = offset + 1;
        }
        None
    }

    /// The job whose turn it is. A round goes over all jobs from the cursor on; after a round that has
    /// published something comes another one. None when the pass is over.
    pub fn next_job(&self, pass: &mut Pass) -> (out: Option<usize>)
        requires
            old(pass).fits(*self),
        ensures
            final(pass).fits(*self),
            match turn_of(self.jobs@, self.cursor, *old(pass)) {
                Some((index, after)) => out == Some(index as usize) && 0 <= index < self.jobs@.len() && ready(
                    self.jobs@,
                    index,
                ) && *final(pass) == after,
                None => out is None,
            },
    {
        if pass.admitted == MAX_ADMITTED {
            return None;
        }
        proof {
            lemma_scan(self.jobs@, pass.start as int, pass.offset as int);
            lemma_scan(self.jobs@, self.cursor as int, 0);
        }
        assert(self.jobs.len() <= usize::MAX);
        match self.scan_from(pass.start, pass.offset) {
            Some((index, at)) => {
                pass.offset = at + 1;
                return Some(index);
            },
            None => {},
        }
        if pass.admitted == pass.before {
            return None;
        }
        match self.scan_from(self.cursor, 0) {
            Some((index, at)) => {
                pass.start = self.cursor;
                pass.before = pass.admitted;
                pass.offset = at + 1;
                Some(index)
            },
            None => None,
        }
    }

    /// A job that is ready can change without disturbing the others.
    proof fn lemma_job_changed(self, after: Engine, index: int, pushed: Option<Issued>)
        requires
            self.wf(),
            0 <= index < self.jobs@.len(),
            ready(self.jobs@, index),
            after.jobs@ == self.jobs@.update(index, after.jobs@[index]),
            after.jobs@[index].id == self.jobs@[index].id,
            after.jobs@[index].queue == self.jobs@[index].queue,
            after.jobs@[index].wf(),
            match pushed {
                None => after.issued@ == self.issued@ && after.jobs@[index].pending
                    == self.jobs@[index].pending,
                Some(new) => new.owner == self.jobs@[index].id && after.issued@ == self.issued@.push(new)
                    && after.jobs@[index].pending == self.jobs@[index].pending + 1,
            },
        ensures
            after.wf(),
            !after.jobs@[index].is_through() ==> ready(after.jobs@, index),
    {
        assert forall|k: int| 0 <= k < after.jobs@.len() implies {
            &&& (#[trigger] after.jobs@[k]).wf()
            &&& after.jobs@[k].pending == owned(after.issued@, after.jobs@[k].id)
        } by {
            assert(self.jobs@[k].wf());
            if let Some(new) = pushed {
                lemma_owned_push(self.issued@, new, self.jobs@[k].id);
            }
            if k < index {
                assert(self.jobs@[k].id != self.jobs@[index].id);
            } else if index < k {
                assert(self.jobs@[index].id != self.jobs@[k].id);
            }
        }
        assert forall|k: int| 0 <= k < after.issued@.len() implies exists|l: int|
            0 <= l < after.jobs@.len() && (#[trigger] after.jobs@[l]).id == (
            #[trigger] after.issued@[k]).owner by {
            if k < self.issued@.len() {
                assert(after.issued@[k] == self.issued@[k]);
                let l = choose|l: int|
                    0 <= l < self.jobs@.len() && (#[trigger] self.jobs@[l]).id == self.issued@[k].owner;
                assert(after.jobs@[l].id == after.issued@[k].owner);
            } else {
                assert(after.jobs@[index].id == after.issued@[k].owner);
            }
        }
        assert forall|a: int, b: int| 0 <= a < b < after.jobs@.len() implies (
        #[trigger] after.jobs@[a]).id != (#[trigger] after.jobs@[b]).id by {
            assert(self.jobs@[a].id != self.jobs@[b].id);
        }
        assert forall|a: int, b: int|
            0 <= a < b < after.jobs@.len() && (#[trigger] after.jobs@[a]).queue == (
            #[trigger] after.jobs@[b]).queue && !after.jobs@[a].is_through() implies after.jobs@[b].renders@.len()
            == 0 && after.jobs@[b].next == 0 by {
            assert(self.jobs@[a].queue == self.jobs@[b].queue);
        }
        assert forall|k: int|
            0 <= k < index && (#[trigger] after.jobs@[k]).queue == after.jobs@[index].queue implies after.jobs@[k].is_through() by {
            assert(self.jobs@[k].queue == self.jobs@[index].queue);
        }
    }

    /// Prepares the next command of a job: `last` are the last completions on its queue, from which the
    /// histories of a job start. Fails on a barrier that speaks of no command before it.
    pub fn prepare(&mut self, index: usize, last: [Option<Stamp>; 2]) -> (out: Result<Request, Error>)
        requires
            old(self).wf(),
            index < old(self).jobs@.len(),
            ready(old(self).jobs@, index as int),
        ensures
            final(self).wf(),
            final(self).running == old(self).running,
            final(self).cursor == old(self).cursor,
            final(self).issued@ == old(self).issued@,
            final(self).jobs@ == old(self).jobs@.update(index as int, final(self).jobs@[index as int]),
            ready(final(self).jobs@, index as int),
            ({
                let job = old(self).jobs@[index as int];
                let after = final(self).jobs@[index as int];
                let barriers = job.commands@[job.next as int].barriers;
                let fresh = job.renders@.len() == 0;
                &&& after == (Job { renders: after.renders, computes: after.computes, ..job })
                &&& after.renders@ == if fresh {
                    seq![last@[0]]
                } else {
                    job.renders@
                }
                &&& after.computes@ == if fresh {
                    seq![last@[1]]
                } else {
                    job.computes@
                }
                &&& if known(after.renders@, barriers.0) && known(after.computes@, barriers.1) {
                    &&& out is Ok
                    &&& out->Ok_0.command == job.next
                    &&& out->Ok_0.compute == job.commands@[job.next as int].compute
                    &&& out->Ok_0.dependencies@ == seq![
                        commands::waited_for(after.renders@, barriers.0),
                        commands::waited_for(after.computes@, barriers.1),
                    ]
                } else {
                    out is Err && out->Err_0 == Error::EIO
                }
            }),
    {
        let ghost before = *self;
        if self.jobs[index].renders.len() == 0 {
            self.jobs[index].renders.push(last[0]);
            self.jobs[index].computes.push(last[1]);
        }
        proof {
            assert(self.jobs@ =~= before.jobs@.update(index as int, self.jobs@[index as int]));
            before.lemma_job_changed(*self, index as int, None);
            assert(self.jobs@[index as int].renders@ =~= if before.jobs@[index as int].renders@.len() == 0 {
                seq![last@[0]]
            } else {
                before.jobs@[index as int].renders@
            });
            assert(self.jobs@[index as int].computes@ =~= if before.jobs@[index as int].renders@.len()
                == 0 {
                seq![last@[1]]
            } else {
                before.jobs@[index as int].computes@
            });
        }
        let next: usize = self.jobs[index].next;
        let command: Command = self.jobs[index].commands[next];
        match resolve_barriers(&self.jobs[index].renders, &self.jobs[index].computes, command.barriers) {
            Err(e) => Err(e),
            Ok(dependencies) => Ok(Request { command: next, compute: command.compute, dependencies }),
        }
    }

    /// A job after the firmware has taken its next command.
    pub open spec fn admitted(job: Job, receipt: Receipt, after: Job) -> bool {
        let compute = job.commands@[job.next as int].compute;
        &&& after == (Job {
            next: (job.next + 1) as usize,
            pending: (job.pending + 1) as usize,
            renders: after.renders,
            computes: after.computes,
            ..job
        })
        &&& after.renders@ == if compute {
            job.renders@
        } else {
            job.renders@.push(Some(receipt.stamp))
        }
        &&& after.computes@ == if compute {
            job.computes@.push(Some(receipt.stamp))
        } else {
            job.computes@
        }
    }

    /// Takes in what became of a prepared command. While the device has not failed, a command for which
    /// there is no room waits, and any other error ends its job. Afterwards rounds start behind the job
    /// that was admitted last.
    pub fn answered(
        &mut self,
        pass: &mut Pass,
        index: usize,
        outcome: Result<Receipt, Error>,
        failed: bool,
    ) -> (out: Result<(), Error>)
        requires
            old(self).wf(),
            old(pass).fits(*old(self)),
            old(pass).admitted < MAX_ADMITTED,
            index < old(self).jobs@.len(),
            ready(old(self).jobs@, index as int),
            old(self).jobs@[index as int].renders@.len() > 0,
        ensures
            final(self).wf(),
            final(pass).fits(*final(self)),
            final(self).running == old(self).running,
            final(self).jobs@ == old(self).jobs@.update(index as int, final(self).jobs@[index as int]),
            match outcome {
                Ok(receipt) => {
                    &&& out is Ok
                    &&& Self::admitted(
                        old(self).jobs@[index as int],
                        receipt,
                        final(self).jobs@[index as int],
                    )
                    &&& final(self).issued@ == old(self).issued@.push(
                        Issued { id: receipt.id, owner: old(self).jobs@[index as int].id },
                    )
                    &&& final(self).cursor == index + 1
                    &&& *final(pass) == (Pass {
                        admitted: (old(pass).admitted + 1) as u32,
                        progress: true,
                        ..*old(pass)
                    })
                },
                Err(e) => {
                    &&& out == if failed {
                        Err::<(), Error>(e)
                    } else {
                        Ok(())
                    }
                    &&& final(self).issued@ == old(self).issued@
                    &&& final(self).cursor == old(self).cursor
                    &&& if failed || e == Error::EBUSY {
                        *final(self) == *old(self) && *final(pass) == *old(pass)
                    } else {
                        &&& final(self).jobs@[index as int] == (Job {
                            error: Some(e),
                            ..old(self).jobs@[index as int]
                        })
                        &&& *final(pass) == (Pass { progress: true, ..*old(pass) })
                    }
                },
            },
    {
        let ghost before = *self;
        let receipt: Receipt = match outcome {
            Ok(receipt) => receipt,
            Err(e) => {
                if failed {
                    return Err(e);
                }
                if e != Error::EBUSY {
                    self.jobs[index].error = Some(e);
                    pass.progress = true;
                    proof {
                        assert(self.jobs@ =~= before.jobs@.update(
                            index as int,
                            self.jobs@[index as int],
                        ));
                        before.lemma_job_changed(*self, index as int, None);
                    }
                }
                return Ok(());
            },
        };
        let next: usize = self.jobs[index].next;
        let compute: bool = self.jobs[index].commands[next].compute;
        let stamp: Option<Stamp> = Some(receipt.stamp);
        if compute {
            self.jobs[index].computes.push(stamp);
        } else {
            self.jobs[index].renders.push(stamp);
        }
        let issued: Issued = Issued { id: receipt.id, owner: self.jobs[index].id };
        self.issued.push(issued);
        proof {
            lemma_owned_push(before.issued@, issued, issued.owner);
            lemma_owned_bound(self.issued@, issued.owner);
            assert(before.jobs@[index as int].pending == owned(before.issued@, issued.owner));
            assert(self.issued.len() <= usize::MAX);
            assert(self.jobs.len() <= usize::MAX);
            assert(before.jobs@[index as int].commands.len() <= usize::MAX);
        }
        self.jobs[index].next = next + 1;
        self.jobs[index].pending = self.jobs[index].pending + 1;
        self.cursor = index + 1;
        pass.admitted = pass.admitted + 1;
        pass.progress = true;
        proof {
            assert(before.jobs@[index as int].wf());
            assert(self.jobs@ =~= before.jobs@.update(index as int, self.jobs@[index as int]));
            before.lemma_job_changed(*self, index as int, Some(issued));
        }
        Ok(())
    }

    /// Lets the first job go that is through and of which nothing is outstanding.
    pub fn finished(&mut self) -> (out: Option<Job>)
        requires
            old(self).wf(),
        ensures
            final(self).wf(),
            final(self).running == old(self).running,
            final(self).cursor == old(self).cursor,
            final(self).issued@ == old(self).issued@,
            ({
                let at = gone_at(old(self).jobs@, 0);
                if at < old(self).jobs@.len() {
                    &&& out == Some(old(self).jobs@[at])
                    &&& old(self).jobs@[at].pending == 0
                    &&& old(self).jobs@[at].is_through()
                    &&& final(self).jobs@ == old(self).jobs@.remove(at)
                    &&& forall|k: int|
                        0 <= k < old(self).issued@.len() ==> (#[trigger] old(self).issued@[k]).owner
                            != old(self).jobs@[at].id
                } else {
                    out is None && final(self).jobs@ == old(self).jobs@
                }
            }),
    {
        let ghost before = *self;
        let mut i: usize = 0;
        while i < self.jobs.len() && !(self.jobs[i].pending == 0 && self.jobs[i].through())
            invariant
                i <= self.jobs@.len(),
                gone_at(self.jobs@, 0) == gone_at(self.jobs@, i as int),
            decreases self.jobs@.len() - i,
        {
            i = i + 1;
        }
        if i == self.jobs.len() {
            return None;
        }
        let job: Job = self.jobs.remove(i);
        proof {
            assert(before.jobs@[i as int].pending == owned(before.issued@, before.jobs@[i as int].id));
            lemma_owned_none(before.issued@, before.jobs@[i as int].id);
            before.lemma_without(*self, i as int);
        }
        Some(job)
    }

    /// A job of which nothing is outstanding can go without disturbing the others.
    proof fn lemma_without(self, after: Engine, i: int)
        requires
            self.wf(),
            0 <= i < self.jobs@.len(),
            self.jobs@[i].pending == 0,
            after.jobs@ == self.jobs@.remove(i),
            after.issued@ == self.issued@,
        ensures
            after.wf(),
    {
        assert(owned(self.issued@, self.jobs@[i].id) == 0);
        lemma_owned_none(self.issued@, self.jobs@[i].id);
        assert forall|k: int| 0 <= k < after.jobs@.len() implies {
            &&& (#[trigger] after.jobs@[k]).wf()
            &&& after.jobs@[k].pending == owned(after.issued@, after.jobs@[k].id)
        } by {
            assert(after.jobs@[k] == self.jobs@[if k < i {
                k
            } else {
                k + 1
            }]);
        }
        assert forall|k: int| 0 <= k < after.issued@.len() implies exists|l: int|
            0 <= l < after.jobs@.len() && (#[trigger] after.jobs@[l]).id == (
            #[trigger] after.issued@[k]).owner by {
            assert(after.issued@[k] == self.issued@[k]);
            let l = choose|l: int|
                0 <= l < self.jobs@.len() && (#[trigger] self.jobs@[l]).id == self.issued@[k].owner;
            assert(l != i);
            let m = if l < i {
                l
            } else {
                l - 1
            };
            assert(after.jobs@[m] == self.jobs@[l]);
        }
        assert forall|a: int, b: int| 0 <= a < b < after.jobs@.len() implies (
        #[trigger] after.jobs@[a]).id != (#[trigger] after.jobs@[b]).id by {
            let c = if a < i {
                a
            } else {
                a + 1
            };
            let d = if b < i {
                b
            } else {
                b + 1
            };
            assert(self.jobs@[c].id != self.jobs@[d].id);
        }
        assert forall|a: int, b: int|
            0 <= a < b < after.jobs@.len() && (#[trigger] after.jobs@[a]).queue == (
            #[trigger] after.jobs@[b]).queue && !after.jobs@[a].is_through() implies after.jobs@[b].renders@.len()
            == 0 && after.jobs@[b].next == 0 by {
            let c = if a < i {
                a
            } else {
                a + 1
            };
            let d = if b < i {
                b
            } else {
                b + 1
            };
            assert(self.jobs@[c].queue == self.jobs@[d].queue);
        }
    }

    /// Gives up: all jobs end, and nothing is outstanding any more.
    pub fn fail(&mut self) -> (out: Vec<Job>)
        ensures
            final(self).wf(),
            out@ == old(self).jobs@,
            final(self).jobs@.len() == 0,
            final(self).issued@.len() == 0,
            !final(self).running,
            final(self).cursor == old(self).cursor,
    {
        let mut jobs: Vec<Job> = Vec::new();
        std::mem::swap(&mut jobs, &mut self.jobs);
        self.issued.clear();
        self.running = false;
        jobs
    }

    /// Whether the worker can stop, because no jobs are left.
    pub fn rest(&mut self) -> (out: bool)
        requires
            old(self).wf(),
        ensures
            final(self).wf(),
            out == (old(self).jobs@.len() == 0),
            final(self).running == (old(self).running && !out),
            final(self).jobs@ == old(self).jobs@,
            final(self).issued@ == old(self).issued@,
            final(self).cursor == old(self).cursor,
    {
        if self.jobs.len() == 0 {
            assert(self.issued@.len() == 0) by {
                if self.issued@.len() > 0 {
                    let owner = self.issued@[0].owner;
                    assert(exists|i: int| 0 <= i < self.jobs@.len() && (#[trigger] self.jobs@[i]).id == owner);
                }
            }
            self.running = false;
            return true;
        }
        false
    }
}

/// Whether the worker may go on: the wait before it and the state of the device allow it. Answers the
/// generation of notifications that it has seen.
pub fn may_run(wake: Result<(), Error>, seen: Result<u64, Error>, failed: bool) -> (out: Result<u64, Error>)
    ensures
        out == match wake {
            Err(e) => Err(e),
            Ok(()) => match seen {
                Err(e) => Err(e),
                Ok(generation) => if failed {
                    Err(Error::EIO)
                } else {
                    Ok(generation)
                },
            },
        },
{
    match wake {
        Err(e) => {
            return Err(e);
        },
        Ok(()) => {},
    }
    match seen {
        Err(e) => Err(e),
        Ok(generation) => if failed {
            Err(Error::EIO)
        } else {
            Ok(generation)
        },
    }
}

/// Whether a job may start: the firmware cannot run one a second time.
pub fn may_start(started: bool) -> (out: Result<(), Error>)
    ensures
        out == if started {
            Err::<(), Error>(Error::EIO)
        } else {
            Ok(())
        },
{
    if started {
        Err(Error::EIO)
    } else {
        Ok(())
    }
}

/// With what a job that is dropped ends: one that has started ends with its commands.
pub fn dropped(started: bool) -> (out: Option<Error>)
    ensures
        out == if started {
            None::<Error>
        } else {
            Some(Error::ECANCELED)
        },
{
    if started {
        None
    } else {
        Some(Error::ECANCELED)
    }
}

/// Where all barriers of a job speak of commands before them, each of them is known when its command is
/// prepared.
pub proof fn lemma_prepared(job: Job)
    requires
        job.wf(),
        barriers_ok(job.commands@),
        job.next < job.commands@.len(),
    ensures
        ({
            let barriers = job.commands@[job.next as int].barriers;
            if job.renders@.len() == 0 {
                forall|last: [Option<Stamp>; 2]|
                    known(#[trigger] seq![last@[0]], barriers.0) && known(seq![last@[1]], barriers.1)
            } else {
                known(job.renders@, barriers.0) && known(job.computes@, barriers.1)
            }
        }),
{
    let command = job.commands@[job.next as int];
}

proof fn lemma_count_prefix(commands: Seq<Command>, new: Command, k: int, compute: bool)
    requires
        0 <= k <= commands.len(),
    ensures
        kind_count(commands.push(new), k, compute) == kind_count(commands, k, compute),
    decreases k,
{
    if k > 0 {
        lemma_count_prefix(commands, new, k - 1, compute);
    }
}

/// The commands of an accepted stream have barriers that speak of commands before them.
pub proof fn lemma_accepted_barriers(stream: Stream, header: Header, commands: Seq<Command>)
    requires
        stream.wf(),
        stream.refusal(header) is None,
        header.kind == Some(CommandKind::Render) || header.kind == Some(CommandKind::Compute),
        barriers_ok(commands),
        stream.renders == kind_count(commands, commands.len() as int, false),
        stream.computes == kind_count(commands, commands.len() as int, true),
    ensures
        ({
            let compute = header.kind == Some(CommandKind::Compute);
            let after = commands.push(
                Command { compute, barriers: (header.vdm_barrier, header.cdm_barrier) },
            );
            &&& barriers_ok(after)
            &&& kind_count(after, after.len() as int, false) == stream.renders + if compute {
                0int
            } else {
                1
            }
            &&& kind_count(after, after.len() as int, true) == stream.computes + if compute {
                1int
            } else {
                0
            }
        }),
{
    let compute = header.kind == Some(CommandKind::Compute);
    let new = Command { compute, barriers: (header.vdm_barrier, header.cdm_barrier) };
    let after = commands.push(new);
    lemma_count_prefix(commands, new, commands.len() as int, false);
    lemma_count_prefix(commands, new, commands.len() as int, true);
    assert forall|k: int| 0 <= k < after.len() implies {
        let barriers = (#[trigger] after[k]).barriers;
        &&& barriers.0 == NO_BARRIER || barriers.0 <= kind_count(after, k, false)
        &&& barriers.1 == NO_BARRIER || barriers.1 <= kind_count(after, k, true)
    } by {
        lemma_count_prefix(commands, new, k, false);
        lemma_count_prefix(commands, new, k, true);
        if k < commands.len() {
            assert(after[k] == commands[k]);
        }
    }
}

/// Jobs of one queue are published in the order in which they came: a job that has published a command
/// has none before it on its queue that could still publish one.
pub proof fn lemma_queue_order(engine: Engine, i: int, j: int)
    requires
        engine.wf(),
        0 <= i < j < engine.jobs@.len(),
        engine.jobs@[i].queue == engine.jobs@[j].queue,
        engine.jobs@[j].next > 0,
    ensures
        engine.jobs@[i].is_through(),
{
}

/// No job starves: while a pass publishes something in every round, each round comes to every job that
/// is ready.
pub proof fn lemma_round_covers(jobs: Seq<Job>, start: int, i: int)
    requires
        0 <= start,
        0 <= i < jobs.len(),
        ready(jobs, i),
    ensures
        exists|offset: int| 0 <= offset < jobs.len() && #[trigger] turn(start, offset, jobs.len() as int) == i,
        scan(jobs, start, 0) < jobs.len(),
{
    let len = jobs.len() as int;
    let s = start % len;
    vstd::arithmetic::div_mod::lemma_mod_bound(start, len);
    let offset = if s <= i {
        i - s
    } else {
        i - s + len
    };
    lemma_turn(start, offset, len);
    assert(turn(start, offset, len) == i);
    lemma_scan_finds(jobs, start, 0, offset);
}

proof fn lemma_scan_finds(jobs: Seq<Job>, start: int, from: int, offset: int)
    requires
        0 <= from <= offset < jobs.len(),
        ready(jobs, turn(start, offset, jobs.len() as int)),
    ensures
        scan(jobs, start, from) <= offset,
    decreases offset - from,
{
    if from < offset {
        lemma_scan_finds(jobs, start, from + 1, offset);
    }
}

} // verus!
