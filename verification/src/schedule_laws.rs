//! What holds of the order in which jobs are published and retired.
use crate::commands;
use crate::engine;
use crate::engine::{Command, Engine, Issued, Job, Pass};
use crate::error::Error;
use crate::lanes::Stamp;
use crate::submit::Receipt;
use vstd::prelude::*;

verus! {

/// A job is through exactly when it has failed or all of its commands are published.
pub proof fn lemma_through(job: Job)
    requires
        job.wf(),
    ensures
        job.is_through() <==> job.error is Some || job.next >= job.commands@.len(),
{
}

/// The commands of a kind are counted.
pub proof fn lemma_kind_count(commands: Seq<Command>, k: int, compute: bool)
    requires
        0 <= k <= commands.len(),
    ensures
        engine::kind_count(commands, k, compute) == commands.take(k).filter(
            |c: Command| c.compute == compute,
        ).len(),
        engine::kind_count(commands, k, true) + engine::kind_count(commands, k, false) == k,
    decreases k,
{
    if k > 0 {
        lemma_kind_count(commands, k - 1, compute);
        let all = commands.take(k);
        assert(all.drop_last() =~= commands.take(k - 1));
        assert(all.last() == commands[k - 1]);
        reveal(Seq::filter);
    } else {
        assert(commands.take(0) =~= Seq::<Command>::empty());
        reveal(Seq::filter);
    }
}

/// What a job has outstanding is counted.
pub proof fn lemma_owned_count(issued: Seq<Issued>, owner: u64)
    ensures
        engine::owned(issued, owner) == issued.filter(|i: Issued| i.owner == owner).len(),
    decreases issued.len(),
{
    reveal(Seq::filter);
    if issued.len() > 0 {
        lemma_owned_count(issued.drop_last(), owner);
    }
}

/// A job is ready exactly when it can publish and no job that came before it on its queue still can.
pub proof fn lemma_ready(jobs: Seq<Job>, i: int)
    requires
        0 <= i < jobs.len(),
    ensures
        engine::ready(jobs, i) <==> {
            &&& jobs[i].error is None && jobs[i].next != jobs[i].commands@.len()
            &&& forall|k: int|
                0 <= k < i && (#[trigger] jobs[k]).queue == jobs[i].queue ==> jobs[k].error is Some || jobs[k].next
                    == jobs[k].commands@.len()
        },
{
}

/// At most one job of a queue is ready.
pub proof fn lemma_one_ready(jobs: Seq<Job>, i: int, j: int)
    requires
        0 <= i < jobs.len(),
        0 <= j < jobs.len(),
        engine::ready(jobs, i),
        engine::ready(jobs, j),
        jobs[i].queue == jobs[j].queue,
    ensures
        i == j,
{
}

/// A scan stops at the first job that is ready, and passes the end only where none is.
pub proof fn lemma_scan_first(jobs: Seq<Job>, start: int, from: int, offset: int)
    requires
        0 <= from <= jobs.len(),
        from <= offset < jobs.len(),
    ensures
        offset < engine::scan(jobs, start, from) ==> !engine::ready(
            jobs,
            engine::turn(start, offset, jobs.len() as int),
        ),
        offset == engine::scan(jobs, start, from) ==> engine::ready(
            jobs,
            engine::turn(start, offset, jobs.len() as int),
        ),
        from <= engine::scan(jobs, start, from) <= jobs.len(),
    decreases jobs.len() - from,
{
    if from < jobs.len() && !engine::ready(jobs, engine::turn(start, from, jobs.len() as int)) {
        if from < offset {
            lemma_scan_first(jobs, start, from + 1, offset);
        } else {
            lemma_scan_bounds(jobs, start, from + 1);
        }
    }
}

proof fn lemma_scan_bounds(jobs: Seq<Job>, start: int, from: int)
    requires
        0 <= from <= jobs.len(),
    ensures
        from <= engine::scan(jobs, start, from) <= jobs.len(),
    decreases jobs.len() - from,
{
    if from < jobs.len() {
        lemma_scan_bounds(jobs, start, from + 1);
    }
}

/// A pass ends after 64 commands.
pub proof fn lemma_pass_full(jobs: Seq<Job>, cursor: usize, pass: Pass)
    requires
        pass.admitted == 64,
    ensures
        engine::turn_of(jobs, cursor, pass) is None,
{
}

/// In a round the turn goes to the next job that is ready, and the round goes on behind it. What was admitted so
/// far and where the round began do not change.
pub proof fn lemma_turn_in_round(jobs: Seq<Job>, cursor: usize, pass: Pass, offset: int)
    requires
        pass.admitted < 64,
        pass.offset <= offset < jobs.len(),
        jobs.len() <= usize::MAX,
        engine::ready(jobs, (pass.start + offset) % jobs.len() as int),
        forall|k: int|
            pass.offset <= k < offset ==> !#[trigger] engine::ready(
                jobs,
                engine::turn(pass.start as int, k, jobs.len() as int),
            ),
    ensures
        engine::turn_of(jobs, cursor, pass) is Some,
        ({
            let (index, after) = engine::turn_of(jobs, cursor, pass)->0;
            &&& index == (pass.start + offset) % jobs.len() as int
            &&& after.offset == offset + 1
            &&& after.start == pass.start
            &&& after.admitted == pass.admitted
            &&& after.before == pass.before
            &&& after.progress == pass.progress
        }),
{
    lemma_scan_reaches(jobs, pass.start as int, pass.offset as int, offset);
}

proof fn lemma_scan_reaches(jobs: Seq<Job>, start: int, from: int, offset: int)
    requires
        0 <= from <= offset < jobs.len(),
        engine::ready(jobs, engine::turn(start, offset, jobs.len() as int)),
        forall|k: int|
            from <= k < offset ==> !#[trigger] engine::ready(jobs, engine::turn(start, k, jobs.len() as int)),
    ensures
        engine::scan(jobs, start, from) == offset,
    decreases offset - from,
{
    if from < offset {
        assert(!engine::ready(jobs, engine::turn(start, from, jobs.len() as int)));
        lemma_scan_reaches(jobs, start, from + 1, offset);
    }
}

/// When a round is over, another one begins at the cursor, but only where this one has published something; the
/// new round counts what it publishes from here on.
pub proof fn lemma_next_round(jobs: Seq<Job>, cursor: usize, pass: Pass)
    requires
        pass.admitted < 64,
        pass.offset == jobs.len(),
    ensures
        pass.admitted == pass.before ==> engine::turn_of(jobs, cursor, pass) is None,
        engine::turn_of(jobs, cursor, pass) matches Some((index, after)) ==> {
            &&& pass.admitted != pass.before
            &&& after.start == cursor
            &&& after.before == pass.admitted
            &&& after.admitted == pass.admitted
            &&& 0 < after.offset <= jobs.len()
            &&& index == (cursor + (after.offset - 1)) % jobs.len() as int
            &&& engine::ready(jobs, index)
        },
        (exists|i: int|
            0 <= i < jobs.len() && engine::ready(jobs, #[trigger] engine::turn(cursor as int, i, jobs.len() as int)))
            && pass.admitted != pass.before ==> engine::turn_of(jobs, cursor, pass) is Some,
{
    lemma_scan_bounds(jobs, cursor as int, 0);
    let again = engine::scan(jobs, cursor as int, 0);
    if again < jobs.len() {
        assert(jobs.len() > 0);
        lemma_scan_first(jobs, cursor as int, 0, again);
    } else if exists|i: int|
        0 <= i < jobs.len() && engine::ready(jobs, #[trigger] engine::turn(cursor as int, i, jobs.len() as int)) {
        let i = choose|i: int|
            0 <= i < jobs.len() && engine::ready(
                jobs,
                #[trigger] engine::turn(cursor as int, i, jobs.len() as int),
            );
        lemma_scan_first(jobs, cursor as int, 0, i);
    }
}

/// A published command is remembered in the history of its own kind, with the stamp of its receipt; the history of
/// the other kind, the commands, the name and the error stay as they were.
pub proof fn lemma_admitted(job: Job, receipt: Receipt, after: Job)
    requires
        job.wf(),
        job.next < job.commands@.len(),
        job.pending < usize::MAX,
        Engine::admitted(job, receipt, after),
    ensures
        after.next == job.next + 1,
        after.pending == job.pending + 1,
        after.id == job.id,
        after.queue == job.queue,
        after.error == job.error,
        after.commands == job.commands,
        job.commands@[job.next as int].compute ==> after.renders@ == job.renders@ && after.computes@.len()
            == job.computes@.len() + 1 && after.computes@.last() == Some(receipt.stamp) && after.computes@.drop_last()
            == job.computes@,
        !job.commands@[job.next as int].compute ==> after.computes@ == job.computes@ && after.renders@.len()
            == job.renders@.len() + 1 && after.renders@.last() == Some(receipt.stamp) && after.renders@.drop_last()
            == job.renders@,
{
    assert(job.commands.len() <= usize::MAX);
    assert(job.computes@.push(Some(receipt.stamp)).drop_last() =~= job.computes@);
    assert(job.renders@.push(Some(receipt.stamp)).drop_last() =~= job.renders@);
}

/// A later command that counts to this one waits for the stamp of its receipt.
pub proof fn lemma_later_waits(job: Job, receipt: Receipt, after: Job)
    requires
        job.wf(),
        job.renders@.len() > 0,
        job.next < job.commands@.len(),
        Engine::admitted(job, receipt, after),
        engine::kind_count(job.commands@, job.next as int, job.commands@[job.next as int].compute) < 0xfffe,
    ensures
        ({
            let compute = job.commands@[job.next as int].compute;
            let place = (1 + engine::kind_count(job.commands@, job.next as int, compute)) as u16;
            let history = if compute {
                after.computes@
            } else {
                after.renders@
            };
            commands::waited_for(history, place) == Some(receipt.stamp)
        }),
{
}

/// When a command retires, exactly it is taken from what is outstanding, and exactly its job counts one less; an
/// error ends that job, and success does not touch an error that it has.
pub proof fn lemma_retired(before: Engine, after: Engine, id: u64, result: Result<(), Error>, i: int, j: int)
    requires
        before.wf(),
        0 <= i < before.issued@.len(),
        before.issued@[i].id == id,
        forall|k: int| 0 <= k < i ==> (#[trigger] before.issued@[k]).id != id,
        0 <= j < before.jobs@.len(),
        before.jobs@[j].id == before.issued@[i].owner,
        before.jobs@[j].pending > 0,
        before.after_retired(id, result, after),
    ensures
        after.running == before.running,
        after.cursor == before.cursor,
        after.issued@.len() == before.issued@.len() - 1,
        forall|k: int| 0 <= k < i ==> #[trigger] after.issued@[k] == before.issued@[k],
        forall|k: int| i <= k < after.issued@.len() ==> #[trigger] after.issued@[k] == before.issued@[k + 1],
        after.jobs@.len() == before.jobs@.len(),
        after.jobs@[j].pending == before.jobs@[j].pending - 1,
        after.jobs@[j].next == before.jobs@[j].next,
        after.jobs@[j].renders == before.jobs@[j].renders,
        after.jobs@[j].computes == before.jobs@[j].computes,
        result is Ok ==> after.jobs@[j].error == before.jobs@[j].error,
        result is Err ==> after.jobs@[j].error == Some(result->Err_0),
        forall|k: int| 0 <= k < before.jobs@.len() && k != j ==> #[trigger] after.jobs@[k] == before.jobs@[k],
{
    lemma_found(before.issued@, id, 0, i);
    lemma_job_found(before.jobs@, before.issued@[i].owner, 0, j);
}

proof fn lemma_found(issued: Seq<Issued>, id: u64, from: int, i: int)
    requires
        0 <= from <= i < issued.len(),
        issued[i].id == id,
        forall|k: int| from <= k < i ==> (#[trigger] issued[k]).id != id,
    ensures
        engine::issued_at(issued, id, from) == i,
    decreases i - from,
{
    if from < i {
        lemma_found(issued, id, from + 1, i);
    }
}

proof fn lemma_job_found(jobs: Seq<Job>, id: u64, from: int, j: int)
    requires
        0 <= from <= j < jobs.len(),
        jobs[j].id == id,
        forall|k: int| from <= k < j ==> (#[trigger] jobs[k]).id != id,
    ensures
        engine::job_at(jobs, id, from) == j,
    decreases j - from,
{
    if from < j {
        lemma_job_found(jobs, id, from + 1, j);
    }
}

/// The job that goes is the first that is through with nothing outstanding, and none goes where there is no such
/// job.
pub proof fn lemma_goes(jobs: Seq<Job>, from: int, i: int)
    requires
        0 <= from <= i < jobs.len(),
    ensures
        from <= engine::gone_at(jobs, from) <= jobs.len(),
        i == engine::gone_at(jobs, from) ==> jobs[i].pending == 0 && jobs[i].is_through(),
        i < engine::gone_at(jobs, from) ==> jobs[i].pending != 0 || !jobs[i].is_through(),
    decreases jobs.len() - from,
{
    if !(jobs[from].pending == 0 && jobs[from].is_through()) {
        if from < i {
            lemma_goes(jobs, from + 1, i);
        } else if from + 1 < jobs.len() {
            lemma_goes(jobs, from + 1, from + 1);
        } else {
            assert(engine::gone_at(jobs, from + 1) == jobs.len());
        }
    }
}

/// The barriers of a job are in order exactly when each counts no more commands of its kind than came before it.
pub proof fn lemma_barriers(commands: Seq<Command>, k: int)
    requires
        engine::barriers_ok(commands),
        0 <= k < commands.len(),
    ensures
        commands[k].barriers.0 == 0xffff || commands[k].barriers.0 <= commands.take(k).filter(
            |c: Command| c.compute == false,
        ).len(),
        commands[k].barriers.1 == 0xffff || commands[k].barriers.1 <= commands.take(k).filter(
            |c: Command| c.compute == true,
        ).len(),
{
    lemma_kind_count(commands, k, false);
    lemma_kind_count(commands, k, true);
}

/// A barrier is known exactly when it is none or counts to something in the history.
pub proof fn lemma_known(history: Seq<Option<Stamp>>, barrier: u16)
    ensures
        engine::known(history, barrier) <==> barrier == 0xffff || barrier < history.len(),
{
}

} // verus!
