//! What each step of a run means for its threads, its machines and its input.
use vstd::prelude::*;

use crate::config::Limits;
use crate::executor::{course, made, Executor, Phase};
use crate::machine::{Job, Machine, Spawner};

verus! {

/// Limits are coherent if and only if there may be as many threads as there have to be, and the
/// number at the start lies between the two.
pub proof fn law_coherent_limits(limits: Limits)
    ensures
        limits.coherent() <==> {
            &&& limits.min_threads <= limits.max_threads
            &&& limits.initial_threads >= limits.min_threads
            &&& limits.initial_threads <= limits.max_threads
        },
{
}

/// One job is made of what the maker made on the input there was, and gets the input that is left.
pub proof fn law_one_job_is_made<S: Spawner>(
    job: Job<S::Machine>,
    maker: S,
    left: Seq<u8>,
    maker_after: S,
    left_after: Seq<u8>,
)
    requires
        made(seq![job], maker, left, maker_after, left_after),
    ensures
        maker.may_spawn(left, &maker_after, &job.machine, left_after),
        job.stream@ == left_after,
{
    let jobs = seq![job];
    let (m, l) = choose|m: S, l: Seq<u8>|
        {
            &&& made(jobs.drop_last(), maker, left, m, l)
            &&& #[trigger] m.may_spawn(l, &maker_after, &jobs.last().machine, left_after)
            &&& jobs.last().stream@ == left_after
        };
    assert(jobs.drop_last().len() == 0);
    assert(jobs.last() == job);
}

/// No machine is made for no job.
pub proof fn law_no_job_is_made<S: Spawner>(
    jobs: Seq<Job<S::Machine>>,
    maker: S,
    left: Seq<u8>,
    maker_after: S,
    left_after: Seq<u8>,
)
    requires
        jobs.len() == 0,
        made(jobs, maker, left, maker_after, left_after),
    ensures
        maker_after == maker,
        left_after == left,
{
}

/// The last of several jobs is made after the others, on what they left of the input.
pub proof fn law_jobs_are_made_in_turn<S: Spawner>(
    jobs: Seq<Job<S::Machine>>,
    maker: S,
    left: Seq<u8>,
    maker_after: S,
    left_after: Seq<u8>,
)
    requires
        jobs.len() > 0,
        made(jobs, maker, left, maker_after, left_after),
    ensures
        jobs.last().stream@ == left_after,
        exists|m: S, l: Seq<u8>|
            {
                &&& made(jobs.drop_last(), maker, left, m, l)
                &&& #[trigger] m.may_spawn(l, &maker_after, &jobs.last().machine, left_after)
            },
{
}

/// New threads get the numbers that follow those given out, one each, and are added to those that
/// run; the main machine and the limits stay.
pub proof fn law_new_threads_are_numbered<S: Spawner>(
    before: Executor<S, S::Machine>,
    jobs: Seq<Job<S::Machine>>,
    after: Executor<S, S::Machine>,
    i: int,
    id: u64,
)
    requires
        before.spawned(jobs, &after),
    ensures
        after.started() == before.started() + jobs.len(),
        after.threads().len() == before.threads().len() + jobs.len(),
        0 <= i < jobs.len() ==> jobs[i].id == before.started() + i,
        after.threads().contains(id) <==> before.threads().contains(id) || before.started() <= id
            < after.started(),
        after.limits() == before.limits(),
        after.main_machine() == before.main_machine(),
        made(jobs, before.maker(), before.left(), after.maker(), after.left()),
{
}

/// A run starts with just as many threads as it should start with.
pub proof fn law_run_starts_its_threads<S: Spawner>(
    before: Executor<S, S::Machine>,
    jobs: Seq<Job<S::Machine>>,
    after: Executor<S, S::Machine>,
)
    requires
        before.began(jobs, &after),
        before.threads() == Set::<u64>::empty(),
    ensures
        jobs.len() == before.limits().initial_threads,
        after.threads().len() == before.limits().initial_threads,
        before.spawned(jobs, &after),
{
}

/// An even opcode starts one thread if and only if fewer threads run than may; the thread gets the
/// next number, and its job a machine that is made on the input there is. Otherwise nothing
/// changes.
pub proof fn law_even_opcode_starts_a_thread<S: Spawner>(
    before: Executor<S, S::Machine>,
    opcode: u8,
    job: Option<Job<S::Machine>>,
    after: Executor<S, S::Machine>,
)
    requires
        before.wf(),
        before.cycled(opcode, job, &after),
        opcode % 2 == 0,
    ensures
        job is Some <==> before.threads().len() < before.limits().max_threads,
        job matches Some(job) ==> {
            &&& job.id == before.started()
            &&& after.started() == before.started() + 1
            &&& after.threads() == before.threads().insert(before.started())
            &&& after.main_machine() == before.main_machine()
            &&& after.limits() == before.limits()
            &&& job.stream@ == after.left()
            &&& before.maker().may_spawn(
                before.left(),
                &after.maker(),
                &job.machine,
                after.left(),
            )
        },
        job is None ==> after == before,
{
    if let Some(job) = job {
        assert(seq![job][0] == job);
        law_one_job_is_made(job, before.maker(), before.left(), after.maker(), after.left());
        assert(after.threads() =~= before.threads().insert(before.started()));
    }
}

/// An odd opcode starts no thread: it lets the main machine do a cycle with the opcode that
/// follows, and changes nothing if there is none.
pub proof fn law_odd_opcode_drives_the_main_machine<S: Spawner>(
    before: Executor<S, S::Machine>,
    opcode: u8,
    job: Option<Job<S::Machine>>,
    after: Executor<S, S::Machine>,
)
    requires
        before.cycled(opcode, job, &after),
        opcode % 2 == 1,
    ensures
        job is None,
        after.threads() == before.threads(),
        after.started() == before.started(),
        after.limits() == before.limits(),
        after.maker() == before.maker(),
        before.left().len() > 0 ==> before.main_machine().may_cycle(
            before.left()[0],
            before.left().skip(1),
            &after.main_machine(),
            after.left(),
        ),
        before.left().len() == 0 ==> after.main_machine() == before.main_machine()
            && after.left().len() == 0,
{
}

/// The threads that are done are gone; if any were, there are then at least as many threads as
/// there have to be, and no new one beyond that. Without word from any thread nothing changes.
pub proof fn law_done_threads_are_replaced<S: Spawner>(
    before: Executor<S, S::Machine>,
    done: Seq<u64>,
    jobs: Seq<Job<S::Machine>>,
    after: Executor<S, S::Machine>,
    i: int,
    id: u64,
)
    requires
        before.wf(),
        before.heard(done, jobs, &after),
    ensures
        done.contains(id) && id < before.started() ==> !after.threads().contains(id),
        before.threads().contains(id) && !done.contains(id) ==> after.threads().contains(id),
        after.threads().contains(id) && !before.threads().contains(id) ==> before.started() <= id
            < before.started() + jobs.len(),
        0 <= i < jobs.len() ==> jobs[i].id == before.started() + i && after.threads().contains(
            jobs[i].id,
        ),
        after.started() == before.started() + jobs.len(),
        done.len() > 0 ==> after.threads().len() >= before.limits().min_threads,
        jobs.len() > 0 ==> after.threads().len() == before.limits().min_threads,
        done.len() == 0 ==> {
            &&& jobs.len() == 0
            &&& after.threads() == before.threads()
            &&& after.left() == before.left()
            &&& after.maker() == before.maker()
        },
        after.limits() == before.limits(),
        after.main_machine() == before.main_machine(),
        made(jobs, before.maker(), before.left(), after.maker(), after.left()),
{
    let rest = before.threads().difference(done.to_set());
    let new = Set::new(|id: u64| before.started() <= id < after.started());
    crate::executor::lemma_numbers(before.started(), after.started());
    vstd::set_lib::lemma_len_difference(before.threads(), done.to_set());
    assert(after.threads() =~= rest.union(new)) by {
        assert forall|id: u64| after.threads().contains(id) <==> rest.union(new).contains(id) by {
            assert(done.to_set().contains(id) <==> done.contains(id));
        }
    }
    assert(rest.disjoint(new));
    vstd::set_lib::lemma_set_disjoint_lens(rest, new);
    if done.len() == 0 {
        assert(after.threads() =~= before.threads());
    }
}

/// An opcode is the next byte of the input, which is then one byte shorter; there is none at the
/// end of the input. Nothing else changes.
pub proof fn law_opcodes_are_the_input<S, M>(
    before: Executor<S, M>,
    opcode: Option<u8>,
    after: Executor<S, M>,
)
    requires
        before.gave_opcode(opcode, &after),
    ensures
        opcode matches Some(b) ==> before.left() == seq![b] + after.left(),
        opcode is None <==> before.left().len() == 0,
        opcode is None ==> after.left() == before.left(),
        after.threads() == before.threads(),
        after.started() == before.started(),
        after.limits() == before.limits(),
        after.main_machine() == before.main_machine(),
        after.maker() == before.maker(),
{
    if let Some(b) = opcode {
        assert(before.left() =~= seq![b] + after.left());
    }
}

/// At the end no thread is left, and nothing else changes.
pub proof fn law_no_thread_is_left<S, M>(before: Executor<S, M>, after: Executor<S, M>)
    requires
        before.ended(&after),
    ensures
        after.threads() == Set::<u64>::empty(),
        after.left() == before.left(),
        after.started() == before.started(),
        after.limits() == before.limits(),
        after.main_machine() == before.main_machine(),
        after.maker() == before.maker(),
{
}

/// A well-formed run has no more threads than it may have, and each goes by a number that was given
/// out.
pub proof fn law_threads_are_bounded<S, M>(executor: Executor<S, M>, id: u64)
    requires
        executor.wf(),
    ensures
        executor.threads().len() <= executor.limits().max_threads,
        executor.limits().min_threads <= executor.limits().max_threads,
        executor.threads().contains(id) ==> id < executor.started(),
        executor.manned() <==> executor.threads().len() >= executor.limits().min_threads,
{
}

/// A run may go on in every phase as long as there are numbers enough; word may come from any
/// threads that run, and first of all from any at all.
pub proof fn law_run_may_go_on<S: Spawner>(
    executor: Executor<S, S::Machine>,
    phase: Phase,
    done: Seq<u64>,
)
    requires
        executor.wf(),
        executor.started() + executor.limits().max_threads <= u64::MAX,
        executor.started() < u64::MAX,
        done.no_duplicates(),
        forall|i: int| 1 <= i < done.len() ==> executor.threads().contains(#[trigger] done[i]),
    ensures
        executor.may_run(phase, done),
{
}

/// In the course of a run, an even opcode makes one job if and only if fewer threads run than may,
/// and an odd one makes none; without an opcode the run is over.
pub proof fn law_opcodes_decide_on_jobs<S: Spawner>(
    states: Seq<Executor<S, S::Machine>>,
    phases: Seq<Phase>,
    done: Seq<Seq<u64>>,
    jobs: Seq<Seq<Job<S::Machine>>>,
    k: int,
)
    requires
        course(states, phases, done, jobs),
        0 <= k < done.len(),
        phases[k] is Cycle,
    ensures
        ({
            let before = states[k];
            let after = states[k + 1];
            &&& before.left().len() > 0 && before.left()[0] % 2 == 0 ==> {
                &&& jobs[k].len() <= 1
                &&& jobs[k].len() == 1 <==> before.threads().len() < before.limits().max_threads
                &&& jobs[k].len() == 1 ==> jobs[k][0].id == before.started()
                &&& after.threads().len() == before.threads().len() + jobs[k].len()
                &&& after.main_machine() == before.main_machine()
            }
            &&& before.left().len() > 0 && before.left()[0] % 2 == 1 ==> {
                &&& jobs[k].len() == 0
                &&& after.threads() == before.threads()
            }
            &&& before.left().len() > 0 ==> phases[k + 1] is Wait
            &&& before.left().len() == 0 ==> {
                &&& phases[k + 1] is Over
                &&& jobs[k].len() == 0
                &&& after.threads() == Set::<u64>::empty()
                &&& after.main_machine() == before.main_machine()
            }
        }),
{
    let before = states[k];
    let after = states[k + 1];
    assert(before.may_run(phases[k], done[k]));
    if before.left().len() > 0 {
        let job = if jobs[k].len() == 1 {
            Some(jobs[k][0])
        } else {
            None
        };
        let between = choose|between: Executor<S, S::Machine>| #[trigger]
            before.gave_opcode(Some(before.left()[0]), &between) && between.cycled(
                before.left()[0],
                job,
                &after,
            );
        assert(between.wf());
        if before.left()[0] % 2 == 0 {
            law_even_opcode_starts_a_thread(between, before.left()[0], job, after);
        } else {
            law_odd_opcode_drives_the_main_machine(between, before.left()[0], job, after);
        }
    }
}

/// In the course of a run, messages are waited for after each cycle, and after that comes the next
/// opcode; a run that is over stays so.
pub proof fn law_phases_follow_each_other<S: Spawner>(
    states: Seq<Executor<S, S::Machine>>,
    phases: Seq<Phase>,
    done: Seq<Seq<u64>>,
    jobs: Seq<Seq<Job<S::Machine>>>,
    k: int,
)
    requires
        course(states, phases, done, jobs),
        0 <= k < done.len(),
    ensures
        phases[k] is Start ==> {
            &&& phases[k + 1] is Cycle
            &&& states[k].began(jobs[k], &states[k + 1])
        },
        phases[k] is Wait ==> {
            &&& phases[k + 1] is Cycle
            &&& states[k].heard(done[k], jobs[k], &states[k + 1])
        },
        phases[k] is Over ==> {
            &&& phases[k + 1] is Over
            &&& jobs[k].len() == 0
            &&& states[k + 1] == states[k]
        },
{
    assert(states[k].may_run(phases[k], done[k]));
}

/// One step of a run. At the start its first threads are started. A cycle reads one opcode: an even
/// one starts one thread if and only if fewer run than may, with a machine that is made on the rest
/// of the input; an odd one lets the main machine do a cycle with the opcode after it, on the rest
/// behind that, if there is one. Then messages are waited for, and then comes the next cycle.
/// Without an opcode the run is over.
pub proof fn law_step_of_a_run<S: Spawner>(
    before: Executor<S, S::Machine>,
    phase: Phase,
    done: Seq<u64>,
    next: Phase,
    jobs: Seq<Job<S::Machine>>,
    after: Executor<S, S::Machine>,
)
    requires
        before.wf(),
        before.ran(phase, done, next, jobs, &after),
    ensures
        after.limits() == before.limits(),
        after.started() == before.started() + jobs.len(),
        phase is Start ==> {
            &&& next is Cycle
            &&& before.threads().len() <= before.limits().initial_threads ==> after.threads().len()
                == before.limits().initial_threads
            &&& after.threads().len() == before.threads().len() + jobs.len()
            &&& after.main_machine() == before.main_machine()
        },
        phase is Cycle && before.left().len() == 0 ==> {
            &&& next is Over
            &&& jobs.len() == 0
            &&& after.threads() == Set::<u64>::empty()
            &&& after.main_machine() == before.main_machine()
            &&& after.maker() == before.maker()
        },
        phase is Cycle && before.left().len() > 0 ==> next is Wait,
        phase is Cycle && before.left().len() > 0 && before.left()[0] % 2 == 0 ==> {
            &&& jobs.len() == if before.threads().len() < before.limits().max_threads {
                1nat
            } else {
                0nat
            }
            &&& jobs.len() == 1 ==> {
                &&& jobs[0].id == before.started()
                &&& jobs[0].stream@ == after.left()
                &&& after.threads() == before.threads().insert(before.started())
                &&& before.maker().may_spawn(
                    before.left().skip(1),
                    &after.maker(),
                    &jobs[0].machine,
                    after.left(),
                )
            }
            &&& jobs.len() == 0 ==> {
                &&& after.threads() == before.threads()
                &&& after.left() == before.left().skip(1)
                &&& after.maker() == before.maker()
            }
            &&& after.main_machine() == before.main_machine()
        },
        phase is Cycle && before.left().len() > 0 && before.left()[0] % 2 == 1 ==> {
            &&& jobs.len() == 0
            &&& after.threads() == before.threads()
            &&& after.maker() == before.maker()
            &&& before.left().len() > 1 ==> before.main_machine().may_cycle(
                before.left()[1],
                before.left().skip(2),
                &after.main_machine(),
                after.left(),
            )
            &&& before.left().len() == 1 ==> after.left().len() == 0 && after.main_machine()
                == before.main_machine()
        },
        phase is Wait ==> next is Cycle && before.heard(done, jobs, &after),
        phase is Over ==> next is Over && jobs.len() == 0 && after == before,
{
    if phase is Cycle && before.left().len() > 0 {
        let opcode = before.left()[0];
        let job = if jobs.len() == 1 {
            Some(jobs[0])
        } else {
            None
        };
        let between = choose|between: Executor<S, S::Machine>| #[trigger]
            before.gave_opcode(Some(before.left()[0]), &between) && between.cycled(
                before.left()[0],
                job,
                &after,
            );
        assert(between.wf());
        assert(between.left() == before.left().skip(1));
        if opcode % 2 == 0 {
            law_even_opcode_starts_a_thread(between, opcode, job, after);
        } else {
            law_odd_opcode_drives_the_main_machine(between, opcode, job, after);
            if before.left().len() > 1 {
                assert(between.left()[0] == before.left()[1]);
                assert(between.left().skip(1) =~= before.left().skip(2));
            }
        }
    }
}

} // verus!
