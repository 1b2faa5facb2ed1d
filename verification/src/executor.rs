//! Which threads a run starts, and when.
//!
//! Starting threads, waiting for their messages and joining them is left to whoever runs an
//! [`Executor`]; the executor decides, and gives each thread a number.
use std::collections::BTreeSet;
use std::time::Duration;

use vstd::prelude::*;

use crate::config::{Config, Limits};
use crate::machine::{Job, Machine, Spawner};
use crate::stream::InputStream;

verus! {

/// How far a run is.
#[derive(Debug, Clone, Copy, PartialEq, Eq, Structural)]
pub enum Phase {
    /// The first threads are to be started.
    Start,
    /// The next opcode is to be read.
    Cycle,
    /// Messages are to be waited for.
    Wait,
    /// The threads are to be joined, and nothing else is left to do.
    Over,
}

/// A run: its configuration, its main machine, its input, and the threads that are running.
#[derive(Debug)]
pub struct Executor<S, M> {
    config: Config<S>,
    main: M,
    stream: InputStream,
    threads: BTreeSet<u64>,
    next_id: u64,
}

impl<S, M> Executor<S, M> {
    /// The numbers of the configuration.
    pub closed spec fn limits(&self) -> Limits {
        self.config@
    }

    /// What makes the machines.
    pub closed spec fn maker(&self) -> S {
        self.config.maker()
    }

    /// The threads that are running.
    pub closed spec fn threads(&self) -> Set<u64> {
        self.threads@
    }

    /// How many threads were started so far. The next one goes by this number.
    pub closed spec fn started(&self) -> u64 {
        self.next_id
    }

    /// The input that is left.
    pub closed spec fn left(&self) -> Seq<u8> {
        self.stream@
    }

    /// The main machine.
    pub closed spec fn main_machine(&self) -> M {
        self.main
    }

    /// There are never more threads than the configuration allows, and each goes by a number that
    /// was given out.
    pub open spec fn wf(&self) -> bool {
        &&& self.limits().coherent()
        &&& self.threads().finite()
        &&& self.threads().len() <= self.limits().max_threads
        &&& forall|id: u64| #[trigger] self.threads().contains(id) ==> id < self.started()
    }

    /// There are as many threads as there have to be. This holds from the start of the run until
    /// its end.
    pub open spec fn manned(&self) -> bool {
        self.threads().len() >= self.limits().min_threads
    }

    /// Sets up a run with no threads.
    pub fn new(config: Config<S>, main: M, stream: InputStream) -> (executor: Self)
        requires
            config@.coherent(),
        ensures
            executor.wf(),
            executor.limits() == config@,
            executor.maker() == config.maker(),
            executor.main_machine() == main,
            executor.left() == stream@,
            executor.threads() == Set::<u64>::empty(),
            executor.started() == 0,
    {
        Executor { config, main, stream, threads: BTreeSet::new(), next_id: 0 }
    }

    /// How long to wait for messages after each cycle.
    pub fn cycle_delay(&self) -> (delay: Duration)
        ensures
            delay == self.limits().cycle_delay,
    {
        self.config.delay()
    }

    /// The executor before and after an opcode is asked for: the next byte of the input, if there
    /// is one.
    pub open spec fn gave_opcode(&self, opcode: Option<u8>, after: &Self) -> bool {
        &&& match opcode {
            Some(b) => {
                &&& self.left().len() > 0
                &&& b == self.left()[0]
                &&& after.left() == self.left().skip(1)
            },
            None => {
                &&& self.left().len() == 0
                &&& after.left() == self.left()
            },
        }
        &&& after.threads() == self.threads()
        &&& after.started() == self.started()
        &&& after.limits() == self.limits()
        &&& after.main_machine() == self.main_machine()
        &&& after.maker() == self.maker()
    }

    /// The executor before and after the end of the run: no thread is left.
    pub open spec fn ended(&self, after: &Self) -> bool {
        &&& after.threads() == Set::<u64>::empty()
        &&& after.limits() == self.limits()
        &&& after.left() == self.left()
        &&& after.main_machine() == self.main_machine()
        &&& after.maker() == self.maker()
        &&& after.started() == self.started()
    }

    /// The next opcode of the run, if the input is not at its end.
    pub fn next_opcode(&mut self) -> (opcode: Option<u8>)
        ensures
            old(self).gave_opcode(opcode, final(self)),
            old(self).wf() ==> final(self).wf(),
            old(self).manned() ==> final(self).manned(),
    {
        self.stream.read_u8()
    }

    /// Whether there are numbers enough to start the run.
    pub fn can_init_run(&self) -> (can: bool)
        ensures
            can <==> self.started() + self.limits().initial_threads <= u64::MAX,
    {
        self.config.initial() as u64 <= u64::MAX - self.next_id
    }

    /// Whether there is a number for one more thread, as a cycle may ask for.
    pub fn can_cycle(&self) -> (can: bool)
        ensures
            can <==> self.started() < u64::MAX,
    {
        self.next_id < u64::MAX
    }

    /// Whether there are numbers enough for as many threads as there have to be.
    pub fn can_wait_messages(&self) -> (can: bool)
        ensures
            can <==> self.started() + self.limits().min_threads <= u64::MAX,
    {
        self.config.min() as u64 <= u64::MAX - self.next_id
    }

    /// Forgets the threads that are done.
    fn forget(&mut self, done: &[u64])
        requires
            old(self).wf(),
        ensures
            final(self).wf(),
            final(self).threads() == old(self).threads().difference(done@.to_set()),
            final(self).limits() == old(self).limits(),
            final(self).left() == old(self).left(),
            final(self).main_machine() == old(self).main_machine(),
            final(self).maker() == old(self).maker(),
            final(self).started() == old(self).started(),
    {
        let mut i: usize = 0;
        while i < done.len()
            invariant
                i <= done.len(),
                self.wf(),
                self.threads() == old(self).threads().difference(done@.take(i as int).to_set()),
                self.limits() == old(self).limits(),
                self.left() == old(self).left(),
                self.main_machine() == old(self).main_machine(),
                self.maker() == old(self).maker(),
                self.started() == old(self).started(),
            decreases done.len() - i,
        {
            let ghost before = self.threads();
            self.threads.remove(&done[i]);
            proof {
                let id = done@[i as int];
                assert(done@.take(i + 1) =~= done@.take(i as int).push(id));
                assert(done@.take(i + 1).to_set() =~= done@.take(i as int).to_set().insert(id)) by {
                    broadcast use vstd::seq_lib::group_seq_properties;
                }
                assert(self.threads() =~= before.remove(id));
                assert(self.threads() =~= old(self).threads().difference(
                    done@.take(i + 1).to_set(),
                ));
            }
            i = i + 1;
        }
        assert(done@.take(done@.len() as int) =~= done@);
    }

    /// Forgets all threads: the run is over once they are joined.
    pub fn exit_run(&mut self)
        requires
            old(self).wf(),
        ensures
            final(self).wf(),
            old(self).ended(final(self)),
    {
        self.threads = BTreeSet::new();
    }
}

/// The machines of the jobs are made one after the other, each on what the one before it left of
/// the input; each thread gets the input that is left when its machine is made.
pub open spec fn made<S: Spawner>(
    jobs: Seq<Job<S::Machine>>,
    maker: S,
    left: Seq<u8>,
    maker_after: S,
    left_after: Seq<u8>,
) -> bool
    decreases jobs.len(),
{
    if jobs.len() == 0 {
        maker_after == maker && left_after == left
    } else {
        exists|m: S, l: Seq<u8>|
            {
                &&& made(jobs.drop_last(), maker, left, m, l)
                &&& #[trigger] m.may_spawn(l, &maker_after, &jobs.last().machine, left_after)
                &&& jobs.last().stream@ == left_after
            }
    }
}

/// One more machine is made after the others.
proof fn lemma_one_more_made<S: Spawner>(
    jobs: Seq<Job<S::Machine>>,
    job: Job<S::Machine>,
    before: (S, Seq<u8>),
    between: (S, Seq<u8>),
    after: (S, Seq<u8>),
)
    requires
        made(jobs, before.0, before.1, between.0, between.1),
        between.0.may_spawn(between.1, &after.0, &job.machine, after.1),
        job.stream@ == after.1,
    ensures
        made(jobs.push(job), before.0, before.1, after.0, after.1),
{
    assert(jobs.push(job).drop_last() =~= jobs);
    assert(between.0.may_spawn(between.1, &after.0, &jobs.push(job).last().machine, after.1));
}

impl<S: Spawner> Executor<S, S::Machine> {
    /// The executor before and after the jobs of new threads are made: each thread gets the next
    /// number.
    pub open spec fn spawned(&self, jobs: Seq<Job<S::Machine>>, after: &Self) -> bool {
        &&& after.limits() == self.limits()
        &&& after.main_machine() == self.main_machine()
        &&& after.started() == self.started() + jobs.len()
        &&& forall|i: int| 0 <= i < jobs.len() ==> (#[trigger] jobs[i]).id == self.started() + i
        &&& after.threads().len() == self.threads().len() + jobs.len()
        &&& forall|id: u64| #[trigger]
            after.threads().contains(id) <==> self.threads().contains(id) || self.started() <= id
                < after.started()
        &&& made(jobs, self.maker(), self.left(), after.maker(), after.left())
    }

    /// The executor before and after the start of the run: there are as many jobs as threads are
    /// missing of those that there should be at the start.
    pub open spec fn began(&self, jobs: Seq<Job<S::Machine>>, after: &Self) -> bool {
        &&& self.spawned(jobs, after)
        &&& jobs.len() == if self.threads().len() < self.limits().initial_threads {
            self.limits().initial_threads - self.threads().len()
        } else {
            0
        }
    }

    /// The executor before and after threads sent word that they are done: they are forgotten, and
    /// there are as many jobs as threads are then missing; without word nothing happens.
    pub open spec fn heard(
        &self,
        done: Seq<u64>,
        jobs: Seq<Job<S::Machine>>,
        after: &Self,
    ) -> bool {
        let rest = self.threads().difference(done.to_set()).len();
        &&& after.limits() == self.limits()
        &&& after.main_machine() == self.main_machine()
        &&& after.started() == self.started() + jobs.len()
        &&& forall|i: int| 0 <= i < jobs.len() ==> (#[trigger] jobs[i]).id == self.started() + i
        &&& made(jobs, self.maker(), self.left(), after.maker(), after.left())
        &&& forall|id: u64| #[trigger]
            after.threads().contains(id) <==> {
                ||| self.threads().contains(id) && !done.contains(id)
                ||| self.started() <= id < after.started()
            }
        &&& jobs.len() == if done.len() > 0 && rest < self.limits().min_threads {
            self.limits().min_threads - rest
        } else {
            0
        }
    }

    /// The executor before and after a cycle. An even opcode makes a job, unless there are as many
    /// threads as there may be; an odd one lets the main machine do a cycle with the opcode that
    /// follows, if there is one.
    pub open spec fn cycled(
        &self,
        opcode: u8,
        job: Option<Job<S::Machine>>,
        after: &Self,
    ) -> bool {
        match job {
            Some(job) => {
                &&& opcode % 2 == 0
                &&& self.threads().len() < self.limits().max_threads
                &&& self.spawned(seq![job], after)
            },
            None => {
                &&& opcode % 2 == 0 ==> {
                    &&& self.threads().len() >= self.limits().max_threads
                    &&& *after == *self
                }
                &&& opcode % 2 == 1 ==> {
                    &&& self.left().len() == 0 ==> {
                        &&& after.left() == self.left()
                        &&& after.main_machine() == self.main_machine()
                    }
                    &&& self.left().len() > 0 ==> self.main_machine().may_cycle(
                        self.left()[0],
                        self.left().skip(1),
                        &after.main_machine(),
                        after.left(),
                    )
                    &&& after.limits() == self.limits()
                    &&& after.maker() == self.maker()
                    &&& after.threads() == self.threads()
                    &&& after.started() == self.started()
                }
            },
        }
    }

    /// The run may go on: there are numbers enough, and every thread that is done is known but for
    /// the first.
    pub open spec fn may_run(&self, phase: Phase, done: Seq<u64>) -> bool {
        &&& self.wf()
        &&& match phase {
            Phase::Start => self.started() + self.limits().initial_threads <= u64::MAX,
            Phase::Cycle => self.left().len() > 0 ==> self.started() < u64::MAX,
            Phase::Wait => {
                &&& done.no_duplicates()
                &&& forall|i: int|
                    1 <= i < done.len() ==> self.threads().contains(#[trigger] done[i])
                &&& self.started() + self.limits().min_threads <= u64::MAX
            },
            Phase::Over => true,
        }
    }

    /// One step of the run: it starts its first threads; then cycles and waits for messages in
    /// turn, as long as there is an opcode; then it is over.
    pub open spec fn ran(
        &self,
        phase: Phase,
        done: Seq<u64>,
        next: Phase,
        jobs: Seq<Job<S::Machine>>,
        after: &Self,
    ) -> bool {
        match phase {
            Phase::Start => next is Cycle && self.began(jobs, after),
            Phase::Cycle => if self.left().len() > 0 {
                &&& next is Wait
                &&& jobs.len() <= 1
                &&& exists|between: Self| #[trigger]
                    self.gave_opcode(Some(self.left()[0]), &between) && between.cycled(
                        self.left()[0],
                        if jobs.len() == 1 {
                            Some(jobs[0])
                        } else {
                            None
                        },
                        after,
                    )
            } else {
                &&& next is Over
                &&& jobs.len() == 0
                &&& self.ended(after)
            },
            Phase::Wait => next is Cycle && self.heard(done, jobs, after),
            Phase::Over => next is Over && jobs.len() == 0 && *after == *self,
        }
    }

    /// Makes the job of a new thread: a machine of its own, and the input that is left.
    fn spawn(&mut self) -> (job: Job<S::Machine>)
        requires
            old(self).wf(),
            old(self).threads().len() < old(self).limits().max_threads,
            old(self).started() < u64::MAX,
        ensures
            final(self).wf(),
            old(self).spawned(seq![job], final(self)),
            job.stream@ == final(self).left(),
            old(self).maker().may_spawn(
                old(self).left(),
                &final(self).maker(),
                &job.machine,
                final(self).left(),
            ),
    {
        let machine = self.config.make(&mut self.stream);
        let stream = self.stream.clone();
        let id: u64 = self.next_id;
        self.threads.insert(id);
        self.next_id = id + 1;
        let job = Job { id, machine, stream };
        proof {
            assert(!old(self).threads().contains(id));
            assert(self.threads() =~= old(self).threads().insert(id));
            lemma_one_more_made(
                Seq::empty(),
                job,
                (old(self).maker(), old(self).left()),
                (old(self).maker(), old(self).left()),
                (self.maker(), self.left()),
            );
            assert(Seq::empty().push(job) =~= seq![job]);
        }
        job
    }

    /// Makes the jobs of new threads until there are `count` threads.
    fn fill(&mut self, count: usize) -> (jobs: Vec<Job<S::Machine>>)
        requires
            old(self).wf(),
            count <= old(self).limits().max_threads,
            old(self).threads().len() < count ==> old(self).started() + count
                - old(self).threads().len() <= u64::MAX,
        ensures
            final(self).wf(),
            old(self).spawned(jobs@, final(self)),
            jobs@.len() == if old(self).threads().len() < count {
                count - old(self).threads().len()
            } else {
                0
            },
    {
        let mut jobs: Vec<Job<S::Machine>> = Vec::new();
        while self.threads.len() < count
            invariant
                self.wf(),
                old(self).spawned(jobs@, self),
                count <= self.limits().max_threads,
                jobs@.len() == 0 || self.threads().len() <= count,
                old(self).threads().len() < count ==> old(self).started() + count
                    - old(self).threads().len() <= u64::MAX,
            decreases count - self.threads().len(),
        {
            let ghost before = *self;
            let ghost some = jobs@;
            let job = self.spawn();
            jobs.push(job);
            proof {
                assert(seq![job][0] == job);
                lemma_one_more_made(
                    some,
                    job,
                    (old(self).maker(), old(self).left()),
                    (before.maker(), before.left()),
                    (self.maker(), self.left()),
                );
            }
        }
        jobs
    }

    /// At the start of the run: the jobs of as many threads as there should be at the start.
    pub fn init_run(&mut self) -> (jobs: Vec<Job<S::Machine>>)
        requires
            old(self).wf(),
            old(self).started() + old(self).limits().initial_threads <= u64::MAX,
        ensures
            final(self).wf(),
            final(self).manned(),
            old(self).began(jobs@, final(self)),
    {
        self.fill(self.config.initial())
    }

    /// After threads are done: the jobs of as many threads as are missing.
    fn ensure_min_threads(&mut self) -> (jobs: Vec<Job<S::Machine>>)
        requires
            old(self).wf(),
            old(self).started() + old(self).limits().min_threads <= u64::MAX,
        ensures
            final(self).wf(),
            final(self).manned(),
            old(self).spawned(jobs@, final(self)),
            jobs@.len() == if old(self).threads().len() < old(self).limits().min_threads {
                old(self).limits().min_threads - old(self).threads().len()
            } else {
                0
            },
    {
        self.fill(self.config.min())
    }

    /// Forgets the threads that sent word that they are done; if there are any, returns the jobs of
    /// as many threads as are then missing. Each thread but the first must be known.
    pub fn wait_messages(&mut self, done: &[u64]) -> (jobs: Vec<Job<S::Machine>>)
        requires
            old(self).wf(),
            done@.no_duplicates(),
            forall|i: int|
                1 <= i < done@.len() ==> old(self).threads().contains(#[trigger] done@[i]),
            old(self).started() + old(self).limits().min_threads <= u64::MAX,
        ensures
            final(self).wf(),
            old(self).manned() || done@.len() > 0 ==> final(self).manned(),
            old(self).heard(done@, jobs@, final(self)),
    {
        if done.len() == 0 {
            return Vec::new();
        }
        self.forget(done);
        self.ensure_min_threads()
    }

    /// One cycle of the run. An even opcode asks for one more thread, which is granted as long as
    /// there are fewer than there may be; an odd one lets the main machine do a cycle with the
    /// opcode that follows.
    pub fn cycle(&mut self, opcode: u8) -> (job: Option<Job<S::Machine>>)
        requires
            old(self).wf(),
            old(self).started() < u64::MAX,
        ensures
            final(self).wf(),
            old(self).manned() ==> final(self).manned(),
            old(self).cycled(opcode, job, final(self)),
            opcode % 2 == 0 ==> (job is Some <==> old(self).threads().len() < old(
                self,
            ).limits().max_threads),
            opcode % 2 == 1 ==> job is None,
    {
        if opcode % 2 == 0 {
            if self.threads.len() < self.config.max() {
                Some(self.spawn())
            } else {
                None
            }
        } else {
            if let Some(opcode) = self.stream.read_u8() {
                self.main.cycle(opcode, &mut self.stream);
            }
            None
        }
    }

    /// Whether there are numbers enough for the threads that this phase may start.
    pub fn can_run(&self, phase: Phase) -> (can: bool)
        ensures
            can <==> match phase {
                Phase::Start => self.started() + self.limits().initial_threads <= u64::MAX,
                Phase::Cycle => self.started() < u64::MAX,
                Phase::Wait => self.started() + self.limits().min_threads <= u64::MAX,
                Phase::Over => true,
            },
    {
        match phase {
            Phase::Start => self.can_init_run(),
            Phase::Cycle => self.can_cycle(),
            Phase::Wait => self.can_wait_messages(),
            Phase::Over => true,
        }
    }

    /// Makes one step of the run, and returns the next phase and the jobs of the threads to start.
    /// Which threads sent word that they are done matters only after a cycle.
    pub fn run(&mut self, phase: Phase, done: &[u64]) -> (next: (Phase, Vec<Job<S::Machine>>))
        requires
            old(self).may_run(phase, done@),
        ensures
            final(self).wf(),
            phase is Start ==> final(self).manned(),
            !(next.0 is Over) && old(self).manned() ==> final(self).manned(),
            old(self).ran(phase, done@, next.0, next.1@, final(self)),
    {
        match phase {
            Phase::Start => {
                let jobs = self.init_run();
                (Phase::Cycle, jobs)
            },
            Phase::Cycle => match self.next_opcode() {
                Some(opcode) => {
                    let ghost between = *self;
                    assert(old(self).gave_opcode(Some(opcode), &between));
                    let mut jobs: Vec<Job<S::Machine>> = Vec::new();
                    if let Some(job) = self.cycle(opcode) {
                        jobs.push(job);
                    }
                    (Phase::Wait, jobs)
                },
                None => {
                    self.exit_run();
                    (Phase::Over, Vec::new())
                },
            },
            Phase::Wait => {
                let jobs = self.wait_messages(done);
                (Phase::Cycle, jobs)
            },
            Phase::Over => (Phase::Over, Vec::new()),
        }
    }
}

/// A course of a run: the executors, the phases, the threads that sent word and the jobs, step by
/// step from the start.
pub open spec fn course<S: Spawner>(
    states: Seq<Executor<S, S::Machine>>,
    phases: Seq<Phase>,
    done: Seq<Seq<u64>>,
    jobs: Seq<Seq<Job<S::Machine>>>,
) -> bool {
    &&& states.len() == phases.len() == done.len() + 1 == jobs.len() + 1
    &&& phases[0] is Start
    &&& states[0].wf()
    &&& states[0].threads() == Set::<u64>::empty()
    &&& states[0].started() == 0
    &&& forall|i: int|
        0 <= i < done.len() ==> {
            &&& (#[trigger] states[i]).may_run(phases[i], done[i])
            &&& states[i].ran(phases[i], done[i], phases[i + 1], jobs[i], &states[i + 1])
        }
}

/// How many jobs there are in all.
pub open spec fn total<J>(jobs: Seq<Seq<J>>) -> nat
    decreases jobs.len(),
{
    if jobs.len() == 0 {
        0
    } else {
        total(jobs.drop_last()) + jobs.last().len()
    }
}

/// One step of a run keeps the executor well-formed, and manned unless the run is over.
proof fn lemma_ran<S: Spawner>(
    before: Executor<S, S::Machine>,
    phase: Phase,
    done: Seq<u64>,
    next: Phase,
    jobs: Seq<Job<S::Machine>>,
    after: Executor<S, S::Machine>,
)
    requires
        before.may_run(phase, done),
        before.ran(phase, done, next, jobs, &after),
    ensures
        after.wf(),
        after.limits() == before.limits(),
        after.started() == before.started() + jobs.len(),
        phase is Start ==> after.manned(),
        !(next is Over) && before.manned() ==> after.manned(),
{
    match phase {
        Phase::Start => {
            lemma_spawned_finite(before, jobs, after);
        },
        Phase::Cycle => {
            if before.left().len() > 0 {
                let between = choose|between: Executor<S, S::Machine>| #[trigger]
                    before.gave_opcode(Some(before.left()[0]), &between) && between.cycled(
                        before.left()[0],
                        if jobs.len() == 1 {
                            Some(jobs[0])
                        } else {
                            None
                        },
                        &after,
                    );
                assert(between.wf());
                if jobs.len() == 1 {
                    assert(jobs =~= seq![jobs[0]]);
                    lemma_spawned_finite(between, jobs, after);
                }
            }
        },
        Phase::Wait => {
            lemma_heard(before, done, jobs, after);
        },
        Phase::Over => {},
    }
}

/// The numbers of the threads that were started are finitely many, and so are all threads.
proof fn lemma_spawned_finite<S: Spawner>(
    before: Executor<S, S::Machine>,
    jobs: Seq<Job<S::Machine>>,
    after: Executor<S, S::Machine>,
)
    requires
        before.wf(),
        before.spawned(jobs, &after),
    ensures
        after.threads().finite(),
{
    let new = Set::new(|id: u64| before.started() <= id < after.started());
    lemma_numbers(before.started(), after.started());
    assert(after.threads() =~= before.threads().union(new));
}

/// The numbers of new threads are as many as the threads.
pub proof fn lemma_numbers(from: u64, to: u64)
    requires
        from <= to,
    ensures
        Set::new(|id: u64| from <= id < to).finite(),
        Set::new(|id: u64| from <= id < to).len() == to - from,
    decreases to - from,
{
    let numbers = Set::new(|id: u64| from <= id < to);
    if from == to {
        assert(numbers =~= Set::empty());
    } else {
        let last = (to - 1) as u64;
        lemma_numbers(from, last);
        assert(numbers =~= Set::new(|id: u64| from <= id < last).insert(last));
    }
}

/// After word from threads there are as many threads as the rest and the new ones.
proof fn lemma_heard<S: Spawner>(
    before: Executor<S, S::Machine>,
    done: Seq<u64>,
    jobs: Seq<Job<S::Machine>>,
    after: Executor<S, S::Machine>,
)
    requires
        before.wf(),
        before.heard(done, jobs, &after),
    ensures
        after.wf(),
        before.manned() || done.len() > 0 ==> after.manned(),
{
    let rest = before.threads().difference(done.to_set());
    let new = Set::new(|id: u64| before.started() <= id < after.started());
    lemma_numbers(before.started(), after.started());
    vstd::set_lib::lemma_len_difference(before.threads(), done.to_set());
    assert(after.threads() =~= rest.union(new)) by {
        assert forall|id: u64| after.threads().contains(id) <==> rest.union(new).contains(id) by {
            assert(done.to_set().contains(id) <==> done.contains(id));
        }
    }
    assert(rest.disjoint(new));
    vstd::set_lib::lemma_set_disjoint_lens(rest, new);
    if done.len() == 0 {
        assert(rest =~= before.threads());
    }
}

/// However a run goes, there are never more threads than there may be, and from the start until the
/// end never fewer than there have to be; a job was made for each thread that was started, and at
/// the end no thread is left.
pub proof fn law_run_stays_within_bounds<S: Spawner>(
    states: Seq<Executor<S, S::Machine>>,
    phases: Seq<Phase>,
    done: Seq<Seq<u64>>,
    jobs: Seq<Seq<Job<S::Machine>>>,
    k: nat,
)
    requires
        course(states, phases, done, jobs),
        k < states.len(),
    ensures
        states[k as int].wf(),
        states[k as int].limits() == states[0].limits(),
        phases[k as int] is Start <==> k == 0,
        phases[k as int] is Cycle || phases[k as int] is Wait ==> states[k as int].manned(),
        phases[k as int] is Over ==> states[k as int].threads() == Set::<u64>::empty(),
        states[k as int].started() == total(jobs.take(k as int)),
    decreases k,
{
    if k > 0 {
        let n = (k - 1) as nat;
        law_run_stays_within_bounds(states, phases, done, jobs, n);
        let i = n as int;
        assert(states[i].may_run(phases[i], done[i]));
        lemma_ran(states[i], phases[i], done[i], phases[i + 1], jobs[i], states[i + 1]);
        assert(jobs.take(k as int).drop_last() =~= jobs.take(i));
    }
}

/// A run whose input is used up when its first threads are made starts just these, and is then
/// over: no cycle is made.
pub proof fn law_run_without_opcodes<S: Spawner>(
    states: Seq<Executor<S, S::Machine>>,
    phases: Seq<Phase>,
    done: Seq<Seq<u64>>,
    jobs: Seq<Seq<Job<S::Machine>>>,
    k: nat,
)
    requires
        course(states, phases, done, jobs),
        1 <= k < states.len(),
        states[1].left().len() == 0,
    ensures
        total(jobs.take(k as int)) == states[0].limits().initial_threads,
        k == 1 ==> phases[k as int] is Cycle,
        k > 1 ==> phases[k as int] is Over,
        states[k as int].left().len() == 0,
        states[k as int].main_machine() == states[0].main_machine(),
    decreases k,
{
    let n = (k - 1) as nat;
    let i = n as int;
    assert(states[i].may_run(phases[i], done[i]));
    assert(jobs.take(k as int).drop_last() =~= jobs.take(i));
    if n == 0 {
        assert(total(jobs.take(0)) == 0);
        assert(jobs.take(1).last() == jobs[0]);
    } else {
        law_run_without_opcodes(states, phases, done, jobs, n);
    }
}

} // verus!
