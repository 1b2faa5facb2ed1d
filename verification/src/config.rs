//! How many machines run at once, and how they are made.
use std::time::Duration;

use vstd::prelude::*;

use crate::executor::Executor;
use crate::machine::Spawner;
use crate::stream::InputStream;

verus! {

/// The duration of so many milliseconds.
pub uninterp spec fn duration_of_millis(millis: u64) -> Duration;

/// [`Duration::from_millis`]: the same number of milliseconds always makes the same duration.
pub assume_specification[ Duration::from_millis ](millis: u64) -> (duration: Duration)
    ensures
        duration == duration_of_millis(millis),
;

/// The numbers of a configuration.
#[verifier::ext_equal]
pub struct Limits {
    pub cycle_delay: Duration,
    pub initial_threads: usize,
    pub min_threads: usize,
    pub max_threads: usize,
}

impl Limits {
    /// The numbers of threads do not contradict each other.
    pub open spec fn coherent(self) -> bool {
        self.min_threads <= self.initial_threads <= self.max_threads
    }
}

/// A configuration.
#[derive(Debug)]
pub struct Config<S> {
    spawner: S,
    cycle_delay: Duration,
    initial_threads: usize,
    min_threads: usize,
    max_threads: usize,
}

impl<S: Clone> Clone for Config<S> {
    fn clone(&self) -> (copy: Self)
        ensures
            copy@ == self@,
            cloned(self.maker(), copy.maker()),
    {
        Config {
            spawner: self.spawner.clone(),
            cycle_delay: self.cycle_delay,
            initial_threads: self.initial_threads,
            min_threads: self.min_threads,
            max_threads: self.max_threads,
        }
    }
}

impl<S> View for Config<S> {
    type V = Limits;

    closed spec fn view(&self) -> Limits {
        Limits {
            cycle_delay: self.cycle_delay,
            initial_threads: self.initial_threads,
            min_threads: self.min_threads,
            max_threads: self.max_threads,
        }
    }
}

impl<S> Config<S> {
    /// What makes the machines.
    pub closed spec fn maker(&self) -> S {
        self.spawner
    }

    /// A configuration with one thread, which may grow to twice the number of threads that run at
    /// once on this machine; where that number is not known, the most is left at zero, and
    /// `max_threads` has to be called.
    pub fn new(spawner: S, parallelism: Option<usize>) -> (config: Self)
        requires
            parallelism matches Some(par) ==> par * 2 <= usize::MAX,
        ensures
            config.maker() == spawner,
            config@ == (Limits {
                cycle_delay: duration_of_millis(10),
                initial_threads: 1,
                min_threads: 1,
                max_threads: match parallelism {
                    Some(par) => if par == 0 { 1 } else { (par * 2) as usize },
                    None => 0,
                },
            }),
    {
        let min_threads: usize = 1;
        let max_threads: usize = match parallelism {
            Some(par) => if par * 2 < min_threads {
                min_threads
            } else {
                par * 2
            },
            None => 0,
        };
        Config {
            spawner,
            cycle_delay: Duration::from_millis(10),
            min_threads,
            initial_threads: min_threads,
            max_threads,
        }
    }

    /// Sets how many threads there are at least.
    pub fn min_threads(self, min_threads: usize) -> (config: Self)
        requires
            min_threads >= 1,
        ensures
            config@ == (Limits { min_threads, ..self@ }),
            config.maker() == self.maker(),
    {
        Config { min_threads, ..self }
    }

    /// Sets how many threads there are at most.
    pub fn max_threads(self, max_threads: usize) -> (config: Self)
        ensures
            config@ == (Limits { max_threads, ..self@ }),
            config.maker() == self.maker(),
    {
        Config { max_threads, ..self }
    }

    /// Sets how many threads there are at the start.
    pub fn initial_threads(self, initial_threads: usize) -> (config: Self)
        ensures
            config@ == (Limits { initial_threads, ..self@ }),
            config.maker() == self.maker(),
    {
        Config { initial_threads, ..self }
    }

    /// Sets how long to wait after each cycle for threads that are done.
    pub fn cycle_delay(self, cycle_delay: Duration) -> (config: Self)
        ensures
            config@ == (Limits { cycle_delay, ..self@ }),
            config.maker() == self.maker(),
    {
        Config { cycle_delay, ..self }
    }

    /// Whether the numbers of threads do not contradict each other.
    pub fn is_coherent(&self) -> (coherent: bool)
        ensures
            coherent == self@.coherent(),
    {
        self.min_threads <= self.initial_threads && self.initial_threads <= self.max_threads
    }

    /// How long to wait after each cycle.
    pub(crate) fn delay(&self) -> (delay: Duration)
        ensures
            delay == self@.cycle_delay,
    {
        self.cycle_delay
    }

    /// How many threads there are at the start.
    pub(crate) fn initial(&self) -> (n: usize)
        ensures
            n == self@.initial_threads,
    {
        self.initial_threads
    }

    /// How many threads there are at least.
    pub(crate) fn min(&self) -> (n: usize)
        ensures
            n == self@.min_threads,
    {
        self.min_threads
    }

    /// How many threads there are at most.
    pub(crate) fn max(&self) -> (n: usize)
        ensures
            n == self@.max_threads,
    {
        self.max_threads
    }

    /// Makes a machine.
    pub(crate) fn make(&mut self, stream: &mut InputStream) -> (machine: S::Machine) where
        S: Spawner,

        ensures
            final(self)@ == old(self)@,
            old(self).maker().may_spawn(
                old(stream)@,
                &final(self).maker(),
                &machine,
                final(stream)@,
            ),
    {
        self.spawner.spawn(stream)
    }

    /// Sets up a run on the given input: the main machine is made first, and no thread is started
    /// yet.
    pub fn run(self, data: &[u8]) -> (executor: Executor<S, S::Machine>) where S: Spawner
        requires
            self@.coherent(),
        ensures
            executor.wf(),
            executor.limits() == self@,
            executor.threads() == Set::<u64>::empty(),
            executor.started() == 0,
            self.maker().may_spawn(
                data@,
                &executor.maker(),
                &executor.main_machine(),
                executor.left(),
            ),
    {
        let mut config = self;
        let mut stream = InputStream::new(data);
        let main = config.make(&mut stream);
        Executor::new(config, main, stream)
    }
}

} // verus!
