use std::time::Duration;

use allockator::config::Config;
use allockator::executor::Phase;
use allockator::machine::{Job, Machine, Spawner};
use allockator::stream::InputStream;

#[derive(Debug, Clone)]
struct Counter {
    made: u32,
}

#[derive(Debug)]
struct Recorder {
    number: u32,
    opcodes: Vec<u8>,
}

impl Machine for Recorder {
    fn cycle(&mut self, opcode: u8, stream: &mut InputStream) {
        self.opcodes.push(opcode);
        if opcode >= 100 {
            stream.read_u8_zeroing();
        }
    }
}

impl Spawner for Counter {
    type Machine = Recorder;

    fn spawn(&mut self, stream: &mut InputStream) -> Recorder {
        self.made += 1;
        stream.read_u8_zeroing();
        Recorder { number: self.made, opcodes: Vec::new() }
    }
}

fn config() -> Config<Counter> {
    Config::new(Counter { made: 0 }, Some(4))
}

#[test]
fn a_new_config_has_one_thread_and_may_double() {
    assert!(config().is_coherent());
    assert!(config().initial_threads(8).is_coherent());
    assert!(!config().initial_threads(9).is_coherent());
    assert!(!Config::new((), None).is_coherent());
    assert!(Config::new((), None).max_threads(1).is_coherent());
    assert!(Config::new((), Some(0)).is_coherent());
    assert!(!Config::new((), Some(0)).initial_threads(2).is_coherent());
}

#[test]
fn limits_must_be_in_order() {
    assert!(!config().min_threads(2).is_coherent());
    assert!(config().min_threads(2).initial_threads(2).is_coherent());
    assert!(!config().max_threads(0).is_coherent());
    assert!(config().clone().is_coherent());
}

#[test]
fn the_delay_is_ten_milliseconds_unless_set() {
    let executor = config().run(&[]);
    assert_eq!(executor.cycle_delay(), Duration::from_millis(10));
    let executor = config().cycle_delay(Duration::from_secs(3)).run(&[]);
    assert_eq!(executor.cycle_delay(), Duration::from_secs(3));
}

#[test]
fn a_run_starts_as_many_threads_as_it_should() {
    let mut executor = config().initial_threads(2).max_threads(3).run(&[0, 1, 2, 3, 4, 5, 6]);
    assert!(executor.can_init_run());
    let jobs = executor.init_run();
    assert_eq!(jobs.len(), 2);
    assert_eq!((jobs[0].id, jobs[0].machine.number), (0, 2));
    assert_eq!((jobs[1].id, jobs[1].machine.number), (1, 3));
    assert!(executor.init_run().is_empty());
    // Each machine has read a byte, the main one first.
    assert_eq!(jobs[0].stream.clone().read_u8(), Some(2));
    assert_eq!(jobs[1].stream.clone().read_u8(), Some(3));
    assert_eq!(executor.next_opcode(), Some(3));
}

#[test]
fn an_even_opcode_asks_for_a_thread() {
    let mut executor = config().max_threads(2).run(&[0, 0, 0, 2, 4, 6]);
    assert_eq!(executor.init_run().len(), 1);
    assert_eq!(executor.cycle(2).unwrap().id, 1);
    assert!(executor.cycle(4).is_none());
    assert_eq!(executor.next_opcode(), Some(2));
}

#[test]
fn a_run_without_a_limit_goes_on() {
    let mut executor = config().max_threads(usize::MAX).run(&[0; 8]);
    assert!(executor.can_init_run());
    assert_eq!(executor.init_run().len(), 1);
    assert!(executor.can_cycle());
    assert_eq!(executor.cycle(0).unwrap().id, 1);
    assert!(executor.can_wait_messages());
    assert!(executor.wait_messages(&[0]).is_empty());
    let all = config().initial_threads(usize::MAX).max_threads(usize::MAX).run(&[]);
    assert!(all.can_init_run());
}

#[test]
fn an_odd_opcode_drives_the_main_machine() {
    let mut executor = config().run(&[0, 100, 1, 7, 3]);
    assert!(executor.cycle(1).is_none());
    assert!(format!("{:?}", executor).contains("opcodes: [100]"));
    assert_eq!(executor.next_opcode(), Some(7));
    assert!(executor.cycle(255).is_none());
    assert!(format!("{:?}", executor).contains("opcodes: [100, 3]"));
    assert_eq!(executor.next_opcode(), None);
    assert!(executor.cycle(1).is_none());
    assert!(format!("{:?}", executor).contains("opcodes: [100, 3]"));
}

#[test]
fn threads_that_are_done_are_replaced() {
    let mut executor = config().min_threads(2).initial_threads(3).run(&[0; 20]);
    assert_eq!(executor.init_run().len(), 3);
    assert!(executor.wait_messages(&[]).is_empty());
    assert!(executor.wait_messages(&[1]).is_empty());
    let jobs = executor.wait_messages(&[0, 2]);
    assert_eq!(jobs.iter().map(|job| job.id).collect::<Vec<_>>(), vec![3, 4]);
    assert_eq!(executor.wait_messages(&[3]).len(), 1);
    executor.exit_run();
    assert!(executor.wait_messages(&[]).is_empty());
    assert_eq!(executor.wait_messages(&[3]).len(), 2);
}

#[test]
fn an_unknown_first_message_is_ignored() {
    let mut executor = config().run(&[]);
    assert_eq!(executor.init_run().len(), 1);
    assert!(executor.wait_messages(&[77]).is_empty());
    assert!(format!("{:?}", executor).contains("threads: {0}"));
}

#[test]
fn a_job_runs_to_the_end_of_its_input() {
    let stream = InputStream::new(&[1, 100, 9, 2]);
    let mut job = Job { id: 0, machine: Recorder { number: 0, opcodes: Vec::new() }, stream };
    while job.step() {}
    assert_eq!(job.machine.opcodes, vec![1, 100, 2]);
    assert!(!job.step());
    assert_eq!(job.machine.opcodes, vec![1, 100, 2]);
}

#[test]
fn a_run_without_input_starts_its_threads_and_ends() {
    let mut executor = config().initial_threads(3).run(&[]);
    assert!(executor.can_run(Phase::Start));
    let (phase, jobs) = executor.run(Phase::Start, &[]);
    assert_eq!(phase, Phase::Cycle);
    // With the main machine these are four.
    assert_eq!(jobs.iter().map(|job| job.machine.number).collect::<Vec<_>>(), vec![2, 3, 4]);
    assert!(executor.can_run(phase));
    let (phase, jobs) = executor.run(phase, &[]);
    assert_eq!(phase, Phase::Over);
    assert!(jobs.is_empty());
    assert!(format!("{:?}", executor).contains("opcodes: []"));
    assert!(format!("{:?}", executor).contains("threads: {}"));
    let (phase, jobs) = executor.run(phase, &[]);
    assert_eq!(phase, Phase::Over);
    assert!(jobs.is_empty());
}

#[test]
fn a_run_cycles_and_waits_in_turn() {
    // Two bytes are read when machines are made; then come an even and an odd opcode.
    let mut executor = config().run(&[0, 0, 2, 0, 3, 7]);
    let (phase, jobs) = executor.run(Phase::Start, &[]);
    assert_eq!(jobs.len(), 1);
    let (phase, jobs) = executor.run(phase, &[]);
    assert_eq!(phase, Phase::Wait);
    assert_eq!(jobs.len(), 1);
    let (phase, jobs) = executor.run(phase, &[1, 0]);
    assert_eq!(phase, Phase::Cycle);
    assert_eq!(jobs.iter().map(|job| job.id).collect::<Vec<_>>(), vec![2]);
    // The new machine has read the odd opcode, so that the next one is odd too.
    let (phase, jobs) = executor.run(phase, &[]);
    assert_eq!(phase, Phase::Wait);
    assert!(jobs.is_empty());
    let (phase, jobs) = executor.run(phase, &[]);
    assert_eq!(phase, Phase::Cycle);
    assert!(jobs.is_empty());
    let (phase, _) = executor.run(phase, &[]);
    assert_eq!(phase, Phase::Over);
}
