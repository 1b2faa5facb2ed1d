use allockator::list::List;
use allockator::protocol::{Access, Op, Outcome, Reply, Run, Sweep};
use allockator::shared::SharedLinks;

fn run(links: &SharedLinks, op: Op) -> Outcome {
    let mut op = op;
    loop {
        match op {
            Op::Done { outcome } => return outcome,
            _ => op = links.advance(op),
        }
    }
}

fn request(links: &SharedLinks) -> Option<usize> {
    match run(links, Op::alloc_slot()) {
        Outcome::Allocated(slot) => slot,
        other => panic!("{:?}", other),
    }
}

#[test]
fn an_undisturbed_request_takes_seven_accesses() {
    let links = SharedLinks::new(2);
    let mut op = Op::alloc_slot();
    let mut accesses = Vec::new();
    while let Some(access) = op.access(links.capacity()) {
        accesses.push(access);
        op = op.resume(links.capacity(), links.perform(access));
    }
    assert_eq!(
        accesses,
        vec![
            Access::AddDefer,
            Access::LoadHead { list: List::Free },
            Access::LoadNext { index: 0 },
            Access::ExchangeHead { list: List::Free, expected: 0, replacement: 1 },
            Access::HintDefers,
            Access::SwapGarbage { replacement: 2 },
            Access::SubDefer,
        ]
    );
    assert_eq!(op, Op::Done { outcome: Outcome::Allocated(Some(0)) });
}

#[test]
fn each_access_reaches_its_word() {
    let links = SharedLinks::new(2);
    let value = |access| match links.perform(access) {
        Reply::Value(value) => value,
        other => panic!("{:?}", other),
    };
    assert_eq!(value(Access::HintDefers), 0);
    assert_eq!(value(Access::LoadHead { list: List::Free }), 0);
    assert_eq!(value(Access::LoadHead { list: List::Garbage }), 2);
    assert_eq!(value(Access::LoadNext { index: 0 }), 1);
    assert_eq!(value(Access::LoadNext { index: 1 }), 2);
    assert_eq!(value(Access::AddDefer), 0);
    assert_eq!(value(Access::AddDefer), 1);
    assert_eq!(value(Access::SubDefer), 2);
    assert_eq!(value(Access::CountDefers), 1);
    assert_eq!(value(Access::SwapGarbage { replacement: 1 }), 2);
    assert_eq!(value(Access::LoadHead { list: List::Garbage }), 1);
    assert_eq!(value(Access::LoadHead { list: List::Free }), 0);
    assert_eq!(links.perform(Access::StoreNext { index: 1, link: 0 }), Reply::Stored);
    assert_eq!(value(Access::LoadNext { index: 1 }), 0);
    assert_eq!(value(Access::LoadNext { index: 0 }), 1);
    let exchange = Access::ExchangeHead { list: List::Free, expected: 0, replacement: 1 };
    assert_eq!(links.perform(exchange), Reply::Exchanged);
    assert_eq!(links.perform(exchange), Reply::Refused(1));
    assert_eq!(value(Access::LoadHead { list: List::Free }), 1);
    assert_eq!(value(Access::HintDefers), 1);
}

#[test]
fn shared_slots_are_handed_out_and_taken_back() {
    let links = SharedLinks::new(2);
    assert_eq!(request(&links), Some(0));
    assert_eq!(request(&links), Some(1));
    assert_eq!(request(&links), None);
    assert_eq!(run(&links, Op::dealloc(0)), Outcome::Deallocated);
    assert_eq!(request(&links), Some(0));
    assert_eq!(request(&links), None);
}

#[test]
fn shared_slots_wait_for_the_last_deferral() {
    let links = SharedLinks::new(3);
    assert_eq!(request(&links), Some(0));
    assert_eq!(request(&links), Some(1));
    assert_eq!(request(&links), Some(2));
    assert_eq!(run(&links, Op::try_flush_deallocs()), Outcome::Flushed(true));
    assert_eq!(run(&links, Op::defer_deallocs()), Outcome::Deferred);
    assert_eq!(run(&links, Op::try_flush_deallocs()), Outcome::Flushed(false));
    assert_eq!(run(&links, Op::dealloc(1)), Outcome::Deallocated);
    assert_eq!(run(&links, Op::dealloc(2)), Outcome::Deallocated);
    assert_eq!(run(&links, Op::try_flush_deallocs()), Outcome::Flushed(false));
    assert_eq!(request(&links), None);
    assert_eq!(run(&links, Op::release()), Outcome::Released);
    assert_eq!(request(&links), Some(2));
    assert_eq!(request(&links), Some(1));
    assert_eq!(request(&links), None);
}

#[test]
fn an_owner_can_flush_in_spite_of_a_deferral() {
    let links = SharedLinks::new(2);
    assert_eq!(request(&links), Some(0));
    assert_eq!(request(&links), Some(1));
    assert_eq!(run(&links, Op::defer_deallocs()), Outcome::Deferred);
    assert_eq!(run(&links, Op::dealloc(0)), Outcome::Deallocated);
    assert_eq!(run(&links, Op::dealloc(1)), Outcome::Deallocated);
    assert_eq!(request(&links), None);
    assert_eq!(run(&links, Op::flush_deallocs()), Outcome::Flushed(true));
    assert_eq!(run(&links, Op::flush_deallocs()), Outcome::Flushed(true));
    assert_eq!(request(&links), Some(1));
    assert_eq!(request(&links), Some(0));
    assert_eq!(request(&links), None);
}

#[test]
fn a_request_that_comes_second_tries_again() {
    let links = SharedLinks::new(3);
    let mut slow = Op::alloc_slot();
    for _ in 0..3 {
        slow = links.advance(slow);
    }
    assert_eq!(slow, Op::Exchange { index: 0, next: 1 });
    assert_eq!(request(&links), Some(0));
    slow = links.advance(slow);
    assert_eq!(slow, Op::Next { index: 1 });
    assert_eq!(run(&links, slow), Outcome::Allocated(Some(1)));
    assert_eq!(request(&links), Some(2));
}

#[test]
fn a_slot_is_not_reused_under_a_slow_request() {
    let links = SharedLinks::new(2);
    let mut slow = Op::alloc_slot();
    for _ in 0..3 {
        slow = links.advance(slow);
    }
    assert_eq!(slow, Op::Exchange { index: 0, next: 1 });
    // The slot the slow request has seen goes out and comes back, and so does the one after it.
    assert_eq!(request(&links), Some(0));
    assert_eq!(request(&links), Some(1));
    assert_eq!(run(&links, Op::dealloc(0)), Outcome::Deallocated);
    assert_eq!(request(&links), None);
    // The slow request cannot take slot 0, whose link is no longer what it saw.
    assert_eq!(run(&links, slow), Outcome::Allocated(None));
    assert_eq!(request(&links), Some(0));
    assert_eq!(request(&links), None);
}

#[test]
fn replies_decide_what_comes_next() {
    let sweep = Sweep::Dealloc(1);
    let hint = Op::dealloc(1);
    assert_eq!(hint, Op::Hint { sweep });
    assert_eq!(hint.resume(4, Reply::Value(1)), Op::Take { sweep });
    assert_eq!(hint.resume(4, Reply::Value(0)), Op::Count { sweep, taken: 4 });
    let count = Op::Count { sweep, taken: 4 };
    let single = Run { first: 1, last: 1, list: List::Free, sweep: None };
    assert_eq!(count.resume(4, Reply::Value(0)), Op::Join { run: single });
    let swept = Run { first: 3, last: 3, list: List::Garbage, sweep: Some(sweep) };
    let walk = Op::Count { sweep, taken: 3 }.resume(4, Reply::Value(2));
    assert_eq!(walk, Op::Walk { run: swept });
    assert_eq!(walk.resume(4, Reply::Value(2)), Op::Walk { run: Run { last: 2, ..swept } });
    assert_eq!(walk.resume(4, Reply::Value(4)), Op::Join { run: swept });
    let link = Op::Join { run: swept }.resume(4, Reply::Value(0));
    assert_eq!(link, Op::Link { run: swept, head: 0 });
    let swing = link.resume(4, Reply::Stored);
    assert_eq!(swing, Op::Swing { run: swept, head: 0 });
    assert_eq!(swing.resume(4, Reply::Refused(2)), Op::Link { run: swept, head: 2 });
    let single = Run { first: 1, last: 1, list: List::Garbage, sweep: None };
    assert_eq!(swing.resume(4, Reply::Exchanged), Op::Join { run: single });
    let last = Op::Swing { run: single, head: 4 };
    assert_eq!(last.resume(4, Reply::Exchanged), Op::Done { outcome: Outcome::Deallocated });
}

/// Runs two requests and two returns in every order of their accesses.
#[test]
fn all_interleavings_of_a_return_and_two_requests() {
    fn explore(script: &mut Vec<usize>, seen: &mut usize) {
        let links = SharedLinks::new(2);
        assert_eq!(request(&links), Some(0));
        let mut ops = vec![Op::dealloc(0), Op::alloc_slot(), Op::alloc_slot()];
        for &t in script.iter() {
            ops[t] = links.advance(ops[t]);
        }
        let open: Vec<usize> =
            (0..3).filter(|&t| ops[t].access(links.capacity()).is_some()).collect();
        if open.is_empty() {
            *seen += 1;
            let mut slots = Vec::new();
            for op in &ops[1..] {
                match *op {
                    Op::Done { outcome: Outcome::Allocated(Some(slot)) } => slots.push(slot),
                    Op::Done { outcome: Outcome::Allocated(None) } => {},
                    other => panic!("{:?}", other),
                }
            }
            while let Some(slot) = request(&links) {
                slots.push(slot);
            }
            // A last request may come too early for garbage that it frees itself.
            while let Some(slot) = request(&links) {
                slots.push(slot);
            }
            slots.sort();
            assert_eq!(slots, vec![0, 1]);
            return;
        }
        if script.len() < 8 {
            for t in open {
                script.push(t);
                explore(script, seen);
                script.pop();
            }
        } else {
            let t = open[(script.len() * 7 + script[0] + script[3] * 2) % open.len()];
            script.push(t);
            explore(script, seen);
            script.pop();
        }
    }
    let mut seen = 0;
    explore(&mut Vec::new(), &mut seen);
    assert!(seen > 1000);
}
