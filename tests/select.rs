use async_select::clause::Clause;
use async_select::dispatch::{Exhausted, Handler};
use async_select::sweep::{Event, Outcome, Step};
use async_select::table::{select_biased, select_default, Selector};

/// How a scripted operation behaves each time it is advanced.
#[derive(Clone, Copy)]
enum Op {
    /// Never ready.
    Pending,
    /// Ready at once with a value the filter accepts.
    Ready(i32),
    /// Ready at once with a value the filter refuses.
    Refuse,
    /// Not ready for the given number of advances, then ready with the value.
    After(u32, i32),
}

struct Run {
    handler: Result<Handler<i32>, Exhausted>,
    polls: Vec<u32>,
    sweeps: u32,
}

/// Sweeps until a terminal outcome, answering each poll with `reply`, and
/// checks that no branch is advanced once its slot is empty.
fn drive(sel: &mut Selector, seed: usize, mut reply: impl FnMut(usize, u32) -> Event<i32>) -> Run {
    let n = sel.branch_count();
    let mut polls = vec![0u32; n];
    let mut finished: Vec<bool> = (0..n).map(|i| !sel.is_active(i)).collect();
    let mut sweeps = 0u32;
    loop {
        sweeps += 1;
        assert!(sweeps <= 100, "no terminal outcome");
        let (mut sw, mut step) = sel.begin::<i32>(seed);
        let outcome = loop {
            match step {
                Step::Poll(i) => {
                    assert!(!finished[i], "branch polled after it completed");
                    assert!(sel.is_awaiting(&sw));
                    let ev = reply(i, polls[i]);
                    polls[i] += 1;
                    if ev != Event::NotReady {
                        finished[i] = true;
                    }
                    step = sel.record(&mut sw, ev);
                }
                Step::Pending => break None,
                Step::Done(o) => break Some(o),
            }
        };
        if let Some(o) = outcome {
            let handler = sel.dispatch(o);
            return Run { handler, polls, sweeps };
        }
    }
}

fn script(op: Op, polled: u32) -> Event<i32> {
    match op {
        Op::Pending => Event::NotReady,
        Op::Ready(v) => Event::Accepted(v),
        Op::Refuse => Event::Rejected,
        Op::After(k, v) => {
            if polled < k {
                Event::NotReady
            } else {
                Event::Accepted(v)
            }
        }
    }
}

fn clauses(branches: &[(bool, Op)], default: bool, complete: bool) -> Vec<Clause> {
    let mut c: Vec<Clause> = branches.iter().map(|b| Clause::Branch(b.0)).collect();
    if default {
        c.push(Clause::Default);
    }
    if complete {
        c.push(Clause::Complete);
    }
    c
}

fn run(branches: &[(bool, Op)], default: bool, complete: bool, biased: bool, seed: usize) -> Run {
    let c = clauses(branches, default, complete);
    let mut sel = if biased { select_biased(&c) } else { select_default(&c) }.unwrap();
    let ops: Vec<Op> = branches.iter().map(|b| b.1).collect();
    drive(&mut sel, seed, |i, polled| script(ops[i], polled))
}

/// The value of the handler that runs, as a `select` expression would give
/// it; aborts as the combinator does when no handler can run.
fn value(r: &Run, default: i32, complete: i32) -> i32 {
    match &r.handler {
        Ok(Handler::Branch(_, v)) => *v,
        Ok(Handler::Default) => default,
        Ok(Handler::Complete) => complete,
        Err(Exhausted) => panic!("all branches are disabled or completed and there is no `default` nor `complete`"),
    }
}

fn on(op: Op) -> (bool, Op) {
    (true, op)
}

#[test]
fn biased_all_ready() {
    let b = [on(Op::Ready(1)), on(Op::Ready(2)), on(Op::Ready(3)), on(Op::Ready(4))];
    let r = run(&b, false, false, true, 0);
    assert_eq!(value(&r, 0, 0), 1);
    assert_eq!(r.polls, vec![1, 0, 0, 0]);
}

#[test]
fn biased_partial_ready() {
    let b = [on(Op::Pending), on(Op::Pending), on(Op::Ready(3)), on(Op::Ready(4))];
    let r = run(&b, false, false, true, 0);
    assert_eq!(value(&r, 0, 0), 3);
}

#[test]
fn biased_no_ready_default() {
    let b = [on(Op::Pending), on(Op::Pending), on(Op::Pending), on(Op::Pending)];
    let r = run(&b, true, false, true, 0);
    assert_eq!(value(&r, 3, 0), 3);
    assert_eq!(r.sweeps, 1);
}

#[test]
fn biased_no_ready() {
    let b = [on(Op::Pending), on(Op::Pending), on(Op::Pending), on(Op::Pending), on(Op::After(2, 3))];
    let r = run(&b, false, true, true, 0);
    assert_eq!(value(&r, 0, 5), 3);
    assert_eq!(r.sweeps, 3);
}

#[test]
fn ready_default() {
    let r = run(&[on(Op::Ready(5))], true, false, false, 9);
    assert_eq!(value(&r, 6, 0), 5);
}

#[test]
fn ready_complete() {
    let r = run(&[on(Op::Ready(5))], false, true, false, 9);
    assert_eq!(value(&r, 0, 7), 5);
}

#[test]
fn ready_complete_with_default() {
    let r = run(&[on(Op::Ready(5))], true, true, false, 9);
    assert_eq!(value(&r, 6, 7), 5);
}

#[test]
fn not_ready_default() {
    let r = run(&[on(Op::Pending)], true, false, false, 9);
    assert_eq!(value(&r, 6, 0), 6);
}

#[test]
fn not_ready_complete() {
    let r = run(&[on(Op::Pending), on(Op::After(3, 6))], false, true, false, 1);
    assert_eq!(value(&r, 0, 7), 6);
}

#[test]
fn not_ready_complete_with_default() {
    let r = run(&[on(Op::Pending)], true, true, false, 9);
    assert_eq!(value(&r, 6, 7), 6);
}

#[test]
#[should_panic(expected = "all branches are disabled or completed")]
fn all_disabled_panic() {
    let r = run(&[(false, Op::Ready(1))], false, false, false, 0);
    value(&r, 0, 0);
}

#[test]
fn all_disabled_default() {
    let r = run(&[(false, Op::Ready(1))], true, false, false, 0);
    assert_eq!(value(&r, 6, 0), 6);
    assert_eq!(r.polls, vec![0]);
}

#[test]
fn all_disabled_complete() {
    let r = run(&[(false, Op::Ready(1))], false, true, false, 0);
    assert_eq!(value(&r, 0, 7), 7);
    assert_eq!(r.polls, vec![0]);
}

#[test]
fn all_disabled_complete_with_default() {
    let r = run(&[(false, Op::Ready(1))], true, true, false, 0);
    assert_eq!(value(&r, 6, 7), 7);
    assert_eq!(r.polls, vec![0]);
}

#[test]
#[should_panic(expected = "all branches are disabled or completed")]
fn all_completed_panic() {
    let r = run(&[on(Op::Refuse)], false, false, false, 0);
    value(&r, 0, 0);
}

#[test]
fn all_completed_default() {
    let r = run(&[on(Op::Refuse)], true, false, false, 0);
    assert_eq!(value(&r, 7, 0), 7);
}

#[test]
fn all_completed_complete() {
    let r = run(&[on(Op::Refuse)], false, true, false, 0);
    assert_eq!(value(&r, 0, 7), 7);
}

#[test]
fn all_completed_complete_with_default() {
    let r = run(&[on(Op::Refuse)], true, true, false, 0);
    assert_eq!(value(&r, 6, 7), 7);
}

fn sixty_four(first: Op, rest: Op) -> Vec<(bool, Op)> {
    let mut b = vec![on(first)];
    b.extend(std::iter::repeat(on(rest)).take(63));
    b
}

#[test]
fn ready64() {
    for seed in [0usize, 1, 17, 63, 64, 1000] {
        let r = run(&sixty_four(Op::Ready(5), Op::Pending), true, true, false, seed);
        assert_eq!(value(&r, -1, -2), 5);
    }
}

#[test]
fn ready64_complete() {
    let r = run(&sixty_four(Op::Refuse, Op::Refuse), true, true, false, 40);
    assert_eq!(value(&r, 6, 5), 5);
    assert_eq!(r.polls, vec![1; 64]);
}

#[test]
fn non_blocking64() {
    let r = run(&sixty_four(Op::Pending, Op::Pending), true, true, false, 40);
    assert_eq!(value(&r, 5, -2), 5);
}

#[test]
fn nested_blocking64() {
    let inner_clauses = clauses(&sixty_four(Op::Pending, Op::Pending), false, true);
    let mut inner = select_default(&inner_clauses).unwrap();
    let mut outer = select_default(&clauses(&[on(Op::Pending), on(Op::Ready(5))], false, false)).unwrap();
    let r = drive(&mut outer, 3, |i, _| {
        if i == 1 {
            return Event::Accepted(5);
        }
        let (mut sw, mut step) = inner.begin::<i32>(11);
        while let Step::Poll(_) = step {
            step = inner.record(&mut sw, Event::NotReady);
        }
        assert_eq!(step, Step::Pending);
        Event::NotReady
    });
    assert_eq!(value(&r, -1, -2), 5);
}

#[test]
fn rotating_fairness_spreads_winners() {
    let b = [on(Op::Ready(10)), on(Op::Ready(11)), on(Op::Ready(12)), on(Op::Ready(13))];
    let mut winners = Vec::new();
    for seed in 0..8usize {
        let r = run(&b, false, false, false, seed);
        assert_eq!(value(&r, 0, 0), 10 + (seed % 4) as i32);
        if !winners.contains(&value(&r, 0, 0)) {
            winners.push(value(&r, 0, 0));
        }
    }
    assert_eq!(winners.len(), 4);
}

#[test]
fn biased_ignores_seed() {
    let b = [on(Op::Pending), on(Op::Ready(2)), on(Op::Ready(3))];
    for seed in [0usize, 2, 5, usize::MAX] {
        assert_eq!(value(&run(&b, false, false, true, seed), 0, 0), 2);
    }
}

#[test]
fn refused_branch_is_not_polled_again() {
    let b = [on(Op::Refuse), on(Op::After(2, 9))];
    let r = run(&b, false, false, true, 0);
    assert_eq!(value(&r, 0, 0), 9);
    assert_eq!(r.polls, vec![1, 3]);
    assert_eq!(r.sweeps, 3);
}

#[test]
fn refused_value_falls_to_another_branch() {
    let b = [on(Op::Refuse), on(Op::Ready(4))];
    let r = run(&b, true, true, true, 0);
    assert_eq!(value(&r, 6, 7), 4);
}

#[test]
fn disabled_branch_is_never_polled() {
    let b = [(false, Op::Ready(1)), on(Op::After(1, 2))];
    let r = run(&b, false, false, false, 0);
    assert_eq!(value(&r, 0, 0), 2);
    assert_eq!(r.polls, vec![0, 2]);
}

#[test]
fn one_branch_and_sixty_four_alike() {
    let r = run(&[on(Op::Ready(8))], false, false, true, 0);
    assert_eq!(value(&r, 0, 0), 8);
    let mut b = vec![on(Op::Pending); 63];
    b.push(on(Op::Ready(8)));
    let r = run(&b, false, false, true, 0);
    assert_eq!(value(&r, 0, 0), 8);
    assert!(matches!(r.handler, Ok(Handler::Branch(63, 8))));
    for seed in [0usize, 62, 63, 64, 127] {
        let r = run(&b, false, false, false, seed);
        assert!(matches!(r.handler, Ok(Handler::Branch(63, 8))));
    }
}

#[test]
fn sweep_steps_from_seed() {
    let c = vec![Clause::Branch(true), Clause::Branch(false), Clause::Branch(true), Clause::Default];
    let mut sel = select_default(&c).unwrap();
    let (mut sw, step) = sel.begin::<i32>(5);
    assert_eq!(step, Step::Poll(2));
    let step = sel.record(&mut sw, Event::<i32>::NotReady);
    assert_eq!(step, Step::Poll(0));
    assert_eq!(sel.completed_count(), 1);
    let step = sel.record(&mut sw, Event::<i32>::Rejected);
    assert_eq!(step, Step::Done(Outcome::WouldBlock));
    assert_eq!(sel.completed_count(), 2);
    assert!(!sel.is_awaiting(&sw));
    let (mut sw, step) = sel.begin::<i32>(0);
    assert_eq!(step, Step::Poll(2));
    let step = sel.record(&mut sw, Event::Accepted(42));
    assert_eq!(step, Step::Done(Outcome::Branch(2, 42)));
    assert_eq!(sel.completed_count(), 3);
}

#[test]
fn blocking_sweep_reports_pending() {
    let mut sel = select_biased(&vec![Clause::Branch(true), Clause::Branch(true)]).unwrap();
    let (mut sw, step) = sel.begin::<i32>(0);
    assert_eq!(step, Step::Poll(0));
    let step = sel.record(&mut sw, Event::<i32>::NotReady);
    assert_eq!(step, Step::Poll(1));
    let step = sel.record(&mut sw, Event::<i32>::Rejected);
    assert_eq!(step, Step::Pending);
    let (mut sw, step) = sel.begin::<i32>(0);
    assert_eq!(step, Step::Poll(0));
    let step = sel.record(&mut sw, Event::<i32>::Rejected);
    assert_eq!(step, Step::Done(Outcome::Completed));
    assert_eq!(sel.dispatch(Outcome::<i32>::Completed), Err(Exhausted));
}

#[test]
fn dispatch_runs_one_handler() {
    let sel = select_biased(&vec![Clause::Branch(true), Clause::Default, Clause::Complete]).unwrap();
    assert_eq!(sel.dispatch(Outcome::Branch(0, String::from("v"))), Ok(Handler::Branch(0, String::from("v"))));
    assert_eq!(sel.dispatch(Outcome::<i32>::WouldBlock), Ok(Handler::Default));
    assert_eq!(sel.dispatch(Outcome::<i32>::Completed), Ok(Handler::Complete));
    let sel = select_biased(&vec![Clause::Branch(true), Clause::Default]).unwrap();
    assert_eq!(sel.dispatch(Outcome::<i32>::Completed), Err(Exhausted));
}

#[test]
fn every_mode_runs_exactly_one_handler() {
    for default in [false, true] {
        for complete in [false, true] {
            for op in [Op::Ready(1), Op::Refuse, Op::After(1, 2)] {
                let r = run(&[on(op), on(Op::Refuse)], default, complete, false, 1);
                match (&r.handler, op) {
                    (Ok(Handler::Branch(0, 1)), Op::Ready(1)) => {}
                    (Ok(Handler::Branch(0, 2)), Op::After(1, 2)) => assert!(!default),
                    (Ok(Handler::Default), Op::After(1, 2)) => assert!(default),
                    (Ok(Handler::Complete), Op::Refuse) => assert!(complete),
                    (Ok(Handler::Default), Op::Refuse) => assert!(default && !complete),
                    (Err(Exhausted), Op::Refuse) => assert!(!default && !complete),
                    _ => panic!("unexpected handler"),
                }
            }
        }
    }
}
