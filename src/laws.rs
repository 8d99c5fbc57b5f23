//! What holds of every sweep and every invocation, stated over the sweep
//! model that `begin` and `record` follow.

use vstd::prelude::*;
use crate::dispatch::{Exhausted, Handler, handler_for};
use crate::sweep::{
    Event, Outcome, Step, end_of_sweep, lemma_next_live, next_live, retire, step_at, sweep, sweep_from,
    sweep_start, visit,
};
use crate::table::{Fairness, SelectorView, all_done};

verus! {

/// The position at which a sweep of `n` branches that starts at `start`
/// visits branch `b`.
pub open spec fn position(n: int, start: int, b: int) -> int {
    if b >= start {
        b - start
    } else {
        b + n - start
    }
}

/// The table `v` with its slots replaced by `slots`.
pub open spec fn with_slots(v: SelectorView, slots: Seq<bool>) -> SelectorView {
    SelectorView {
        slots,
        has_default: v.has_default,
        has_complete: v.has_complete,
        fairness: v.fairness,
    }
}

/// The outcome of a step, when it is a branch that won.
pub open spec fn winner<T>(step: Step<T>) -> Option<(usize, T)> {
    match step {
        Step::Done(Outcome::Branch(b, x)) => Some((b, x)),
        _ => None,
    }
}

/// A sweep visits each of the `n` branches once: the visiting order and
/// [`position`] are inverse to each other on `0..n`.
pub proof fn lemma_visit_order(n: int, start: int)
    requires
        0 <= start < n,
    ensures
        forall|k: int|
            0 <= k < n ==> 0 <= #[trigger] visit(n, start, k) < n && position(n, start, visit(n, start, k)) == k,
        forall|b: int|
            0 <= b < n ==> 0 <= #[trigger] position(n, start, b) < n && visit(n, start, position(n, start, b)) == b,
{
}

/// The facts about the rest of a sweep from position `k` that the laws
/// below rest on.
proof fn lemma_sweep_from<T>(v: SelectorView, start: int, k: int, replies: Seq<Event<T>>)
    requires
        0 < v.slots.len() <= usize::MAX,
        0 <= start < v.slots.len(),
        0 <= k <= v.slots.len(),
        replies.len() == v.slots.len(),
    ensures
        ({
            let n = v.slots.len() as int;
            let r = sweep_from(v, start, k, replies);
            &&& r.0.len() == n
            &&& forall|i: int| 0 <= i < n && #[trigger] r.0[i] ==> v.slots[i]
            &&& match winner(r.1) {
                Some((b, x)) => {
                    &&& 0 <= b < n
                    &&& k <= position(n, start, b as int)
                    &&& v.slots[b as int]
                    &&& replies[b as int] == Event::Accepted(x)
                    &&& !r.0[b as int]
                    &&& forall|i: int|
                        0 <= i < n && k <= position(n, start, i) < position(n, start, b as int)
                            && #[trigger] v.slots[i] ==> !(replies[i] is Accepted)
                },
                None => {
                    &&& forall|i: int|
                        0 <= i < n ==> #[trigger] r.0[i] == (v.slots[i] && (k <= position(n, start, i)
                            ==> replies[i] is NotReady))
                    &&& forall|i: int|
                        0 <= i < n && k <= position(n, start, i) && #[trigger] v.slots[i] ==> !(
                        replies[i] is Accepted)
                    &&& r.1 == end_of_sweep::<T>(with_slots(v, r.0))
                },
            }
        }),
    decreases v.slots.len() - k,
{
    let n = v.slots.len() as int;
    lemma_visit_order(n, start);
    if k < n {
        let b = visit(n, start, k);
        assert(position(n, start, b) == k);
        if !v.slots[b] || replies[b] is NotReady {
            lemma_sweep_from(v, start, k + 1, replies);
            let r = sweep_from(v, start, k + 1, replies);
            assert(sweep_from(v, start, k, replies) == r);
            if winner(r.1) is None {
                assert forall|i: int| 0 <= i < n implies #[trigger] r.0[i] == (v.slots[i] && (k <= position(n, start, i)
                    ==> replies[i] is NotReady)) by {
                    if i == b {
                    } else {
                        assert(position(n, start, i) != k);
                    }
                }
            }
        } else if replies[b] is Rejected {
            let w = retire(v, b);
            lemma_sweep_from(w, start, k + 1, replies);
            let r = sweep_from(w, start, k + 1, replies);
            assert(sweep_from(v, start, k, replies) == r);
            assert forall|i: int| 0 <= i < n && #[trigger] r.0[i] implies v.slots[i] by {
                assert(w.slots[i]);
            }
            if winner(r.1) is None {
                assert forall|i: int| 0 <= i < n implies #[trigger] r.0[i] == (v.slots[i] && (k <= position(n, start, i)
                    ==> replies[i] is NotReady)) by {
                    if i == b {
                    } else {
                        assert(position(n, start, i) != k);
                        assert(w.slots[i] == v.slots[i]);
                    }
                }
                assert forall|i: int|
                    0 <= i < n && k <= position(n, start, i) && #[trigger] v.slots[i] implies !(
                    replies[i] is Accepted) by {
                    if i != b {
                        assert(position(n, start, i) != k);
                        assert(w.slots[i]);
                    }
                }
                assert(with_slots(w, r.0) == with_slots(v, r.0));
            } else {
                let (c, x) = winner(r.1).unwrap();
                assert forall|i: int|
                    0 <= i < n && k <= position(n, start, i) < position(n, start, c as int)
                        && #[trigger] v.slots[i] implies !(replies[i] is Accepted) by {
                    if i != b {
                        assert(position(n, start, i) != k);
                        assert(w.slots[i]);
                    }
                }
                assert(v.slots[c as int]) by {
                    assert(w.slots[c as int]);
                }
            }
        }
    } else {
        assert(with_slots(v, v.slots) == v);
    }
}

/// Every sweep resolves to exactly one thing: a branch with its accepted
/// value, would-block, completed, or pending. Pending comes only without a
/// `default` clause while some branch still holds its operation; a branch
/// wins only with the value it produced; terminal branches stay terminal;
/// and the terminal outcome runs exactly one handler, or aborts exactly
/// when every branch completed and there is no `complete` clause.
pub proof fn lemma_one_outcome<T>(v: SelectorView, seed: int, replies: Seq<Event<T>>)
    requires
        0 < v.slots.len() <= usize::MAX,
        seed >= 0,
        replies.len() == v.slots.len(),
    ensures
        ({
            let r = sweep(v, seed, replies);
            &&& r.0.len() == v.slots.len()
            &&& forall|i: int| 0 <= i < v.slots.len() && #[trigger] r.0[i] ==> v.slots[i]
            &&& r.1 !is Poll
            &&& r.1 is Pending ==> !v.has_default && !all_done(r.0)
            &&& r.1 matches Step::Done(Outcome::Branch(b, x)) ==> {
                &&& b < v.slots.len()
                &&& v.slots[b as int]
                &&& replies[b as int] == Event::Accepted(x)
                &&& !r.0[b as int]
            }
            &&& r.1 is Done ==> match handler_for(v, r.1->Done_0) {
                Ok(_) => r.1->Done_0 is WouldBlock ==> v.has_default,
                Err(_) => r.1->Done_0 is Completed && !v.has_complete && !v.has_default,
            }
        }),
{
    lemma_sweep_from(v, sweep_start(v, seed), 0, replies);
}

/// With biased fairness, the lowest branch that holds its operation and
/// reports an accepted value wins the sweep, whatever the branches after it
/// report.
pub proof fn lemma_biased_lowest_ready_wins<T>(v: SelectorView, seed: int, replies: Seq<Event<T>>, b: int)
    requires
        0 < v.slots.len() <= usize::MAX,
        seed >= 0,
        replies.len() == v.slots.len(),
        v.fairness == Fairness::Biased,
        0 <= b < v.slots.len(),
        v.slots[b],
        replies[b] is Accepted,
        forall|j: int| 0 <= j < b && #[trigger] v.slots[j] ==> !(replies[j] is Accepted),
    ensures
        sweep(v, seed, replies).1 == Step::Done(Outcome::Branch(b as usize, replies[b]->Accepted_0)),
{
    let n = v.slots.len() as int;
    lemma_sweep_from(v, 0, 0, replies);
    let r = sweep(v, seed, replies);
    assert(position(n, 0, b) == b);
    if let Some((c, x)) = winner(r.1) {
        assert(position(n, 0, c as int) == c);
        if (c as int) < b {
            assert(v.slots[c as int]);
        }
    } else {
        assert(v.slots[b]);
    }
}

/// With rotating fairness, when every branch holds its operation and
/// reports an accepted value, the branch the seed points at wins: each
/// branch wins for some seed.
pub proof fn lemma_rotating_seed_wins<T>(v: SelectorView, seed: int, replies: Seq<Event<T>>)
    requires
        0 < v.slots.len() <= usize::MAX,
        seed >= 0,
        replies.len() == v.slots.len(),
        v.fairness == Fairness::Rotating,
        forall|j: int| 0 <= j < v.slots.len() ==> #[trigger] v.slots[j] && replies[j] is Accepted,
    ensures
        ({
            let b = seed % (v.slots.len() as int);
            sweep(v, seed, replies).1 == Step::Done(Outcome::Branch(b as usize, replies[b]->Accepted_0))
        }),
{
    let b = seed % (v.slots.len() as int);
    assert(v.slots[b]);
}

/// With rotating fairness and two or more branches that all hold their
/// operations and report accepted values, seeds 0 and 1 pick different
/// winners: no branch wins every sweep.
pub proof fn lemma_rotating_no_fixed_winner<T>(v: SelectorView, replies: Seq<Event<T>>)
    requires
        2 <= v.slots.len() <= usize::MAX,
        replies.len() == v.slots.len(),
        v.fairness == Fairness::Rotating,
        forall|j: int| 0 <= j < v.slots.len() ==> #[trigger] v.slots[j] && replies[j] is Accepted,
    ensures
        sweep(v, 0, replies).1 matches Step::Done(Outcome::Branch(c, _)) && c == 0,
        sweep(v, 1, replies).1 matches Step::Done(Outcome::Branch(c, _)) && c == 1,
{
    let n = v.slots.len() as int;
    lemma_rotating_seed_wins(v, 0, replies);
    lemma_rotating_seed_wins(v, 1, replies);
    assert(1int % n == 1) by (nonlinear_arith)
        requires
            n >= 2,
    ;
}

/// A branch whose value the filter refuses never wins, and once a sweep
/// ends without a winner its slot is empty, so no later sweep polls it.
pub proof fn lemma_rejected_never_wins<T>(v: SelectorView, seed: int, replies: Seq<Event<T>>, b: int)
    requires
        0 < v.slots.len() <= usize::MAX,
        seed >= 0,
        replies.len() == v.slots.len(),
        0 <= b < v.slots.len(),
        replies[b] is Rejected,
    ensures
        ({
            let r = sweep(v, seed, replies);
            &&& r.1 matches Step::Done(Outcome::Branch(c, _)) ==> c != b
            &&& winner(r.1) is None ==> !r.0[b]
        }),
{
    let n = v.slots.len() as int;
    let start = sweep_start(v, seed);
    lemma_sweep_from(v, start, 0, replies);
    lemma_visit_order(n, start);
    assert(0 <= position(n, start, b));
}

/// With a `default` clause, a sweep in which no live branch reports an
/// accepted value and some live branch is not ready ends in would-block,
/// whether or not a `complete` clause is there.
pub proof fn lemma_would_block_first<T>(v: SelectorView, seed: int, replies: Seq<Event<T>>, p: int)
    requires
        0 < v.slots.len() <= usize::MAX,
        seed >= 0,
        replies.len() == v.slots.len(),
        v.has_default,
        forall|j: int| 0 <= j < v.slots.len() && #[trigger] v.slots[j] ==> !(replies[j] is Accepted),
        0 <= p < v.slots.len(),
        v.slots[p],
        replies[p] is NotReady,
    ensures
        sweep(v, seed, replies).1 == Step::Done(Outcome::<T>::WouldBlock),
{
    let n = v.slots.len() as int;
    let start = sweep_start(v, seed);
    lemma_sweep_from(v, start, 0, replies);
    lemma_visit_order(n, start);
    let r = sweep(v, seed, replies);
    if let Some((c, x)) = winner(r.1) {
        assert(v.slots[c as int]);
    } else {
        assert(0 <= position(n, start, p));
        assert(r.0[p]);
    }
}

/// With a `complete` clause, a sweep in which every live branch reports a
/// refused value ends completed, even when a `default` clause is there.
pub proof fn lemma_completion_first<T>(v: SelectorView, seed: int, replies: Seq<Event<T>>)
    requires
        0 < v.slots.len() <= usize::MAX,
        seed >= 0,
        replies.len() == v.slots.len(),
        v.has_complete,
        forall|j: int| 0 <= j < v.slots.len() && #[trigger] v.slots[j] ==> replies[j] is Rejected,
    ensures
        sweep(v, seed, replies).1 == Step::Done(Outcome::<T>::Completed),
{
    lemma_all_rejected(v, seed, replies);
}

/// When every live branch reports a refused value, the sweep ends with
/// every slot empty and no winner.
proof fn lemma_all_rejected<T>(v: SelectorView, seed: int, replies: Seq<Event<T>>)
    requires
        0 < v.slots.len() <= usize::MAX,
        seed >= 0,
        replies.len() == v.slots.len(),
        forall|j: int| 0 <= j < v.slots.len() && #[trigger] v.slots[j] ==> replies[j] is Rejected,
    ensures
        all_done(sweep(v, seed, replies).0),
        sweep(v, seed, replies).1 == end_of_sweep::<T>(with_slots(v, sweep(v, seed, replies).0)),
{
    let n = v.slots.len() as int;
    let start = sweep_start(v, seed);
    lemma_sweep_from(v, start, 0, replies);
    lemma_visit_order(n, start);
    let r = sweep(v, seed, replies);
    if let Some((c, x)) = winner(r.1) {
        assert(v.slots[c as int]);
    } else {
        assert forall|i: int| 0 <= i < r.0.len() implies !#[trigger] r.0[i] by {
            assert(0 <= position(n, start, i));
        }
    }
}

/// A branch whose slot is empty, because its activation condition was false
/// or because it already completed, is never polled and never wins, and its
/// slot stays empty.
pub proof fn lemma_disabled_branch_inert<T>(v: SelectorView, seed: int, replies: Seq<Event<T>>, b: int)
    requires
        0 < v.slots.len() <= usize::MAX,
        seed >= 0,
        replies.len() == v.slots.len(),
        0 <= b < v.slots.len(),
        !v.slots[b],
    ensures
        ({
            let r = sweep(v, seed, replies);
            &&& !r.0[b]
            &&& r.1 matches Step::Done(Outcome::Branch(c, _)) ==> c != b
        }),
        forall|start: int, k: int|
            0 <= start < v.slots.len() && 0 <= k <= v.slots.len() ==> #[trigger] step_at::<T>(
                v,
                start,
                next_live(v.slots, start, k),
            ) != Step::<T>::Poll(b as usize),
{
    let n = v.slots.len() as int;
    let start = sweep_start(v, seed);
    lemma_sweep_from(v, start, 0, replies);
    assert forall|start: int, k: int|
        0 <= start < v.slots.len() && 0 <= k <= v.slots.len() implies #[trigger] step_at::<T>(
            v,
            start,
            next_live(v.slots, start, k),
        ) != Step::<T>::Poll(b as usize) by {
        lemma_next_live(v.slots, start, k);
        lemma_visit_order(n, start);
    }
}

/// Without `default` and `complete` clauses, a sweep in which every live
/// branch reports a refused value ends completed, and that outcome runs no
/// handler: the invocation aborts.
pub proof fn lemma_exhausted_aborts<T>(v: SelectorView, seed: int, replies: Seq<Event<T>>)
    requires
        0 < v.slots.len() <= usize::MAX,
        seed >= 0,
        replies.len() == v.slots.len(),
        !v.has_default,
        !v.has_complete,
        forall|j: int| 0 <= j < v.slots.len() && #[trigger] v.slots[j] ==> replies[j] is Rejected,
    ensures
        sweep(v, seed, replies).1 == Step::Done(Outcome::<T>::Completed),
        handler_for(v, Outcome::<T>::Completed) == Err::<Handler<T>, Exhausted>(Exhausted),
{
    lemma_all_rejected(v, seed, replies);
}

} // verus!
