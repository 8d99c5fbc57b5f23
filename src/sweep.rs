//! One sweep of the poll loop, as a state machine: it says which branch to
//! advance next, takes back what the advance reported, and decides when the
//! sweep ends and with which outcome. Whoever owns the operations performs
//! each advance.
//!
//! [`sweep`] states a whole sweep at once, for the replies the branches give.
//! `begin` and `record` each keep what is left of the sweep ([`resume`])
//! equal to it, so a sweep driven step by step ends as [`sweep`] says.

use vstd::prelude::*;
use crate::table::{
    Fairness, Selector, SelectorView, all_done, count_done, lemma_all_done_count,
    lemma_count_done_bound, lemma_count_done_retire,
};

verus! {

/// What advancing a branch's operation by one step reported, after the
/// branch's filter has been applied to a produced value.
#[derive(Debug, PartialEq, Eq)]
pub enum Event<T> {
    /// The operation is not ready yet.
    NotReady,
    /// The operation produced a value that the branch's filter refused.
    Rejected,
    /// The operation produced a value that the branch's filter accepted.
    Accepted(T),
}

/// A terminal outcome of a `select` invocation.
#[derive(Debug, PartialEq, Eq)]
pub enum Outcome<T> {
    /// The branch with this index produced this accepted value.
    Branch(usize, T),
    /// A sweep found no branch ready (only with a `default` clause).
    WouldBlock,
    /// Every branch has completed without an accepted value.
    Completed,
}

/// What the owner of the operations does next.
#[derive(Debug, PartialEq, Eq)]
pub enum Step<T> {
    /// Advance the operation of this branch and report with `record`.
    Poll(usize),
    /// The sweep ended without a terminal outcome: sweep again later.
    Pending,
    /// The invocation is over with this outcome.
    Done(Outcome<T>),
}

/// The position of one sweep in its visiting order.
pub struct Sweep {
    start: usize,
    pos: usize,
}

/// The model of a [`Sweep`]: the branch it started at and how many
/// positions of its order it has passed.
pub struct SweepView {
    pub start: int,
    pub pos: int,
}

impl View for Sweep {
    type V = SweepView;

    closed spec fn view(&self) -> SweepView {
        SweepView { start: self.start as int, pos: self.pos as int }
    }
}

/// The branch visited at position `k` of a sweep of `n` branches that
/// starts at branch `start`: the order goes round from `start`.
pub open spec fn visit(n: int, start: int, k: int) -> int {
    if start + k < n {
        start + k
    } else {
        start + k - n
    }
}

/// The branch a sweep starts at: 0 when biased, else the seed taken round
/// the number of branches.
pub open spec fn sweep_start(v: SelectorView, seed: int) -> int {
    match v.fairness {
        Fairness::Biased => 0,
        Fairness::Rotating => seed % (v.slots.len() as int),
    }
}

/// The first position at or after `k` whose branch still holds its
/// operation, or the number of branches when there is none.
pub open spec fn next_live(slots: Seq<bool>, start: int, k: int) -> int
    decreases slots.len() - k,
{
    if k >= slots.len() {
        slots.len() as int
    } else if slots[visit(slots.len() as int, start, k)] {
        k
    } else {
        next_live(slots, start, k + 1)
    }
}

/// The table `v` once branch `b` has reached a terminal state.
pub open spec fn retire(v: SelectorView, b: int) -> SelectorView {
    SelectorView {
        slots: v.slots.update(b, false),
        has_default: v.has_default,
        has_complete: v.has_complete,
        fairness: v.fairness,
    }
}

/// How a sweep that met no accepted value ends on the table `v`: completed
/// when every branch is terminal and a `complete` clause, or no `default`
/// clause, is there; else would-block with a `default` clause; else pending.
pub open spec fn end_of_sweep<T>(v: SelectorView) -> Step<T> {
    if all_done(v.slots) && (v.has_complete || !v.has_default) {
        Step::Done(Outcome::Completed)
    } else if v.has_default {
        Step::Done(Outcome::WouldBlock)
    } else {
        Step::Pending
    }
}

/// The step at position `pos` of a sweep: poll the branch there, or end.
pub open spec fn step_at<T>(v: SelectorView, start: int, pos: int) -> Step<T> {
    if pos < v.slots.len() {
        Step::Poll(visit(v.slots.len() as int, start, pos) as usize)
    } else {
        end_of_sweep(v)
    }
}

/// The rest of a sweep from position `k`, when every branch `b` that gets
/// advanced reports `replies[b]`: the slots it leaves and how it ends.
pub open spec fn sweep_from<T>(v: SelectorView, start: int, k: int, replies: Seq<Event<T>>) -> (
    Seq<bool>,
    Step<T>,
)
    decreases v.slots.len() - k,
{
    if k < 0 || k >= v.slots.len() || start < 0 || start >= v.slots.len() {
        (v.slots, end_of_sweep(v))
    } else {
        let b = visit(v.slots.len() as int, start, k);
        if !v.slots[b] {
            sweep_from(v, start, k + 1, replies)
        } else {
            match replies[b] {
                Event::NotReady => sweep_from(v, start, k + 1, replies),
                Event::Rejected => sweep_from(retire(v, b), start, k + 1, replies),
                Event::Accepted(x) => (v.slots.update(b, false), Step::Done(Outcome::Branch(b as usize, x))),
            }
        }
    }
}

/// A whole sweep of the table `v` with the given seed, when every branch
/// `b` that gets advanced reports `replies[b]`.
pub open spec fn sweep<T>(v: SelectorView, seed: int, replies: Seq<Event<T>>) -> (Seq<bool>, Step<T>) {
    sweep_from(v, sweep_start(v, seed), 0, replies)
}

/// What is left of a sweep that stands at `sw` and has just taken `step`.
pub open spec fn resume<T>(v: SelectorView, sw: SweepView, step: Step<T>, replies: Seq<Event<T>>) -> (
    Seq<bool>,
    Step<T>,
) {
    match step {
        Step::Poll(_) => sweep_from(v, sw.start, sw.pos, replies),
        _ => (v.slots, step),
    }
}

/// The first live position from `k` is a live branch, or the end.
pub(crate) proof fn lemma_next_live(slots: Seq<bool>, start: int, k: int)
    requires
        0 <= k <= slots.len(),
    ensures
        k <= next_live(slots, start, k) <= slots.len(),
        next_live(slots, start, k) < slots.len() ==> slots[visit(
            slots.len() as int,
            start,
            next_live(slots, start, k),
        )],
    decreases slots.len() - k,
{
    if k < slots.len() && !slots[visit(slots.len() as int, start, k)] {
        lemma_next_live(slots, start, k + 1);
    }
}

/// Skipping the terminal branches does not change the rest of a sweep.
proof fn lemma_skip_done<T>(v: SelectorView, start: int, k: int, replies: Seq<Event<T>>)
    requires
        0 <= k <= v.slots.len(),
    ensures
        k <= next_live(v.slots, start, k) <= v.slots.len(),
        sweep_from(v, start, k, replies) == sweep_from(v, start, next_live(v.slots, start, k), replies),
    decreases v.slots.len() - k,
{
    if k < v.slots.len() && !v.slots[visit(v.slots.len() as int, start, k)] {
        lemma_skip_done(v, start, k + 1, replies);
    }
}

fn visit_index(n: usize, start: usize, k: usize) -> (b: usize)
    requires
        start < n,
        k < n,
    ensures
        b == visit(n as int, start as int, k as int),
        b < n,
{
    if k < n - start {
        start + k
    } else {
        k - (n - start)
    }
}

impl Selector {
    /// The sweep `sw` waits for the report of a branch that holds its
    /// operation.
    pub open spec fn awaits(&self, sw: SweepView) -> bool {
        &&& 0 <= sw.start < self@.slots.len()
        &&& 0 <= sw.pos < self@.slots.len()
        &&& self@.slots[visit(self@.slots.len() as int, sw.start, sw.pos)]
    }

    /// Whether the sweep `sw` waits for the report of a live branch, as
    /// `record` requires.
    pub fn is_awaiting(&self, sw: &Sweep) -> (r: bool)
        requires
            self.wf(),
        ensures
            r == self.awaits(sw@),
    {
        proof {
            self.lemma_unfold();
        }
        let n = self.slots.len();
        sw.start < n && sw.pos < n && self.slots[visit_index(n, sw.start, sw.pos)]
    }

    /// The first position at or after `k` whose branch is live.
    fn next_live_pos(&self, start: usize, k: usize) -> (p: usize)
        requires
            self.wf(),
            start < self@.slots.len(),
            k <= self@.slots.len(),
        ensures
            p == next_live(self@.slots, start as int, k as int),
            k <= p <= self@.slots.len(),
    {
        proof {
            self.lemma_unfold();
        }
        let n = self.slots.len();
        let mut p = k;
        while p < n && !self.slots[visit_index(n, start, p)]
            invariant
                self@.slots == self.slots@,
                n == self@.slots.len(),
                start < n,
                k <= p <= n,
                next_live(self@.slots, start as int, p as int) == next_live(
                    self@.slots,
                    start as int,
                    k as int,
                ),
            decreases n - p,
        {
            p = p + 1;
        }
        p
    }

    /// The step at position `pos` of the sweep that started at `start`.
    fn step_for<T>(&self, start: usize, pos: usize) -> (step: Step<T>)
        requires
            self.wf(),
            start < self@.slots.len(),
            pos <= self@.slots.len(),
        ensures
            step == step_at::<T>(self@, start as int, pos as int),
    {
        proof {
            self.lemma_unfold();
        }
        let n = self.slots.len();
        if pos < n {
            Step::Poll(visit_index(n, start, pos))
        } else {
            proof {
                lemma_all_done_count(self@.slots);
            }
            if self.done == n && (self.has_complete || !self.has_default) {
                Step::Done(Outcome::Completed)
            } else if self.has_default {
                Step::Done(Outcome::WouldBlock)
            } else {
                Step::Pending
            }
        }
    }

    /// Starts a sweep. The seed only matters with rotating fairness, where
    /// it picks the first branch visited.
    pub fn begin<T>(&self, seed: usize) -> (r: (Sweep, Step<T>))
        requires
            self.wf(),
        ensures
            r.0@.start == sweep_start(self@, seed as int),
            r.0@.pos == next_live(self@.slots, r.0@.start, 0),
            r.1 == step_at::<T>(self@, r.0@.start, r.0@.pos),
            r.1 is Poll ==> self.awaits(r.0@),
            forall|replies: Seq<Event<T>>|
                replies.len() == self@.slots.len() ==> #[trigger] sweep(self@, seed as int, replies)
                    == resume(self@, r.0@, r.1, replies),
    {
        proof {
            self.lemma_unfold();
        }
        let n = self.slots.len();
        let start = match self.fairness {
            Fairness::Biased => 0,
            Fairness::Rotating => seed % n,
        };
        let pos = self.next_live_pos(start, 0);
        let step = self.step_for(start, pos);
        proof {
            lemma_next_live(self@.slots, start as int, 0);
        }
        let sw = Sweep { start, pos };
        assert forall|replies: Seq<Event<T>>| replies.len() == self@.slots.len() implies #[trigger] sweep(
            self@,
            seed as int,
            replies,
        ) == resume(self@, sw@, step, replies) by {
            lemma_skip_done(self@, start as int, 0, replies);
        }
        (sw, step)
    }

    /// Marks branch `b` terminal and counts it.
    fn retire_slot(&mut self, b: usize)
        requires
            old(self).wf(),
            b < old(self)@.slots.len(),
            old(self)@.slots[b as int],
        ensures
            final(self).wf(),
            final(self)@ == retire(old(self)@, b as int),
            final(self).done == old(self).done + 1,
    {
        let n = self.slots.len();
        proof {
            self.lemma_unfold();
            lemma_count_done_retire(self@.slots, b as int);
            lemma_count_done_bound(self@.slots.update(b as int, false));
            assert(self.done < n);
        }
        self.slots.set(b, false);
        self.done = self.done + 1;
        proof {
            self.lemma_unfold();
        }
    }

    /// Takes the report of the branch the sweep waits for and returns the
    /// next step. A ready branch's slot is emptied whatever its filter
    /// said; an accepted value ends the invocation at once.
    pub fn record<T>(&mut self, sw: &mut Sweep, event: Event<T>) -> (step: Step<T>)
        requires
            old(self).wf(),
            old(self).awaits(old(sw)@),
        ensures
            final(self).wf(),
            final(sw)@.start == old(sw)@.start,
            ({
                let n = old(self)@.slots.len() as int;
                let b = visit(n, old(sw)@.start, old(sw)@.pos);
                &&& match event {
                    Event::NotReady => final(self)@ == old(self)@,
                    Event::Rejected => final(self)@ == retire(old(self)@, b),
                    Event::Accepted(x) => {
                        &&& final(self)@ == retire(old(self)@, b)
                        &&& step == Step::Done(Outcome::Branch(b as usize, x))
                        &&& final(sw)@.pos == n
                    },
                }
                &&& event !is Accepted ==> {
                    &&& final(sw)@.pos == next_live(final(self)@.slots, old(sw)@.start, old(sw)@.pos + 1)
                    &&& step == step_at::<T>(final(self)@, old(sw)@.start, final(sw)@.pos)
                }
                &&& count_done(final(self)@.slots) == count_done(old(self)@.slots) + if event is NotReady {
                    0nat
                } else {
                    1nat
                }
                &&& step is Poll ==> final(self).awaits(final(sw)@)
                &&& forall|replies: Seq<Event<T>>|
                    replies.len() == n && replies[b] == event ==> #[trigger] resume(
                        final(self)@,
                        final(sw)@,
                        step,
                        replies,
                    ) == resume(old(self)@, old(sw)@, Step::Poll(b as usize), replies)
            }),
    {
        proof {
            self.lemma_unfold();
        }
        let ghost v0 = self@;
        let ghost sw0 = sw@;
        let ghost ev = event;
        let n = self.slots.len();
        let b = visit_index(n, sw.start, sw.pos);
        proof {
            lemma_count_done_retire(v0.slots, b as int);
        }
        let step = match event {
            Event::Accepted(x) => {
                self.retire_slot(b);
                sw.pos = n;
                Step::Done(Outcome::Branch(b, x))
            },
            Event::NotReady => {
                sw.pos = self.next_live_pos(sw.start, sw.pos + 1);
                self.step_for(sw.start, sw.pos)
            },
            Event::Rejected => {
                self.retire_slot(b);
                sw.pos = self.next_live_pos(sw.start, sw.pos + 1);
                self.step_for(sw.start, sw.pos)
            },
        };
        proof {
            if !(ev is Accepted) {
                lemma_next_live(self@.slots, sw0.start, sw0.pos + 1);
            }
        }
        assert forall|replies: Seq<Event<T>>| replies.len() == n && replies[b as int] == ev implies #[trigger] resume(
            self@,
            sw@,
            step,
            replies,
        ) == resume(v0, sw0, Step::Poll(b), replies) by {
            if !(ev is Accepted) {
                lemma_skip_done(self@, sw0.start, sw0.pos + 1, replies);
            }
        }
        step
    }
}

} // verus!
