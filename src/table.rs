//! The branch table of one `select` invocation: one slot per branch, which
//! holds an operation until the branch reaches a terminal state.

use vstd::prelude::*;
use crate::clause::{
    Clause, branch_flags, complete_before, default_before, first_repeat_at, no_repeats, repeats_at,
};

verus! {

/// The order in which a sweep visits the branches.
#[derive(Clone, Copy, Debug, PartialEq, Eq, Structural)]
pub enum Fairness {
    /// Every sweep starts at branch 0: earlier branches win ties.
    Biased,
    /// Every sweep starts at a branch derived from a seed and goes round.
    Rotating,
}

/// A configuration error, found before any operation is advanced.
#[derive(Clone, Copy, Debug, PartialEq, Eq, Structural)]
pub enum ConfigError {
    /// A second `default` clause.
    RepeatedDefault,
    /// A second `complete` clause.
    RepeatedComplete,
    /// No branch at all; the flags tell which other clauses were given.
    NoBranch { has_default: bool, has_complete: bool },
}

/// The mathematical model of a [`Selector`].
pub struct SelectorView {
    /// `true` for a branch whose slot still holds its operation.
    pub slots: Seq<bool>,
    pub has_default: bool,
    pub has_complete: bool,
    pub fairness: Fairness,
}

/// The number of slots of `s` that have reached a terminal state.
pub open spec fn count_done(s: Seq<bool>) -> nat
    decreases s.len(),
{
    if s.len() == 0 {
        0
    } else {
        count_done(s.drop_last()) + if s.last() { 0nat } else { 1nat }
    }
}

/// Every slot of `s` has reached a terminal state.
pub open spec fn all_done(s: Seq<bool>) -> bool {
    forall|i: int| 0 <= i < s.len() ==> !#[trigger] s[i]
}

/// `r` is what building a table from `clauses` gives: the table of their
/// branches in order when no `default` or `complete` clause repeats and
/// there is a branch; else the error of the first repeated clause; else the
/// missing-branch error.
pub open spec fn builds(clauses: Seq<Clause>, fairness: Fairness, r: Result<Selector, ConfigError>) -> bool {
    match r {
        Ok(sel) => {
            &&& no_repeats(clauses)
            &&& branch_flags(clauses).len() > 0
            &&& sel.wf()
            &&& sel@.slots == branch_flags(clauses)
            &&& sel@.has_default == default_before(clauses, clauses.len() as int)
            &&& sel@.has_complete == complete_before(clauses, clauses.len() as int)
            &&& sel@.fairness == fairness
        },
        Err(ConfigError::RepeatedDefault) => exists|p: int|
            first_repeat_at(clauses, p) && #[trigger] clauses[p] == Clause::Default,
        Err(ConfigError::RepeatedComplete) => exists|p: int|
            first_repeat_at(clauses, p) && #[trigger] clauses[p] == Clause::Complete,
        Err(ConfigError::NoBranch { has_default, has_complete }) => {
            &&& no_repeats(clauses)
            &&& branch_flags(clauses).len() == 0
            &&& has_default == default_before(clauses, clauses.len() as int)
            &&& has_complete == complete_before(clauses, clauses.len() as int)
        },
    }
}

/// The branch table of one invocation, with its completion counter.
pub struct Selector {
    pub(crate) slots: Vec<bool>,
    pub(crate) done: usize,
    pub(crate) has_default: bool,
    pub(crate) has_complete: bool,
    pub(crate) fairness: Fairness,
}

impl View for Selector {
    type V = SelectorView;

    closed spec fn view(&self) -> SelectorView {
        SelectorView {
            slots: self.slots@,
            has_default: self.has_default,
            has_complete: self.has_complete,
            fairness: self.fairness,
        }
    }
}

impl Selector {
    /// The table has at least one branch and its counter counts exactly the
    /// slots in a terminal state.
    pub closed spec fn wf(&self) -> bool {
        &&& self.slots@.len() > 0
        &&& self.done as nat == count_done(self.slots@)
    }

    /// Unfolds the model and the well-formedness of the table, for the
    /// modules of this crate that work on its fields.
    pub(crate) proof fn lemma_unfold(&self)
        ensures
            self@.slots == self.slots@,
            self@.has_default == self.has_default,
            self@.has_complete == self.has_complete,
            self@.fairness == self.fairness,
            self.wf() <==> (self.slots@.len() > 0 && self.done as nat == count_done(self.slots@)),
    {
    }

    /// The number of branches.
    pub fn branch_count(&self) -> (n: usize)
        ensures
            n == self@.slots.len(),
    {
        self.slots.len()
    }

    /// Whether branch `i` still holds its operation. After building, these
    /// are the branches whose operation is to be constructed.
    pub fn is_active(&self, i: usize) -> (r: bool)
        ensures
            r == (i < self@.slots.len() && self@.slots[i as int]),
    {
        i < self.slots.len() && self.slots[i]
    }

    /// The completion counter: how many branches are terminal.
    pub fn completed_count(&self) -> (n: usize)
        requires
            self.wf(),
        ensures
            n == count_done(self@.slots),
    {
        self.done
    }

    /// Whether a `default` clause was given.
    pub fn has_default(&self) -> (r: bool)
        ensures
            r == self@.has_default,
    {
        self.has_default
    }

    /// Whether a `complete` clause was given.
    pub fn has_complete(&self) -> (r: bool)
        ensures
            r == self@.has_complete,
    {
        self.has_complete
    }

    /// The fairness the table was built with.
    pub fn fairness(&self) -> (r: Fairness)
        ensures
            r == self@.fairness,
    {
        self.fairness
    }

    /// Builds the table for `clauses`, whose activation conditions are
    /// already evaluated: a disabled branch starts out completed.
    pub fn new(clauses: &Vec<Clause>, fairness: Fairness) -> (r: Result<Selector, ConfigError>)
        ensures
            builds(clauses@, fairness, r),
    {
        let mut slots: Vec<bool> = Vec::new();
        let mut done: usize = 0;
        let mut has_default = false;
        let mut has_complete = false;
        let mut i: usize = 0;
        while i < clauses.len()
            invariant
                i <= clauses.len(),
                slots@ == branch_flags(clauses@.take(i as int)),
                done as nat == count_done(slots@),
                done <= slots@.len() <= i,
                has_default == default_before(clauses@, i as int),
                has_complete == complete_before(clauses@, i as int),
                forall|q: int| 0 <= q < i ==> !#[trigger] repeats_at(clauses@, q),
            decreases clauses.len() - i,
        {
            let ghost s = clauses@;
            assert(s.take(i + 1).drop_last() =~= s.take(i as int));
            match clauses[i] {
                Clause::Branch(enabled) => {
                    assert(!repeats_at(s, i as int));
                    proof {
                        lemma_count_done_push(slots@, enabled);
                        lemma_count_done_bound(slots@.push(enabled));
                    }
                    slots.push(enabled);
                    if !enabled {
                        done = done + 1;
                    }
                },
                Clause::Default => {
                    if has_default {
                        assert(first_repeat_at(s, i as int));
                        return Err(ConfigError::RepeatedDefault);
                    }
                    assert(!repeats_at(s, i as int));
                    has_default = true;
                },
                Clause::Complete => {
                    if has_complete {
                        assert(first_repeat_at(s, i as int));
                        return Err(ConfigError::RepeatedComplete);
                    }
                    assert(!repeats_at(s, i as int));
                    has_complete = true;
                },
            }
            i = i + 1;
            assert(has_default == default_before(s, i as int)) by {
                if s[i - 1] == Clause::Default {
                    assert(s[i - 1] == Clause::Default);
                }
            }
            assert(has_complete == complete_before(s, i as int)) by {
                if s[i - 1] == Clause::Complete {
                    assert(s[i - 1] == Clause::Complete);
                }
            }
        }
        assert(clauses@.take(i as int) =~= clauses@);
        if slots.len() == 0 {
            return Err(ConfigError::NoBranch { has_default, has_complete });
        }
        Ok(Selector { slots, done, has_default, has_complete, fairness })
    }
}

/// Builds the table for `clauses` with rotating fairness: each sweep starts
/// at a branch picked by the seed it is given.
pub fn select_default(clauses: &Vec<Clause>) -> (r: Result<Selector, ConfigError>)
    ensures
        builds(clauses@, Fairness::Rotating, r),
{
    Selector::new(clauses, Fairness::Rotating)
}

/// Builds the table for `clauses` with biased fairness: each sweep starts at
/// branch 0.
pub fn select_biased(clauses: &Vec<Clause>) -> (r: Result<Selector, ConfigError>)
    ensures
        builds(clauses@, Fairness::Biased, r),
{
    Selector::new(clauses, Fairness::Biased)
}

/// At most every slot is terminal.
pub(crate) proof fn lemma_count_done_bound(s: Seq<bool>)
    ensures
        count_done(s) <= s.len(),
    decreases s.len(),
{
    if s.len() > 0 {
        lemma_count_done_bound(s.drop_last());
    }
}

/// Appending a slot adds one to the count when the slot is terminal.
proof fn lemma_count_done_push(s: Seq<bool>, b: bool)
    ensures
        count_done(s.push(b)) == count_done(s) + if b { 0nat } else { 1nat },
{
    assert(s.push(b).drop_last() =~= s);
}

/// Retiring a live slot adds one to the count.
pub(crate) proof fn lemma_count_done_retire(s: Seq<bool>, b: int)
    requires
        0 <= b < s.len(),
        s[b],
    ensures
        count_done(s.update(b, false)) == count_done(s) + 1,
    decreases s.len(),
{
    let t = s.update(b, false);
    if b == s.len() - 1 {
        assert(t.drop_last() =~= s.drop_last());
    } else {
        assert(t.drop_last() =~= s.drop_last().update(b, false));
        lemma_count_done_retire(s.drop_last(), b);
    }
}

/// The count reaches the number of slots exactly when every slot is
/// terminal.
pub(crate) proof fn lemma_all_done_count(s: Seq<bool>)
    ensures
        all_done(s) <==> count_done(s) == s.len(),
    decreases s.len(),
{
    if s.len() > 0 {
        let r = s.drop_last();
        lemma_all_done_count(r);
        lemma_count_done_bound(r);
        if all_done(s) {
            assert forall|i: int| 0 <= i < r.len() implies !#[trigger] r[i] by {
                assert(!s[i]);
            }
        }
        if count_done(s) == s.len() {
            assert forall|i: int| 0 <= i < s.len() implies !#[trigger] s[i] by {
                if i < r.len() {
                    assert(!r[i]);
                }
            }
        }
    }
}

} // verus!
