//! Clause lists: the branches, `default` and `complete` clauses of one
//! `select`, with every branch's activation condition already evaluated.

use vstd::prelude::*;

verus! {

/// One clause of a `select`, in declaration order.
#[derive(Clone, Copy, Debug, PartialEq, Eq, Structural)]
pub enum Clause {
    /// A branch; the flag is its activation condition, evaluated once.
    Branch(bool),
    /// The `default` clause: run when a sweep finds nothing ready.
    Default,
    /// The `complete` clause: run when every branch has completed.
    Complete,
}

/// The activation flags of the branches of `s`, in declaration order.
pub open spec fn branch_flags(s: Seq<Clause>) -> Seq<bool>
    decreases s.len(),
{
    if s.len() == 0 {
        Seq::empty()
    } else {
        let rest = branch_flags(s.drop_last());
        match s.last() {
            Clause::Branch(enabled) => rest.push(enabled),
            _ => rest,
        }
    }
}

/// Whether a `default` clause stands among the first `p` clauses of `s`.
pub open spec fn default_before(s: Seq<Clause>, p: int) -> bool {
    exists|j: int| 0 <= j < p && #[trigger] s[j] == Clause::Default
}

/// Whether a `complete` clause stands among the first `p` clauses of `s`.
pub open spec fn complete_before(s: Seq<Clause>, p: int) -> bool {
    exists|j: int| 0 <= j < p && #[trigger] s[j] == Clause::Complete
}

/// Clause `p` of `s` repeats a `default` or `complete` clause declared
/// before it.
pub open spec fn repeats_at(s: Seq<Clause>, p: int) -> bool {
    ||| s[p] == Clause::Default && default_before(s, p)
    ||| s[p] == Clause::Complete && complete_before(s, p)
}

/// Clause `p` of `s` is the first one that repeats an earlier clause.
pub open spec fn first_repeat_at(s: Seq<Clause>, p: int) -> bool {
    &&& 0 <= p < s.len()
    &&& repeats_at(s, p)
    &&& forall|q: int| 0 <= q < p ==> !#[trigger] repeats_at(s, q)
}

/// No `default` or `complete` clause of `s` is declared twice.
pub open spec fn no_repeats(s: Seq<Clause>) -> bool {
    forall|q: int| 0 <= q < s.len() ==> !#[trigger] repeats_at(s, q)
}

/// Counts the branch clauses of `clauses`, leaving out `default` and
/// `complete`.
pub fn count_branches(clauses: &Vec<Clause>) -> (n: usize)
    ensures
        n == branch_flags(clauses@).len(),
{
    let mut n: usize = 0;
    let mut i: usize = 0;
    while i < clauses.len()
        invariant
            i <= clauses.len(),
            n == branch_flags(clauses@.take(i as int)).len(),
            n <= i,
        decreases clauses.len() - i,
    {
        assert(clauses@.take(i + 1).drop_last() =~= clauses@.take(i as int));
        if let Clause::Branch(_) = clauses[i] {
            n = n + 1;
        }
        i = i + 1;
    }
    assert(clauses@.take(i as int) =~= clauses@);
    n
}

} // verus!
