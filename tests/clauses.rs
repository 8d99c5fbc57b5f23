use async_select::clause::{count_branches, Clause};
use async_select::table::{select_biased, select_default, ConfigError, Fairness, Selector};

fn wild(n: usize) -> Vec<Clause> {
    vec![Clause::Branch(true); n]
}

#[test]
fn test_count() {
    assert_eq!(count_branches(&wild(0)), 0);
    assert_eq!(count_branches(&wild(1)), 1);
    assert_eq!(count_branches(&wild(5)), 5);
    assert_eq!(count_branches(&wild(10)), 10);
    assert_eq!(count_branches(&wild(20)), 20);
    assert_eq!(count_branches(&wild(64)), 64);
}

#[test]
fn count_skips_default_and_complete() {
    let clauses = vec![Clause::Default, Clause::Branch(false), Clause::Complete, Clause::Branch(true)];
    assert_eq!(count_branches(&clauses), 2);
}

#[test]
fn builds_branches_in_order() {
    let clauses = vec![Clause::Branch(true), Clause::Default, Clause::Branch(false), Clause::Branch(true)];
    let sel = select_biased(&clauses).unwrap();
    assert_eq!(sel.branch_count(), 3);
    assert!(sel.is_active(0));
    assert!(!sel.is_active(1));
    assert!(sel.is_active(2));
    assert!(!sel.is_active(3));
    assert_eq!(sel.completed_count(), 1);
    assert!(sel.has_default());
    assert!(!sel.has_complete());
    assert_eq!(sel.fairness(), Fairness::Biased);
}

#[test]
fn default_entry_point_rotates() {
    let sel = select_default(&wild(3)).unwrap();
    assert_eq!(sel.fairness(), Fairness::Rotating);
    assert_eq!(sel.completed_count(), 0);
    let sel = Selector::new(&wild(2), Fairness::Biased).unwrap();
    assert_eq!(sel.fairness(), Fairness::Biased);
}

#[test]
fn repeated_default_is_refused() {
    let clauses = vec![Clause::Default, Clause::Branch(true), Clause::Default];
    assert_eq!(select_biased(&clauses).err(), Some(ConfigError::RepeatedDefault));
}

#[test]
fn repeated_complete_is_refused() {
    let clauses = vec![Clause::Complete, Clause::Branch(true), Clause::Complete];
    assert_eq!(select_default(&clauses).err(), Some(ConfigError::RepeatedComplete));
}

#[test]
fn first_repeated_clause_decides_the_error() {
    let clauses = vec![Clause::Default, Clause::Complete, Clause::Complete, Clause::Default];
    assert_eq!(select_biased(&clauses).err(), Some(ConfigError::RepeatedComplete));
    let clauses = vec![Clause::Default, Clause::Complete, Clause::Default, Clause::Complete];
    assert_eq!(select_biased(&clauses).err(), Some(ConfigError::RepeatedDefault));
}

#[test]
fn no_branch_is_refused() {
    let none = |d: bool, c: bool| Some(ConfigError::NoBranch { has_default: d, has_complete: c });
    assert_eq!(select_biased(&vec![]).err(), none(false, false));
    assert_eq!(select_biased(&vec![Clause::Default]).err(), none(true, false));
    assert_eq!(select_biased(&vec![Clause::Complete]).err(), none(false, true));
    assert_eq!(select_biased(&vec![Clause::Complete, Clause::Default]).err(), none(true, true));
}

#[test]
fn disabled_branches_only_still_build() {
    let sel = select_biased(&vec![Clause::Branch(false), Clause::Branch(false)]).unwrap();
    assert_eq!(sel.branch_count(), 2);
    assert_eq!(sel.completed_count(), 2);
}
