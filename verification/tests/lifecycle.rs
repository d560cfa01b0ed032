use branchfs::error::BranchError;
use branchfs::state::BranchState;
use branchfs::state::State;

fn fresh() -> State {
    State::new("/base".to_string(), "/ws".to_string())
}

fn state_of<'a>(s: &'a State, name: &str) -> &'a BranchState {
    &s.branches.iter().find(|b| b.0 == name).unwrap().1.state
}

#[test]
fn new_state_has_only_the_default_branch() {
    let s = fresh();
    assert_eq!(s.base_path, "/base");
    assert_eq!(s.workspace_path, "/ws");
    assert_eq!(s.epoch, 0);
    assert_eq!(s.branches.len(), 1);
    assert_eq!(s.branches[0].0, "main");
    assert_eq!(s.branches[0].1.parent, None);
    assert_eq!(s.branches[0].1.state, BranchState::Active);
}

#[test]
fn create_then_commit_then_commit_again() {
    let mut s = fresh();
    assert_eq!(s.create("f", "main"), Ok(()));
    assert_eq!(*state_of(&s, "f"), BranchState::Active);
    assert_eq!(s.commit("f"), Ok(()));
    assert_eq!(*state_of(&s, "f"), BranchState::Committed);
    assert_eq!(s.commit("f"), Err(BranchError::InvalidState));
    assert_eq!(*state_of(&s, "f"), BranchState::Committed);
}

#[test]
fn create_taken_name_fails() {
    let mut s = fresh();
    assert_eq!(s.create("f", "main"), Ok(()));
    assert_eq!(s.create("f", "main"), Err(BranchError::AlreadyExists));
    assert_eq!(s.create("main", "f"), Err(BranchError::AlreadyExists));
}

#[test]
fn create_unknown_parent_fails() {
    let mut s = fresh();
    assert_eq!(s.create("f", "ghost"), Err(BranchError::UnknownParent));
    // A branch cannot be its own parent: the name is free, so the parent
    // lookup fails.
    assert_eq!(s.create("f", "f"), Err(BranchError::UnknownParent));
}

#[test]
fn commit_unknown_branch_fails() {
    let mut s = fresh();
    assert_eq!(s.commit("ghost"), Err(BranchError::NotFound));
}

#[test]
fn invalidate_transitions_and_protections() {
    let mut s = fresh();
    assert_eq!(s.create("f", "main"), Ok(()));
    assert_eq!(s.commit("f"), Ok(()));
    // Valid from any state but protected on the default branch.
    assert_eq!(s.invalidate("f"), Ok(()));
    assert_eq!(*state_of(&s, "f"), BranchState::Invalid);
    assert_eq!(s.invalidate("f"), Ok(()));
    assert_eq!(s.invalidate("main"), Err(BranchError::InvalidState));
    assert_eq!(s.invalidate("ghost"), Err(BranchError::NotFound));
    // An invalid branch can no longer be committed.
    assert_eq!(s.commit("f"), Err(BranchError::InvalidState));
}

#[test]
fn delete_referenced_parent_fails() {
    let mut s = fresh();
    assert_eq!(s.create("f", "main"), Ok(()));
    assert_eq!(s.create("g", "f"), Ok(()));
    assert_eq!(s.delete("f"), Err(BranchError::DanglingReference));
    assert_eq!(s.delete("g"), Ok(()));
    assert_eq!(s.delete("f"), Ok(()));
    assert_eq!(s.delete("f"), Err(BranchError::NotFound));
}

#[test]
fn delete_default_branch_fails() {
    let mut s = fresh();
    assert_eq!(s.delete("main"), Err(BranchError::InvalidState));
    // With a child present the dangling check wins.
    assert_eq!(s.create("f", "main"), Ok(()));
    assert_eq!(s.delete("main"), Err(BranchError::DanglingReference));
}

#[test]
fn epoch_advances_on_every_mutation_and_only_then() {
    let mut s = fresh();
    assert_eq!(s.epoch, 0);
    assert_eq!(s.create("f", "main"), Ok(()));
    assert_eq!(s.epoch, 1);
    assert_eq!(s.create("f", "main"), Err(BranchError::AlreadyExists));
    assert_eq!(s.epoch, 1);
    assert_eq!(s.commit("f"), Ok(()));
    assert_eq!(s.epoch, 2);
    assert_eq!(s.commit("f"), Err(BranchError::InvalidState));
    assert_eq!(s.epoch, 2);
    assert_eq!(s.invalidate("f"), Ok(()));
    assert_eq!(s.epoch, 3);
    assert_eq!(s.delete("f"), Ok(()));
    assert_eq!(s.epoch, 4);
}

#[test]
fn failed_transitions_leave_the_state_unchanged() {
    let mut s = fresh();
    assert_eq!(s.create("f", "main"), Ok(()));
    let before = s.clone();
    assert_eq!(s.create("f", "main"), Err(BranchError::AlreadyExists));
    assert_eq!(s, before);
    assert_eq!(s.create("g", "ghost"), Err(BranchError::UnknownParent));
    assert_eq!(s, before);
    assert_eq!(s.commit("ghost"), Err(BranchError::NotFound));
    assert_eq!(s, before);
    assert_eq!(s.invalidate("main"), Err(BranchError::InvalidState));
    assert_eq!(s, before);
    assert_eq!(s.delete("main"), Err(BranchError::DanglingReference));
    assert_eq!(s, before);
}

#[test]
fn io_error_carries_its_message() {
    let e = BranchError::Io("disk full".to_string());
    assert_ne!(e, BranchError::NotFound);
    assert_eq!(e, BranchError::Io("disk full".to_string()));
}
