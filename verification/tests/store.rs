use questlog::cascade::{CascadeAction, CascadePlan};
use questlog::error::QuestError;
use questlog::quest::{Quest, Status, Tier};
use questlog::store::{QuestLog, TransitionOutcome};

fn quest(objective: &str, status: Status, tier: Tier, chain_id: Option<i64>) -> Quest {
    Quest::new(objective.to_string(), status, tier, chain_id)
}

fn sample_chain() -> QuestLog {
    // 1 "Defeat dragon" (root), 2 "Find sword" (parent 1),
    // 3 "Sharpen sword" (parent 2), 4 "Train stamina" (parent 1)
    let mut log = QuestLog::new();
    let q1 = quest("Defeat dragon", Status::Pending, Tier::Common, None);
    let q2 = quest("Find sword", Status::Pending, Tier::Common, Some(1));
    let q3 = quest("Sharpen sword", Status::Pending, Tier::Common, Some(2));
    let q4 = quest("Train stamina", Status::Pending, Tier::Common, Some(1));
    assert_eq!(log.add_quest(&q1), Ok(1));
    assert_eq!(log.add_quest(&q2), Ok(2));
    assert_eq!(log.add_quest(&q3), Ok(3));
    assert_eq!(log.add_quest(&q4), Ok(4));
    log
}

#[test]
fn add_assigns_ascending_ids() {
    let mut log = QuestLog::new();
    assert_eq!(log.next_id(), 1);
    let id1 = log.add_quest(&quest("a", Status::Pending, Tier::Common, None)).unwrap();
    let id2 = log.add_quest(&quest("b", Status::Ongoing, Tier::Rare, None)).unwrap();
    assert_eq!(id1, 1);
    assert_eq!(id2, 2);
    assert_eq!(log.len(), 2);
    assert_eq!(log.next_id(), 3);
}

#[test]
fn add_get_round_trip() {
    let mut log = QuestLog::new();
    log.add_quest(&quest("root", Status::Pending, Tier::Common, None)).unwrap();
    let added = quest("Slay the hydra", Status::Waiting, Tier::Legendary, Some(1));
    let id = log.add_quest(&added).unwrap();
    let got = log.get_quest(id).unwrap();
    assert_eq!(got.id(), id);
    assert_eq!(got.objective(), "Slay the hydra");
    assert_eq!(got.status(), Status::Waiting);
    assert_eq!(got.tier(), Tier::Legendary);
    assert_eq!(got.chain_id(), Some(1));
}

#[test]
fn add_rejects_missing_parent() {
    let mut log = QuestLog::new();
    let orphan = quest("orphan", Status::Pending, Tier::Common, Some(7));
    assert_eq!(log.add_quest(&orphan), Err(QuestError::ConstraintViolation));
    assert_eq!(log.len(), 0);
    assert_eq!(log.next_id(), 1);
}

#[test]
fn get_missing_is_not_found() {
    let log = QuestLog::new();
    assert!(matches!(log.get_quest(1), Err(QuestError::NotFound)));
}

#[test]
fn update_overwrites_fields() {
    let mut log = sample_chain();
    let mut q = log.get_quest(2).unwrap();
    *q.status_mut() = Status::Ongoing;
    let q = Quest::new("Find the lost sword".to_string(), q.status(), Tier::Epic, Some(1));
    let q = with_id(q, 2);
    assert_eq!(log.update_quest(&q), Ok(()));
    let got = log.get_quest(2).unwrap();
    assert_eq!(got.objective(), "Find the lost sword");
    assert_eq!(got.status(), Status::Ongoing);
    assert_eq!(got.tier(), Tier::Epic);
    assert_eq!(got.chain_id(), Some(1));
}

// Builds a quest carrying a concrete id, the way a stored row does.
fn with_id(q: Quest, id: i64) -> Quest {
    Quest {
        id,
        chain_id: q.chain_id,
        objective: q.objective,
        status: q.status,
        tier: q.tier,
    }
}

#[test]
fn update_missing_is_not_found() {
    let mut log = sample_chain();
    let q = with_id(quest("x", Status::Pending, Tier::Common, None), 9);
    assert_eq!(log.update_quest(&q), Err(QuestError::NotFound));
}

#[test]
fn update_rejects_bad_parent() {
    let mut log = sample_chain();
    // quest 2 cannot reference the nonexistent quest 9 ...
    let q = with_id(quest("Find sword", Status::Pending, Tier::Common, Some(9)), 2);
    assert_eq!(log.update_quest(&q), Err(QuestError::ConstraintViolation));
    // ... nor a quest with a larger id than its own.
    let q = with_id(quest("Find sword", Status::Pending, Tier::Common, Some(3)), 2);
    assert_eq!(log.update_quest(&q), Err(QuestError::ConstraintViolation));
}

#[test]
fn has_children_scenario() {
    let log = sample_chain();
    assert!(log.is_main_quest(2)); // quest 3 references it
    assert!(!log.is_main_quest(3));
    assert!(log.is_main_quest(1));
    assert!(!log.is_main_quest(4));
}

#[test]
fn cascade_delete_scenario() {
    let mut log = sample_chain();
    log.delete_chain(1);
    assert_eq!(log.len(), 0);
    // ids are never reused
    assert_eq!(log.next_id(), 5);
}

#[test]
fn delete_inner_chain_keeps_the_rest() {
    let mut log = sample_chain();
    log.delete_chain(2);
    assert_eq!(log.len(), 2);
    assert!(log.get_quest(1).is_ok());
    assert!(matches!(log.get_quest(2), Err(QuestError::NotFound)));
    assert!(matches!(log.get_quest(3), Err(QuestError::NotFound)));
    assert!(log.get_quest(4).is_ok());
}

#[test]
fn delete_missing_is_a_safe_no_op() {
    let mut log = sample_chain();
    log.delete_chain(42);
    assert_eq!(log.len(), 4);
}

#[test]
fn status_cascade_touches_exactly_the_subtree() {
    let mut log = sample_chain();
    log.update_chain_status(2, Status::Abandoned);
    assert_eq!(log.get_quest(1).unwrap().status(), Status::Pending);
    assert_eq!(log.get_quest(2).unwrap().status(), Status::Abandoned);
    assert_eq!(log.get_quest(3).unwrap().status(), Status::Abandoned);
    assert_eq!(log.get_quest(4).unwrap().status(), Status::Pending);
}

#[test]
fn cascade_equivalence_scenario() {
    // The rows whose status the cascade overwrites are exactly the rows
    // the cascading delete removes, on the same snapshot.
    let mut colored = sample_chain();
    colored.update_chain_status(2, Status::Completed);
    let mut pruned = sample_chain();
    pruned.delete_chain(2);
    for id in 1..=4 {
        let touched = colored.get_quest(id).unwrap().status() == Status::Completed;
        let removed = pruned.get_quest(id).is_err();
        assert_eq!(touched, removed, "quest {}", id);
    }
}

#[test]
fn accept_sets_single_quest_ongoing() {
    let mut log = sample_chain();
    assert_eq!(log.accept_quest(2), Ok(TransitionOutcome::Applied));
    assert_eq!(log.get_quest(2).unwrap().status(), Status::Ongoing);
    // no cascade: the child quest is untouched
    assert_eq!(log.get_quest(3).unwrap().status(), Status::Pending);
}

#[test]
fn accept_on_ongoing_is_a_reported_no_op() {
    let mut log = sample_chain();
    assert_eq!(log.accept_quest(2), Ok(TransitionOutcome::Applied));
    assert_eq!(log.accept_quest(2), Ok(TransitionOutcome::NoOp));
    assert_eq!(log.get_quest(2).unwrap().status(), Status::Ongoing);
    assert!(matches!(log.accept_quest(9), Err(QuestError::NotFound)));
}

#[test]
fn cascade_plans() {
    let mut log = sample_chain();
    // a main quest needs confirmation
    assert_eq!(log.plan_cascade(1, CascadeAction::Complete), Ok(CascadePlan::NeedsConfirmation));
    // a leaf is ready without asking
    assert_eq!(log.plan_cascade(4, CascadeAction::Abandon), Ok(CascadePlan::Ready));
    // a missing quest aborts the action
    assert_eq!(log.plan_cascade(9, CascadeAction::Complete), Err(QuestError::NotFound));
    // completing an already-Completed quest is a no-op, even with children
    log.update_chain_status(1, Status::Completed);
    assert_eq!(log.plan_cascade(1, CascadeAction::Complete), Ok(CascadePlan::AlreadyDone));
    // abandoning an already-Abandoned quest likewise
    log.update_chain_status(4, Status::Abandoned);
    assert_eq!(log.plan_cascade(4, CascadeAction::Abandon), Ok(CascadePlan::AlreadyDone));
    assert_eq!(CascadeAction::Complete.target(), Status::Completed);
    assert_eq!(CascadeAction::Abandon.target(), Status::Abandoned);
}
