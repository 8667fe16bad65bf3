use questlog::forest::build_forest;
use questlog::quest::{Chain, Quest, Status, Tier};
use questlog::store::QuestLog;

fn row(id: i64, objective: &str, chain_id: Option<i64>) -> Quest {
    Quest {
        id,
        chain_id,
        objective: objective.to_string(),
        status: Status::Pending,
        tier: Tier::Common,
    }
}

fn ids_preorder(chains: &[Chain], out: &mut Vec<i64>) {
    for c in chains {
        out.push(c.id());
        ids_preorder(c.chains(), out);
    }
}

#[test]
fn builds_nested_chains() {
    let quests = vec![
        row(1, "Defeat dragon", None),
        row(2, "Find sword", Some(1)),
        row(3, "Sharpen sword", Some(2)),
        row(4, "Train stamina", Some(1)),
    ];
    let forest = build_forest(quests);
    assert_eq!(forest.len(), 1);
    let root = &forest[0];
    assert_eq!(root.id(), 1);
    assert_eq!(root.objective(), "Defeat dragon");
    assert_eq!(root.chains().len(), 2);
    let c2 = &root.chains()[0];
    let c4 = &root.chains()[1];
    assert_eq!(c2.id(), 2);
    assert_eq!(c4.id(), 4);
    assert_eq!(c2.chains().len(), 1);
    assert_eq!(c2.chains()[0].id(), 3);
    assert_eq!(c2.chains()[0].objective(), "Sharpen sword");
    assert!(c4.chains().is_empty());
}

#[test]
fn flattening_covers_every_quest_once() {
    let quests = vec![
        row(1, "a", None),
        row(2, "b", Some(1)),
        row(3, "c", None),
        row(4, "d", Some(2)),
        row(5, "e", Some(3)),
        row(6, "f", Some(1)),
    ];
    let forest = build_forest(quests);
    let mut seen = Vec::new();
    ids_preorder(&forest, &mut seen);
    seen.sort();
    assert_eq!(seen, vec![1, 2, 3, 4, 5, 6]);
}

#[test]
fn roots_are_parentless_and_in_order() {
    let quests = vec![
        row(1, "a", None),
        row(2, "b", None),
        row(3, "c", Some(1)),
        row(4, "d", None),
    ];
    let forest = build_forest(quests);
    let root_ids: Vec<i64> = forest.iter().map(|c| c.id()).collect();
    assert_eq!(root_ids, vec![1, 2, 4]);
    assert_eq!(forest[0].chains().len(), 1);
    assert_eq!(forest[0].chains()[0].id(), 3);
    assert!(forest[1].chains().is_empty());
    assert!(forest[2].chains().is_empty());
}

#[test]
fn empty_log_gives_empty_forest() {
    let forest = build_forest(Vec::new());
    assert!(forest.is_empty());
    let log = QuestLog::new();
    assert!(log.get_all_chains().is_empty());
}

#[test]
fn store_forest_matches_rows() {
    let mut log = QuestLog::new();
    log.add_quest(&Quest::new("a".to_string(), Status::Pending, Tier::Common, None)).unwrap();
    log.add_quest(&Quest::new("b".to_string(), Status::Ongoing, Tier::Rare, Some(1))).unwrap();
    log.add_quest(&Quest::new("c".to_string(), Status::Waiting, Tier::Epic, Some(1))).unwrap();
    let forest = log.get_all_chains();
    assert_eq!(forest.len(), 1);
    let root = &forest[0];
    assert_eq!(root.objective(), "a");
    assert_eq!(root.chains().len(), 2);
    assert_eq!(root.chains()[0].objective(), "b");
    assert_eq!(root.chains()[0].status(), Status::Ongoing);
    assert_eq!(root.chains()[1].objective(), "c");
    assert_eq!(root.chains()[1].tier(), Tier::Epic);
}
