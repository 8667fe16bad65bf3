use questlog::quest::{Quest, Status, Tier};
use questlog::render::{char_count, i64_to_string, render_forest, u64_to_string, Cell, Table};
use questlog::store::QuestLog;

fn sample_log() -> QuestLog {
    let mut log = QuestLog::new();
    let add = |log: &mut QuestLog, objective: &str, chain_id: Option<i64>| {
        log.add_quest(&Quest::new(
            objective.to_string(),
            Status::Pending,
            Tier::Common,
            chain_id,
        ))
        .unwrap();
    };
    add(&mut log, "Defeat dragon", None);
    add(&mut log, "Find sword", Some(1));
    add(&mut log, "Sharpen sword", Some(2));
    add(&mut log, "Train stamina", Some(1));
    log
}

#[test]
fn renderer_connectors_scenario() {
    // The objective column of the four-quest chain, connector by connector.
    let log = sample_log();
    let chains = log.get_all_chains();
    let table = render_forest(&chains);
    let objectives: Vec<&str> = table
        .rows
        .iter()
        .map(|row| row[1].content().as_str())
        .collect();
    assert_eq!(
        objectives,
        vec![
            "Defeat dragon",
            "├── Find sword",
            "│   └── Sharpen sword",
            "└── Train stamina",
        ]
    );
}

#[test]
fn rendered_table_text() {
    let log = sample_log();
    let text = log.show_quests();
    // Widths: ID 2 ("ID"), Objective 21 ("│   └── Sharpen sword"),
    // Status 7 ("Pending"), Tier 8 ("✦ Common"); one space separates
    // columns.
    let mut expected = String::new();
    expected.push_str("ID Objective             Status  Tier     ");
    expected.push_str("\n1  Defeat dragon         Pending ✦ Common ");
    expected.push_str("\n2  ├── Find sword        Pending ✦ Common ");
    expected.push_str("\n3  │   └── Sharpen sword Pending ✦ Common ");
    expected.push_str("\n4  └── Train stamina     Pending ✦ Common ");
    assert_eq!(text, expected);
}

#[test]
fn column_widths_track_the_widest_cell() {
    let mut table = Table::new(vec![Cell::from_str("a"), Cell::from_str("bbbb")]);
    assert_eq!(table.column_widths, vec![1, 4]);
    table.add(vec![Cell::from_str("xxx"), Cell::from_str("y")]);
    assert_eq!(table.column_widths, vec![3, 4]);
    table.add(vec![Cell::from_str("x"), Cell::from_str("yyyyyy")]);
    assert_eq!(table.column_widths, vec![3, 6]);
    assert_eq!(table.to_text(), "a   bbbb   \nxxx y      \nx   yyyyyy ");
}

#[test]
fn widths_count_characters_not_bytes() {
    assert_eq!(char_count("✦ Common"), 8);
    assert_eq!(char_count("│   └── "), 8);
    assert_eq!(char_count(""), 0);
    assert_eq!(char_count("plain"), 5);
    let cell = Cell::from_str("✦ Rare");
    assert_eq!(cell.width(), 6);
    assert_eq!(cell.content(), "✦ Rare");
}

#[test]
fn decimal_rendering() {
    assert_eq!(u64_to_string(0), "0");
    assert_eq!(u64_to_string(7), "7");
    assert_eq!(u64_to_string(10), "10");
    assert_eq!(u64_to_string(90210), "90210");
    assert_eq!(u64_to_string(u64::MAX), "18446744073709551615");
    assert_eq!(i64_to_string(0), "0");
    assert_eq!(i64_to_string(42), "42");
    assert_eq!(i64_to_string(-1), "-1");
    assert_eq!(i64_to_string(-90210), "-90210");
    assert_eq!(i64_to_string(i64::MAX), "9223372036854775807");
    assert_eq!(i64_to_string(i64::MIN), "-9223372036854775808");
    assert_eq!(Cell::from_i64(-12).content(), "-12");
}

#[test]
fn empty_log_renders_bare_header() {
    let log = QuestLog::new();
    assert_eq!(log.show_quests(), "ID Objective Status Tier ");
}
