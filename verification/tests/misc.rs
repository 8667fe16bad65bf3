use questlog::color::{Color, Foreground};
use questlog::error::QuestError;
use questlog::item::Item;
use questlog::quest::{Chain, Quest, Status, Tier, UNASSIGNED_ID};
use questlog::session::Key;
use questlog::task;

#[test]
fn quest_new_uses_placeholder_id() {
    let q = Quest::new("ride".to_string(), Status::Ongoing, Tier::Rare, Some(3));
    assert_eq!(q.id(), UNASSIGNED_ID);
    assert_eq!(q.id(), -1);
    assert_eq!(q.objective(), "ride");
    assert_eq!(q.status(), Status::Ongoing);
    assert_eq!(q.tier(), Tier::Rare);
    assert_eq!(q.chain_id(), Some(3));
}

#[test]
fn status_mut_changes_only_the_status() {
    let mut q = Quest::new("ride".to_string(), Status::Pending, Tier::Rare, None);
    *q.status_mut() = Status::Abandoned;
    assert_eq!(q.status(), Status::Abandoned);
    assert_eq!(q.objective(), "ride");
    assert_eq!(q.tier(), Tier::Rare);
}

#[test]
fn chain_mirrors_its_main_quest() {
    let q = Quest::new("chart the isles".to_string(), Status::Waiting, Tier::Epic, None);
    let c = Chain::new(q);
    assert_eq!(c.id(), -1);
    assert_eq!(c.objective(), "chart the isles");
    assert_eq!(c.status(), Status::Waiting);
    assert_eq!(c.tier(), Tier::Epic);
    assert!(c.chains().is_empty());
}

#[test]
fn status_codes_round_trip() {
    let all = [
        (Status::Pending, 0),
        (Status::Ongoing, 1),
        (Status::Completed, 2),
        (Status::Waiting, 3),
        (Status::Abandoned, 4),
    ];
    for (s, code) in all {
        assert_eq!(s.as_i64(), code);
        assert_eq!(Status::from_i64(code), Ok(s));
    }
    assert_eq!(Status::from_i64(5), Err(QuestError::InvalidEncoding));
    assert_eq!(Status::from_i64(-1), Err(QuestError::InvalidEncoding));
    assert_eq!(Status::Pending.as_str(), "Pending");
    assert_eq!(Status::Abandoned.as_str(), "Abandoned");
}

#[test]
fn tier_codes_round_trip() {
    let all = [
        (Tier::Common, 0),
        (Tier::Rare, 1),
        (Tier::Epic, 2),
        (Tier::Legendary, 3),
    ];
    for (t, code) in all {
        assert_eq!(t.as_i64(), code);
        assert_eq!(Tier::from_i64(code), Ok(t));
    }
    assert_eq!(Tier::from_i64(4), Err(QuestError::InvalidEncoding));
    assert_eq!(Tier::from_i64(-3), Err(QuestError::InvalidEncoding));
    assert_eq!(Tier::Common.as_str(), "✦ Common");
    assert_eq!(Tier::Legendary.as_str(), "✦ Legendary");
}

#[test]
fn error_descriptions() {
    assert_eq!(QuestError::NotFound.describe(), "quest not found");
    assert_eq!(QuestError::ConstraintViolation.describe(), "constraint violation");
    assert_eq!(
        QuestError::InvalidEncoding.describe(),
        "stored quest data is inconsistent"
    );
}

#[test]
fn foreground_wraps_text_in_escapes() {
    let colored = Foreground::color(&"hello".to_string(), Color::Blue);
    assert_eq!(colored, "\x1b[38;5;81mhello\x1b[0m");
    let reset = Foreground::color(&String::new(), Color::End);
    assert_eq!(reset, "\x1b[0m\x1b[0m");
    assert_eq!(Color::Yellow.as_ansi(), "\x1b[38;5;227m");
    assert_eq!(Color::BrightRed.as_ansi(), "\x1b[1;38;5;203m");
}

#[test]
fn item_holds_its_message() {
    let item = Item::new("restock rations".to_string());
    assert_eq!(item.message(), "restock rations");
}

#[test]
fn session_key_code() {
    assert_eq!(Key::ActiveProject.as_i64(), 0);
}

#[test]
fn task_priority_strings() {
    assert_eq!(task::Priority::Low.as_str(), "low");
    assert_eq!(task::Priority::Critical.as_str(), "critical");
    assert_eq!(
        task::Priority::High.as_display(),
        "\x1b[38;5;203mhigh\x1b[0m"
    );
    assert!(matches!(task::Priority::from_i64(2), Ok(task::Priority::High)));
    assert_eq!(task::Priority::from_i64(4), Err(QuestError::InvalidEncoding));
}

#[test]
fn task_status_strings_and_colors() {
    assert_eq!(task::Status::NotStarted.as_str(), "not-started");
    assert_eq!(task::Status::Overdue.as_str(), "overdue");
    assert_eq!(task::Status::Completed.color(), Color::Green);
    assert_eq!(
        task::Status::Blocked.as_display(),
        "\x1b[38;5;203mblocked\x1b[0m"
    );
    assert!(matches!(task::Status::from_i64(1), Ok(task::Status::InProgress)));
    assert_eq!(task::Status::from_i64(9), Err(QuestError::InvalidEncoding));
}
