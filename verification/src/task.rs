//! Task priorities and statuses, with their display strings and colors.

use vstd::prelude::*;

use crate::color::{Color, Foreground};
use crate::error::QuestError;

verus! {

/// Represents possible task priorities.
#[derive(Clone, Copy, Debug, PartialEq, Eq, Structural)]
pub enum Priority {
    Low,
    Medium,
    High,
    Critical,
}

impl Priority {
    /// The display text of each priority.
    pub open spec fn text_spec(self) -> Seq<char> {
        match self {
            Priority::Low => "low"@,
            Priority::Medium => "medium"@,
            Priority::High => "high"@,
            Priority::Critical => "critical"@,
        }
    }

    /// The display color of each priority.
    pub open spec fn color_spec(self) -> Color {
        match self {
            Priority::Low => Color::LightGreen,
            Priority::Medium => Color::Orange,
            Priority::High => Color::Red,
            Priority::Critical => Color::BrightRed,
        }
    }

    /// Maps the priority to the corresponding rich display
    /// representation: its text wrapped in its color's escapes.
    pub fn as_display(&self) -> (r: String)
        ensures
            r@ == self.color_spec().ansi_spec() + self.text_spec() + Color::End.ansi_spec(),
    {
        let text = String::from_str(self.as_str());
        match self {
            Priority::Low => Foreground::color(&text, Color::LightGreen),
            Priority::Medium => Foreground::color(&text, Color::Orange),
            Priority::High => Foreground::color(&text, Color::Red),
            Priority::Critical => Foreground::color(&text, Color::BrightRed),
        }
    }

    /// Maps the priority to the corresponding string representation.
    pub fn as_str(&self) -> (r: &'static str)
        ensures
            r@ == self.text_spec(),
    {
        match self {
            Priority::Low => "low",
            Priority::Medium => "medium",
            Priority::High => "high",
            Priority::Critical => "critical",
        }
    }

    /// The integer under which each priority is stored.
    pub open spec fn code_spec(self) -> int {
        match self {
            Priority::Low => 0,
            Priority::Medium => 1,
            Priority::High => 2,
            Priority::Critical => 3,
        }
    }

    /// Decodes a stored integer; an integer outside `0..=3` indicates
    /// store corruption and is rejected as `InvalidEncoding`.
    pub fn from_i64(value: i64) -> (r: Result<Priority, QuestError>)
        ensures
            0 <= value <= 3 ==> r is Ok && r->Ok_0.code_spec() == value,
            !(0 <= value <= 3) ==> r == Result::<Priority, QuestError>::Err(
                QuestError::InvalidEncoding,
            ),
    {
        match value {
            0 => Ok(Priority::Low),
            1 => Ok(Priority::Medium),
            2 => Ok(Priority::High),
            3 => Ok(Priority::Critical),
            _ => Err(QuestError::InvalidEncoding),
        }
    }
}

/// Represents possible task statuses.
#[derive(Clone, Copy, Debug, PartialEq, Eq, Structural)]
pub enum Status {
    NotStarted,
    InProgress,
    Completed,
    Blocked,
    Overdue,
}

impl Status {
    /// The display text of each status.
    pub open spec fn text_spec(self) -> Seq<char> {
        match self {
            Status::NotStarted => "not-started"@,
            Status::InProgress => "in-progress"@,
            Status::Completed => "completed"@,
            Status::Blocked => "blocked"@,
            Status::Overdue => "overdue"@,
        }
    }

    /// The display color of each status.
    pub open spec fn color_spec(self) -> Color {
        match self {
            Status::NotStarted => Color::Blue,
            Status::InProgress => Color::Yellow,
            Status::Completed => Color::Green,
            Status::Blocked => Color::Red,
            Status::Overdue => Color::BrightRed,
        }
    }

    /// Maps the status to the corresponding rich display representation:
    /// its text wrapped in its color's escapes.
    pub fn as_display(&self) -> (r: String)
        ensures
            r@ == self.color_spec().ansi_spec() + self.text_spec() + Color::End.ansi_spec(),
    {
        let text = String::from_str(self.as_str());
        Foreground::color(&text, self.color())
    }

    /// Maps the status to the corresponding string representation.
    pub fn as_str(&self) -> (r: &'static str)
        ensures
            r@ == self.text_spec(),
    {
        match self {
            Status::NotStarted => "not-started",
            Status::InProgress => "in-progress",
            Status::Completed => "completed",
            Status::Blocked => "blocked",
            Status::Overdue => "overdue",
        }
    }

    /// Copies the status color.
    pub fn color(&self) -> (r: Color)
        ensures
            r == self.color_spec(),
    {
        match self {
            Status::NotStarted => Color::Blue,
            Status::InProgress => Color::Yellow,
            Status::Completed => Color::Green,
            Status::Blocked => Color::Red,
            Status::Overdue => Color::BrightRed,
        }
    }

    /// The integer under which each status is stored.
    pub open spec fn code_spec(self) -> int {
        match self {
            Status::NotStarted => 0,
            Status::InProgress => 1,
            Status::Completed => 2,
            Status::Blocked => 3,
            Status::Overdue => 4,
        }
    }

    /// Decodes a stored integer; an integer outside `0..=4` indicates
    /// store corruption and is rejected as `InvalidEncoding`.
    pub fn from_i64(value: i64) -> (r: Result<Status, QuestError>)
        ensures
            0 <= value <= 4 ==> r is Ok && r->Ok_0.code_spec() == value,
            !(0 <= value <= 4) ==> r == Result::<Status, QuestError>::Err(
                QuestError::InvalidEncoding,
            ),
    {
        match value {
            0 => Ok(Status::NotStarted),
            1 => Ok(Status::InProgress),
            2 => Ok(Status::Completed),
            3 => Ok(Status::Blocked),
            4 => Ok(Status::Overdue),
            _ => Err(QuestError::InvalidEncoding),
        }
    }
}

} // verus!
