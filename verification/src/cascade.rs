//! The cascade operator's decision layer: what a chain-wide action
//! (complete, abandon) on a quest should do, given the quest's current
//! status and whether it has children.
//!
//! The caller performs the confirmation prompt itself: it asks the user
//! only when the plan says so, and applies the cascade through
//! [`QuestLog::update_chain_status`] or [`QuestLog::delete_chain`].

use vstd::prelude::*;

use crate::error::QuestError;
use crate::quest::Status;
use crate::store::{seq_has_child, QuestLog};

verus! {

/// A chain-wide status overwrite: completing or abandoning a quest and
/// its whole chain.
#[derive(Clone, Copy, Debug, PartialEq, Eq, Structural)]
pub enum CascadeAction {
    Complete,
    Abandon,
}

impl CascadeAction {
    /// The status that the action writes over the chain.
    pub open spec fn target_spec(self) -> Status {
        match self {
            CascadeAction::Complete => Status::Completed,
            CascadeAction::Abandon => Status::Abandoned,
        }
    }

    /// Copies the status that the action writes over the chain.
    pub fn target(&self) -> (r: Status)
        ensures
            r == self.target_spec(),
    {
        match self {
            CascadeAction::Complete => Status::Completed,
            CascadeAction::Abandon => Status::Abandoned,
        }
    }
}

/// What a cascading action on a quest should do.
#[derive(Clone, Copy, Debug, PartialEq, Eq, Structural)]
pub enum CascadePlan {
    /// The quest already carries the target status: report a no-op and
    /// change nothing.
    AlreadyDone,
    /// The quest is a main quest, so the action would cascade over its
    /// whole chain: obtain explicit user confirmation first. Declining
    /// leaves all data unchanged and is reported as a skipped action.
    NeedsConfirmation,
    /// Apply the cascade without asking.
    Ready,
}

impl QuestLog {
    /// The plan for a cascading action on the quest with the given id.
    pub open spec fn cascade_plan_spec(self, id: i64, action: CascadeAction) -> CascadePlan {
        if self.row_with(id).status == action.target_spec() {
            CascadePlan::AlreadyDone
        } else if seq_has_child(self.quests(), id) {
            CascadePlan::NeedsConfirmation
        } else {
            CascadePlan::Ready
        }
    }

    /// Decides what a cascading action on the quest does: nothing if the
    /// quest already carries the target status (a reported no-op, never
    /// an error), otherwise the overwrite — after user confirmation iff
    /// the quest has at least one child. Fails with `NotFound` iff the id
    /// has no row; the store is never touched.
    pub fn plan_cascade(&self, id: i64, action: CascadeAction) -> (r: Result<
        CascadePlan,
        QuestError,
    >)
        requires
            self.wf(),
        ensures
            match r {
                Ok(plan) => self.has_id(id) && plan == self.cascade_plan_spec(id, action),
                Err(e) => !self.has_id(id) && e == QuestError::NotFound,
            },
    {
        let quest = match self.get_quest(id) {
            Ok(q) => q,
            Err(e) => {
                return Err(e);
            },
        };
        if quest.status == action.target() {
            Ok(CascadePlan::AlreadyDone)
        } else if self.is_main_quest(id) {
            Ok(CascadePlan::NeedsConfirmation)
        } else {
            Ok(CascadePlan::Ready)
        }
    }
}

} // verus!
