//! Quests, quest chains, and the status and tier enums with their
//! stored integer encodings.

use vstd::prelude::*;

use crate::error::QuestError;

verus! {

/// A quest status, such as pending, ongoing, or completed.
///
/// Stored as an integer: 0 Pending, 1 Ongoing, 2 Completed, 3 Waiting,
/// 4 Abandoned.
#[derive(Clone, Copy, Debug, PartialEq, Eq, Structural)]
pub enum Status {
    Pending,
    Ongoing,
    Completed,
    Waiting,
    Abandoned,
}

impl Status {
    /// The integer under which each status is stored.
    pub open spec fn code_spec(self) -> int {
        match self {
            Status::Pending => 0,
            Status::Ongoing => 1,
            Status::Completed => 2,
            Status::Waiting => 3,
            Status::Abandoned => 4,
        }
    }

    /// Encodes the status as its stored integer.
    pub fn as_i64(&self) -> (r: i64)
        ensures
            r == self.code_spec(),
    {
        match self {
            Status::Pending => 0,
            Status::Ongoing => 1,
            Status::Completed => 2,
            Status::Waiting => 3,
            Status::Abandoned => 4,
        }
    }

    /// Decodes a stored integer; an integer outside `0..=4` indicates
    /// store corruption and is rejected as `InvalidEncoding`.
    pub fn from_i64(value: i64) -> (r: Result<Status, QuestError>)
        ensures
            0 <= value <= 4 ==> r is Ok && r->Ok_0.code_spec() == value,
            !(0 <= value <= 4) ==> r == Result::<Status, QuestError>::Err(
                QuestError::InvalidEncoding,
            ),
    {
        match value {
            0 => Ok(Status::Pending),
            1 => Ok(Status::Ongoing),
            2 => Ok(Status::Completed),
            3 => Ok(Status::Waiting),
            4 => Ok(Status::Abandoned),
            _ => Err(QuestError::InvalidEncoding),
        }
    }

    /// The display text of each status.
    pub open spec fn text_spec(self) -> Seq<char> {
        match self {
            Status::Pending => "Pending"@,
            Status::Ongoing => "Ongoing"@,
            Status::Completed => "Completed"@,
            Status::Waiting => "Waiting"@,
            Status::Abandoned => "Abandoned"@,
        }
    }

    /// Maps the status to its display text.
    pub fn as_str(&self) -> (r: &'static str)
        ensures
            r@ == self.text_spec(),
    {
        match self {
            Status::Pending => "Pending",
            Status::Ongoing => "Ongoing",
            Status::Completed => "Completed",
            Status::Waiting => "Waiting",
            Status::Abandoned => "Abandoned",
        }
    }
}

/// A quest tier, indicating its difficulty or importance.
///
/// Stored as an integer: 0 Common, 1 Rare, 2 Epic, 3 Legendary. Each tier
/// is displayed with a fixed leading glyph.
#[derive(Clone, Copy, Debug, PartialEq, Eq, Structural)]
pub enum Tier {
    Common,
    Rare,
    Epic,
    Legendary,
}

impl Tier {
    /// The integer under which each tier is stored.
    pub open spec fn code_spec(self) -> int {
        match self {
            Tier::Common => 0,
            Tier::Rare => 1,
            Tier::Epic => 2,
            Tier::Legendary => 3,
        }
    }

    /// Encodes the tier as its stored integer.
    pub fn as_i64(&self) -> (r: i64)
        ensures
            r == self.code_spec(),
    {
        match self {
            Tier::Common => 0,
            Tier::Rare => 1,
            Tier::Epic => 2,
            Tier::Legendary => 3,
        }
    }

    /// Decodes a stored integer; an integer outside `0..=3` indicates
    /// store corruption and is rejected as `InvalidEncoding`.
    pub fn from_i64(value: i64) -> (r: Result<Tier, QuestError>)
        ensures
            0 <= value <= 3 ==> r is Ok && r->Ok_0.code_spec() == value,
            !(0 <= value <= 3) ==> r == Result::<Tier, QuestError>::Err(
                QuestError::InvalidEncoding,
            ),
    {
        match value {
            0 => Ok(Tier::Common),
            1 => Ok(Tier::Rare),
            2 => Ok(Tier::Epic),
            3 => Ok(Tier::Legendary),
            _ => Err(QuestError::InvalidEncoding),
        }
    }

    /// The display text of each tier, with its leading glyph.
    pub open spec fn text_spec(self) -> Seq<char> {
        match self {
            Tier::Common => "✦ Common"@,
            Tier::Rare => "✦ Rare"@,
            Tier::Epic => "✦ Epic"@,
            Tier::Legendary => "✦ Legendary"@,
        }
    }

    /// Maps the tier to its display text, glyph included.
    pub fn as_str(&self) -> (r: &'static str)
        ensures
            r@ == self.text_spec(),
    {
        match self {
            Tier::Common => "✦ Common",
            Tier::Rare => "✦ Rare",
            Tier::Epic => "✦ Epic",
            Tier::Legendary => "✦ Legendary",
        }
    }
}

/// A quest to be completed, including a tier and a status.
///
/// `id` is assigned by the store and is `-1` until the quest is persisted.
/// `chain_id`, when present, references the id of the parent quest.
pub struct Quest {
    pub id: i64,
    pub chain_id: Option<i64>,
    pub objective: String,
    pub status: Status,
    pub tier: Tier,
}

/// The placeholder identifier of a quest that the store has not assigned
/// a real id yet.
pub const UNASSIGNED_ID: i64 = -1;

impl Quest {
    /// True when `other` carries the same record content: equal id,
    /// parent reference, objective text, status and tier.
    pub open spec fn same_record(self, other: Quest) -> bool {
        &&& self.id == other.id
        &&& self.chain_id == other.chain_id
        &&& self.objective@ == other.objective@
        &&& self.status == other.status
        &&& self.tier == other.tier
    }

    /// Constructs a new quest with the placeholder id.
    pub fn new(objective: String, status: Status, tier: Tier, chain_id: Option<i64>) -> (r: Self)
        ensures
            r.id == UNASSIGNED_ID,
            r.chain_id == chain_id,
            r.objective == objective,
            r.status == status,
            r.tier == tier,
    {
        Self { id: UNASSIGNED_ID, chain_id, objective, status, tier }
    }

    /// Copies the identifier.
    pub fn id(&self) -> (r: i64)
        ensures
            r == self.id,
    {
        self.id
    }

    /// Copies the parent reference.
    pub fn chain_id(&self) -> (r: Option<i64>)
        ensures
            r == self.chain_id,
    {
        self.chain_id
    }

    /// Borrows the objective.
    pub fn objective(&self) -> (r: &String)
        ensures
            r == &self.objective,
    {
        &self.objective
    }

    /// Copies the status.
    pub fn status(&self) -> (r: Status)
        ensures
            r == self.status,
    {
        self.status
    }

    /// Borrows a mutable reference of the status.
    pub fn status_mut(&mut self) -> (r: &mut Status)
        ensures
            *r == old(self).status,
            *final(self) == (Quest { status: *final(r), ..*old(self) }),
    {
        &mut self.status
    }

    /// Copies the tier.
    pub fn tier(&self) -> (r: Tier)
        ensures
            r == self.tier,
    {
        self.tier
    }

    /// Builds a quest with the same record content; the objective text is
    /// copied character for character.
    pub fn duplicate(&self) -> (r: Quest)
        ensures
            r.same_record(*self),
    {
        Quest {
            id: self.id,
            chain_id: self.chain_id,
            objective: self.objective.clone(),
            status: self.status,
            tier: self.tier,
        }
    }
}

/// A collection of quests: one main quest and its list of secondary quest
/// chains, in ascending id order. Chains are rebuilt fresh on every read
/// and never stored.
pub struct Chain {
    pub chains: Vec<Chain>,
    pub main: Quest,
}

impl Chain {
    /// Constructs a new quest chain with no secondary chains yet.
    pub fn new(main: Quest) -> (r: Self)
        ensures
            r.main == main,
            r.chains@ =~= Seq::<Chain>::empty(),
    {
        Self { chains: Vec::new(), main }
    }

    /// Borrows the secondary quest chains.
    pub fn chains(&self) -> (r: &Vec<Chain>)
        ensures
            r == &self.chains,
    {
        &self.chains
    }

    /// Copies the identifier of the main quest.
    pub fn id(&self) -> (r: i64)
        ensures
            r == self.main.id,
    {
        self.main.id()
    }

    /// Borrows the objective of the main quest.
    pub fn objective(&self) -> (r: &String)
        ensures
            r == &self.main.objective,
    {
        self.main.objective()
    }

    /// Copies the status of the main quest.
    pub fn status(&self) -> (r: Status)
        ensures
            r == self.main.status,
    {
        self.main.status()
    }

    /// Copies the tier of the main quest.
    pub fn tier(&self) -> (r: Tier)
        ensures
            r == self.main.tier,
    {
        self.main.tier()
    }
}

} // verus!
