//! The records an outing is made of.
use vstd::prelude::*;

use crate::amount::Amount;

verus! {

/// Why a string or number is not an outing id.
#[derive(Debug)]
pub enum IdParseError {
    /// The string is not a hashid of this library's settings.
    Harsh(harsh::Error),
    /// The value decoded, but is no outing id; the message says why.
    User(&'static str),
}

impl IdParseError {
    /// The message shown to a user for this error.
    pub fn message(&self) -> (r: String)
        ensures
            r@ == (match self {
                IdParseError::Harsh(_) => "Invalid ID string provided"@,
                IdParseError::User(m) => m@,
            }),
    {
        match self {
            IdParseError::Harsh(_) => "Invalid ID string provided".to_owned(),
            IdParseError::User(m) => (*m).to_owned(),
        }
    }
}

impl From<harsh::Error> for IdParseError {
    fn from(e: harsh::Error) -> IdParseError {
        IdParseError::Harsh(e)
    }
}

impl vstd::std_specs::convert::FromSpecImpl<harsh::Error> for IdParseError {
    open spec fn obeys_from_spec() -> bool {
        true
    }

    open spec fn from_spec(v: harsh::Error) -> IdParseError {
        IdParseError::Harsh(v)
    }
}

/// The key of an outing: a non-negative database id, shown to users only as
/// a hashid.
#[derive(Clone, Copy, Debug, PartialEq, Eq)]
pub struct OutingId(i32);

impl View for OutingId {
    type V = int;

    closed spec fn view(&self) -> int {
        self.0 as int
    }
}

impl OutingId {
    #[verifier::type_invariant]
    spec fn non_negative(self) -> bool {
        self.0 >= 0
    }

    /// The outing id `id`, which must not be negative.
    pub fn try_from_i32(id: i32) -> (r: Result<OutingId, IdParseError>)
        ensures
            id >= 0 <==> r is Ok,
            r matches Ok(o) ==> o@ == id,
            r matches Err(e) ==> e matches IdParseError::User(m) && m@
                == "Outing IDs must not be negative"@,
    {
        if id < 0 {
            Err(IdParseError::User("Outing IDs must not be negative"))
        } else {
            Ok(OutingId(id))
        }
    }

    /// The database id of this outing.
    pub fn id(&self) -> (r: i32)
        ensures
            r == self@,
            r >= 0,
    {
        proof {
            use_type_invariant(self);
        }
        self.0
    }
}

/// A point in time, in microseconds since the Unix epoch (UTC).
#[derive(Clone, Copy, Debug, PartialEq, Eq, Structural)]
pub struct Timestamp {
    pub micros: i64,
}

/// A request to create an outing, joined by its creator.
#[derive(Clone, Debug, PartialEq, Eq)]
pub struct OutingNew {
    pub name: String,
    pub person_name: String,
}

/// An outing as stored.
#[derive(Clone, Debug, PartialEq, Eq)]
pub struct Outing {
    pub outing_id: OutingId,
    pub created_at: Timestamp,
    pub name: String,
}

/// A record that carries a participant's name.
#[derive(Clone, Debug, PartialEq, Eq)]
pub struct Named {
    pub name: String,
}

/// An outing with the names of everyone who joined it.
#[derive(Clone, Debug, PartialEq, Eq)]
pub struct OutingDetails {
    pub outing_id: OutingId,
    pub created_at: Timestamp,
    pub name: String,
    pub people: Vec<String>,
}

impl OutingDetails {
    /// The outing `outing` with the participants `names`, in order.
    pub fn new(outing: Outing, names: Vec<Named>) -> (r: Self)
        ensures
            r.outing_id == outing.outing_id,
            r.created_at == outing.created_at,
            r.name@ == outing.name@,
            r.people@.len() == names@.len(),
            forall|i: int| 0 <= i < names@.len() ==> #[trigger] r.people@[i]@ == names@[i].name@,
    {
        let mut people: Vec<String> = Vec::new();
        let mut i: usize = 0;
        while i < names.len()
            invariant
                i <= names@.len(),
                people@.len() == i,
                forall|j: int| 0 <= j < i ==> #[trigger] people@[j]@ == names@[j].name@,
            decreases names.len() - i,
        {
            people.push(names[i].name.clone());
            i = i + 1;
        }
        OutingDetails {
            outing_id: outing.outing_id,
            created_at: outing.created_at,
            name: outing.name,
            people,
        }
    }
}

/// A participant of an outing.
#[derive(Clone, Debug, PartialEq, Eq)]
pub struct OutingPerson {
    pub outing_id: OutingId,
    pub name: String,
}

/// An expense as stored: `person_name` paid `amount` into the outing.
#[derive(Clone, Debug, PartialEq, Eq)]
pub struct Expense {
    pub expense_id: i32,
    pub created_at: Timestamp,
    pub outing_id: OutingId,
    pub person_name: String,
    pub amount: Amount,
    pub description: Option<String>,
}

/// A request to record an expense; the payer joins the outing if they had
/// not.
#[derive(Clone, Debug, PartialEq, Eq)]
pub struct ExpenseNew {
    pub outing_id: OutingId,
    pub person_name: String,
    pub amount: Amount,
    pub description: Option<String>,
}

/// The total of all expenses of an outing.
#[derive(Clone, Copy, Debug, PartialEq, Eq)]
pub struct Balance {
    pub total: Amount,
}

/// A participant of an outing with their signed deviation from the group's
/// average contribution: positive when they paid less than the average and
/// owe the group, negative when the group owes them.
#[derive(Clone, Debug, PartialEq, Eq)]
pub struct PersonDiff {
    pub name: String,
    pub diff_from_avg: Amount,
}

/// One payment of a settlement: `from` pays `amount` to `to`.
#[derive(Clone, Debug, PartialEq, Eq)]
pub struct OutingResult {
    pub from: String,
    pub to: String,
    pub amount: Amount,
}

} // verus!
