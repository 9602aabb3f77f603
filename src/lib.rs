//! Shared-expense bookkeeping for group outings: fixed-point amounts, each
//! participant's deviation from the group average, the greedy plan of
//! payments that settles those deviations, and the hashids users see in
//! place of outing ids.

pub mod amount;
pub mod balance;
pub mod hashid;
pub mod models;
pub mod responses;
pub mod settle;
pub mod settle_laws;

pub use amount::Amount;
pub use balance::{compute_diffs, PersonTotal};
pub use hashid::IdCodec;
pub use models::{
    Balance, Expense, ExpenseNew, IdParseError, Named, Outing, OutingDetails, OutingId,
    OutingNew, OutingPerson, OutingResult, PersonDiff, Timestamp,
};
pub use responses::{bad_request, internal_error};
pub use settle::{compute_settlement, settle_diffs};
