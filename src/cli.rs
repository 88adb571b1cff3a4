//! The commands on accounts and balances, as plain values.
use vstd::prelude::*;

verus! {

/// What to do with the account itself.
pub enum AccountCommands {
    /// Name the account.
    Add { name: String },
    /// Show the account.
    Show,
}

/// What to do with balances.
pub enum BalanceCommands {
    /// Settle the expenses of the period `date`.
    Show { date: String },
}

} // verus!
