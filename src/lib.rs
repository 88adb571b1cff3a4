//! Shared household expenses: people with incomes, dated expenses, and a
//! settlement engine that tells, for a period, who owes whom.
//!
//! All money is held in whole cents. Fair shares and balances are kept exact
//! by scaling them with the total income of the account (see `shares`).
pub mod cli;
pub mod handlers;
pub mod matching;
pub mod models;
pub mod period;
pub mod settlement;
pub mod shares;
pub mod validators;
