//! A shared ledger of group meal bookings ("pots"): who hosts, who has joined,
//! and what each person has eaten over time.

/// The pot store and its primitives.
pub mod storage;

/// The operations offered to callers, each a transaction on a [`storage::Storage`].
pub mod schema;
