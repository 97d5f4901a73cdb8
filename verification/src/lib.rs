//! A verified day-index maintainer for a small ledger of dated transactions.
//!
//! The ledger stores transactions (id, description, amount, type, date) and a
//! derived set of day markers: one marker for each date that currently has at
//! least one transaction. The operations here keep that derived set coherent
//! with the primary records under insertion, update, and deletion.

pub mod date;
pub mod storage;
