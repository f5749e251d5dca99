//! A tamper-evident, time-indexed record of jury pool membership, with
//! reproducible random selection from the pool as it stood at a chosen epoch.
//!
//! * [`history`]: the activity timeline of one juror and its byte encoding.
//! * [`store`]: the membership store, an authenticated map from juror to
//!   history, and the pool at an epoch.
//! * [`selection`]: seeded selection from a pool and its expansion.
//! * [`batch`]: the entries that wait to be committed, and the commitment
//!   that certifies them.
//! * [`ledger`]: the committed blocks, chained by hash.
//! * [`registry`]: the three under one owner, and the operations on them.
//! * [`replay`]: what the entries say of membership, and why the stored
//!   histories say the same.
//! * [`certified`], [`digest`]: the authenticated tree and the hashes that
//!   the record is built on.
//! * [`ident`], [`lex`], [`error`]: identifiers, their order, and the
//!   reasons for which an operation is refused.

pub mod batch;
pub mod certified;
pub mod digest;
pub mod error;
pub mod history;
pub mod ident;
pub mod ledger;
pub mod lex;
pub mod registry;
pub mod replay;
pub mod selection;
pub mod store;
