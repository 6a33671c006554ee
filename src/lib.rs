//! Reconciliation of competitors and results gathered convention by convention.
//!
//! Result sheets give free-text rows; `raw_result` expands each row into one typed result
//! per competitor (`result_value` parses and orders the values, `vocabulary` checks the
//! fields). `registration` groups a convention's results by competitor and competition,
//! `person` merges registrants of every convention into one person per identity (`name`
//! compares names whatever their word order, spacing, case or accents), and `best` picks the
//! best result of each competition.

pub mod best;
pub mod competition;
pub mod competitor;
pub mod convention;
pub mod credentials;
pub mod download;
pub mod name;
pub mod order;
pub mod person;
pub mod raw_result;
pub mod registration;
pub mod result_entry;
pub mod result_value;
pub mod text;
pub mod vocabulary;
