//! A forecast-first double-entry ledger: its rules, as executable Rust with proved contracts.
//!
//! Everything here works on plain values. Reading the book from its database, speaking the
//! request protocol and writing files are the business of the program around this library.

pub mod text;
pub mod lists;
pub mod digits;
pub mod tally;
pub mod money;
pub mod interest;
pub mod date;
pub mod recur;
pub mod book;
pub mod roles;
pub mod fx;
pub mod entry;
pub mod db;
pub mod paths;
pub mod sorting;
pub mod residual;
pub mod link;
pub mod graph;
pub mod journey;
pub mod ledger;
pub mod analysis;
pub mod ask;
pub mod commitments;
pub mod outlook;
pub mod months;
pub mod limits;
pub mod brief;
pub mod wording;
pub mod rules;
pub mod regroup;
pub mod shape;
pub mod revise;
pub mod reschedule;
pub mod select;
pub mod amends;
pub mod sub;
pub mod impact;
pub mod undo;
pub mod standing;
pub mod marks;
pub mod restore;
pub mod review;
pub mod desk;
pub mod plans;
pub mod requests;
pub mod load;
pub mod browse;
pub mod change;
pub mod export;
pub mod importer;
pub mod forecast;
pub mod dayfold;
pub mod forecast_laws;
pub mod walk_laws;
pub mod slot_laws;
pub mod edit_laws;
pub mod trace_laws;
pub mod import_laws;
pub mod brief_laws;
pub mod month_laws;
pub mod caveat_laws;
pub mod standing_laws;
pub mod change_laws;
pub mod impact_laws;
pub mod plan_laws;
pub mod entry_laws;
pub mod rate_laws;
pub mod desk_laws;
pub mod list_laws;
pub mod load_laws;
pub mod calendar_laws;
pub mod report_laws;
pub mod record_laws;
