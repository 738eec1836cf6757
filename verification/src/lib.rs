//! The asset hub: the bookkeeping behind an asset daemon.
//!
//! The hub keeps three tables in step with what importers report: the metadata
//! of each asset, an index from each asset to the assets that were built from
//! it, and a numbered log of what changed. It also keeps the listeners that
//! are told when a batch of changes is committed.
//!
//! Each operation says in its contract what it does to the tables. The modules
//! whose names end in `_laws` prove what follows for the hub as a whole.
pub mod affected;
pub mod asset;
pub mod change;
pub mod change_laws;
pub mod hub;
pub mod index;
pub mod index_laws;
pub mod listener;
pub mod listener_laws;
pub mod message;
pub mod metadata;
pub mod metadata_laws;
pub mod outcome_laws;
pub mod record;
pub mod table;
pub mod transaction;
pub mod update;
pub mod update_laws;
pub mod view_laws;
pub mod walk;
pub mod walk_laws;

