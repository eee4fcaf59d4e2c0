//! A shadow snapshot store for a working tree: content-addressed objects,
//! numbered turns, line diffs, blame and restore.

pub mod args;
pub mod asking;
pub mod audit;
pub mod blame;
pub mod calendar;
pub mod cli;
pub mod commands;
pub mod compare;
pub mod comparing;
pub mod crediting;
pub mod decimal;
pub mod diff;
pub mod finding;
pub mod glob;
pub mod guard;
pub mod hunks;
pub mod ignoring;
pub mod inspect;
pub mod inventory;
pub mod listing;
pub mod lookup;
pub mod myers;
pub mod naming;
pub mod object;
pub mod order;
pub mod owing;
pub mod patching;
pub mod picking;
pub mod readback;
pub mod reading;
pub mod reporting;
pub mod restoration;
pub mod restore;
pub mod safekeeping;
pub mod script;
pub mod sha1;
pub mod snapshot;
pub mod soundness;
pub mod statistics;
pub mod store;
pub mod succession;
pub mod survey;
pub mod telling;
pub mod text;
pub mod timefmt;
pub mod tree;
pub mod walker;
pub mod walking;
pub mod wording;
pub mod writing;

use vstd::prelude::*;

verus! {

/// Crate version, single source of truth for `--version` and JSON envelopes.
pub const VERSION: &'static str = "0.1.0";

} // verus!
