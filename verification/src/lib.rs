//! Compositor-independent domain models and validation logic for GNOME
//! display layouts.
pub mod geometry;
pub mod identity;
pub mod text;
pub mod transform;
pub mod units;
pub mod mode;
pub mod seqs;
pub mod monitor;
pub mod layout;
pub mod state;
pub mod connect;
pub mod validation;
pub mod normalization;
pub mod validation_laws;
pub mod snap;
pub mod mirror;
pub mod layout_ops;
pub mod profile;
pub mod prefs;
pub mod error;
pub mod mock;
pub mod serialize;
pub mod parse;
pub mod compare;
pub mod report;
pub mod fixtures;
pub mod ui_state;
pub mod watchdog;
pub mod paths;
pub mod editor;
pub mod describe;
pub mod loading;
pub mod panel;

use vstd::prelude::*;

verus! {

} // verus!
