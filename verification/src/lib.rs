//! Cycle a PipeWire audio server's sample rate among a set of allowed values.
//!
//! The allowed rates are parsed from a marked block of a window-manager
//! config file; the next rate is the cyclic successor of the currently
//! active one; the choice is persisted as a small canonical config file,
//! and the audio services are restarted by a plan with one fallback.
//!
//! This crate holds the verified logic: parsing, rate selection, the
//! canonical config text, and the restart decision plan. Reading files,
//! invoking services and showing notifications belong to the binary
//! around it.

pub mod conf;
pub mod cycle;
pub mod parse;
pub mod restart;
