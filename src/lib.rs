//! Installs game mods from zip archives over a game's files and puts the
//! game's own files back later. Every file is moved aside to a `.bak` backup
//! before it is overwritten, and a ledger of overwritten paths, kept in the
//! stored configuration, drives the restore.
//!
//! Patching and restoring are runs (`patcher::PatchRun`, `patcher::UnpatchRun`)
//! that ask the caller for one file-system action at a time and take its
//! answer; `model` proves that, answered by a file system, they do to the
//! install directory what `model::after_patch` and `model::after_unpatch`
//! state. The lookup of install paths is reached through the traits
//! `config::PathResolver` and `config::ConfigFile`.
use vstd::prelude::*;

pub mod config;
pub mod error;
pub mod manifest;
pub mod model;
pub mod patcher;
pub mod paths;

verus! {

} // verus!
