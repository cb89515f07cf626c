//! Tool-stub bundles.
//!
//! A bundle keeps executable stubs for the commands that a configuration or a
//! manifest declares in one directory. This library decides what a sync, a
//! status report, an upgrade or a removal of a bundle does; reading and writing
//! files is left to its callers, who hand it what they found and carry out the
//! steps that it gives back.
//!
//! - [`text`], [`paths`], [`name_map`], [`sift`] and [`digest`] hold texts, paths,
//!   sorted maps, filtered lists and hashes.
//! - [`error`] and [`message`] hold what can go wrong and how that is told, and
//!   [`node`] and [`owner`] what stands at a path and to which bundle it belongs.
//! - [`command`], [`command_spec`], [`document`], [`merge`] and [`desired`] make
//!   stubs of declared commands.
//! - [`bundle`] and [`request`] find the bundle that a request means and its
//!   recorded state.
//! - [`status`], [`plan`], [`removal`] and [`upgrade`] compare what is desired,
//!   recorded and found.
//! - [`transaction`], [`commit`] and [`recovery`] carry a sync out, and undo one
//!   that was interrupted.
//! - [`world`], [`atomicity`] and [`outcome`] state and prove what holds of whole
//!   syncs and recoveries.
pub mod atomicity;
pub mod bundle;
pub mod command;
pub mod command_spec;
pub mod commit;
pub mod desired;
pub mod digest;
pub mod document;
pub mod error;
pub mod merge;
pub mod message;
pub mod name_map;
pub mod node;
pub mod outcome;
pub mod owner;
pub mod paths;
pub mod plan;
pub mod recovery;
pub mod removal;
pub mod request;
pub mod sift;
pub mod status;
pub mod text;
pub mod transaction;
pub mod upgrade;
pub mod world;
