//! Core of a duplicate-image finder.
//!
//! The library discovers image files under a directory tree (`scan`,
//! `paths`, `ignore`), computes a perceptual hash for each one through a
//! persistent content-addressed cache (`hashing`, `cache`), bounds the
//! pipeline's buffering and accounts for every item (`pipeline`, `queue`),
//! and groups files whose hashes collide (`aggregate`, `outcome`). What the
//! result writer needs decided stands in `output` and `display`; the run's
//! configuration in `settings`.
//!
//! Directory reading, thread scheduling and the final symlink creation are
//! left to an unverified driver; every decision the driver acts on is made
//! here, under a contract.

pub mod aggregate;
pub mod cache;
pub mod display;
pub mod hashing;
pub mod ignore;
pub mod outcome;
pub mod output;
pub mod paths;
pub mod pipeline;
pub mod queue;
pub mod scan;
pub mod settings;
