//! Transitive dynamic-library dependency resolution for PE modules.
//!
//! The crate classifies every module reachable from a set of initial
//! modules as found, unresolved or structurally invalid. The traversal is a
//! deterministic state machine: it asks its driver to look at the file
//! system and consumes the answers, so that every decision is made, and
//! verified, here.
//!
//! * [`builder`] holds the executable traversal, [`machine`] the transition
//!   system that it is proved to follow.
//! * [`classification`], [`identity`] and [`record`] hold the result.
//! * [`imports`] reads the dependency names out of an image, which
//!   [`layout`] has found readable and [`buffer`] holds where the parser
//!   can read it.
//! * [`report`] renders a classification.
//! * [`world`] models a file system that does not change; [`resolver`]
//!   says where it holds a dependency name.
//! * [`soundness`], [`visits`], [`seeding`], [`progress`] and [`closure`]
//!   state and prove what holds of every traversal.

pub mod buffer;
pub mod builder;
pub mod classification;
pub mod closure;
pub mod identity;
pub mod imports;
pub mod layout;
pub mod machine;
pub mod progress;
pub mod record;
pub mod report;
pub mod resolver;
pub mod seeding;
pub mod soundness;
pub mod visits;
pub mod world;

pub use builder::{Action, Builder, Event};
pub use classification::{ClassMap, Entry};
pub use identity::Identity;
pub use imports::{dependencies, find_deps, read_imports, RawImports, RawName};
pub use record::{DepRecord, Failure, FailureKind};
pub use report::{missing_notice, render, render_missing, Options};
