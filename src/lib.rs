//! Keeps one canonical skills tree mirrored into several destination trees.
//!
//! The library decides; the program around it reads and writes the disk.
//! `transform` turns a skill document into a TOML command file, `paths`
//! maps source paths onto destination identities, and `sync` plans the
//! writes and removals of a full sync, an incremental update and an orphan
//! sweep, with a model of what those plans do to a destination tree.

pub mod config;
pub mod destination;
pub mod model;
pub mod paths;
pub mod preflight;
pub mod sync;
pub mod transform;

pub use config::Config;
pub use destination::{Destination, DestinationType};
pub use sync::SkillSync;
