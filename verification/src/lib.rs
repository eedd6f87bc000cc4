//! Declarative recurring event sources, deduplicated by identity.
//!
//! An application declares, each cycle, the set of event sources it wants
//! active. Every source is described by a [`subscription::Recipe`] whose
//! identity digest is a deterministic function of its variant and its
//! construction parameters. The [`registry::Registry`] diffs the declared
//! set against the previously active set: identities seen for the first
//! time are started, identities no longer declared are cancelled, and
//! identities present in both cycles keep their running sequence untouched.

pub mod executor;
pub mod registry;
pub mod subscription;
pub mod time;
