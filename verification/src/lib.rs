//! Verified core of a submodule-aware recursive rebase tool.
//!
//! A rebase of a repository that contains submodules must rewrite history in
//! every nested repository so that rewritten parent commits reference
//! rewritten child commits.  This crate holds the logic of that operation:
//! reference-name classification ([`names`]), the per-repository
//! commit-identity maps ([`commit_map`]), tree lookup and submodule-pointer
//! substitution ([`tree`]), the repository model the driver is verified
//! against ([`repo`]), the forest traversal with the per-node rebase driver
//! and the finalization and rollback passes ([`driver`]), and the pre-flight
//! pinning decisions ([`pinning`]).  The binary shell around it performs the
//! object-store calls and the terminal prompts, and delegates every decision
//! on plain values here.

pub mod names;
pub mod commit_map;
pub mod tree;
pub mod repo;
pub mod driver;
pub mod pinning;
pub mod clock;

pub use names::sub_path_to_string;
