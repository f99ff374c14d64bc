//! loot: source control in which visibility belongs to content.
//!
//! Content is sealed object by object, permission is possession of a content
//! key, and history is a graph of changes whose trees name sealed objects.

pub mod ancestry;
pub mod attestation;
pub mod bridge;
pub mod bridge_laws;
pub mod bundle_codec;
pub mod buoy;
pub mod burn;
pub mod command;
pub mod converge;
pub mod crypto;
pub mod engine;
pub mod escrow;
pub mod forge;
pub mod format;
pub mod harbor;
pub mod hex;
pub mod identity;
pub mod ledger;
pub mod liveness;
pub mod manifest;
pub mod oplog;
pub mod orchestrator;
pub mod path;
pub mod path_map;
pub mod peers;
pub mod policy;
pub mod repo;
pub mod sealed;
pub mod seqs;
pub mod sorted;
pub mod split;
pub mod store;
pub mod text;
pub mod types;
pub mod value;
pub mod verdict;

pub use repo::Repo;
pub use types::{Change, MergeOutcome, Oid, RepoError, RepoPath, SyncBundle, Tree, Visibility};
