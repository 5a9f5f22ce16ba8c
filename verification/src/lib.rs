//! Manga Bay: the verified core of a peer-to-peer manga node.
//!
//! The node's storage, HTTP API and swarm plumbing live outside this crate;
//! what lives here is the logic they run: content hashing and chunking,
//! page decoding, catalogue versions and the sync decision, peer address
//! bookkeeping, the upload/download ratio rule, and the state machine that
//! tracks outstanding network requests.
pub mod api;
pub mod archive;
pub mod chunking;
pub mod engine;
pub mod hashing;
pub mod models;
pub mod node;
pub mod peers;
pub mod pending;
pub mod ratio;
pub mod text;
pub mod version;

pub use api::{
    AppError, ConnectPeerRequest, CreateChapterPage, CreateMangaRequest, NetworkOutcome,
    NodeInfoResponse,
};
pub use engine::IngestParams;
pub use hashing::calculate_sha256;
pub use models::{
    AppRequest, ChunkMetadata, CreateSeriesParams, MangaMetadata, MangaVersion, NodeInfo,
    RequestKind,
};
pub use node::NodeState;
pub use peers::{KnownPeers, PeerPersistence};
pub use text::{decimal, lower_hex, to_decimal, to_lower_hex};
