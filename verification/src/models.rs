//! Plain records shared by the node, its storage and its API.
use vstd::prelude::*;

verus! {

/// Catalogue entry of a series.
#[derive(Clone, Debug)]
pub struct MangaMetadata {
    pub id: String,
    pub title: String,
    pub author: String,
    pub series_code: Option<String>,
    pub series_title: Option<String>,
    pub alternative_titles: Option<String>,
    pub created_at: i64,
}

/// One stored page (chunk) of a chapter: its content hash, the chapter it
/// belongs to, its size in bytes and its position in the chapter.
#[derive(Clone, Debug)]
pub struct ChunkMetadata {
    pub hash: String,
    pub chapter_id: String,
    pub size: i64,
    pub sequence_index: i32,
}

/// A fingerprint of what a node holds of a series, exchanged between peers
/// to decide whether to sync.
#[derive(Clone, Debug)]
pub struct MangaVersion {
    pub manga_id: String,
    pub hash: String,
    pub chapter_count: usize,
    pub created_at: i64,
}

/// What a node reports about itself.
#[derive(Clone, Debug)]
pub struct NodeInfo {
    pub peer_id: String,
    pub listeners: Vec<String>,
    pub connected_peers: Vec<String>,
}

/// Parameters for registering a new series in storage.
#[derive(Clone, Debug)]
pub struct CreateSeriesParams {
    pub title: String,
    pub author: String,
    pub series_code: Option<String>,
    pub series_title: Option<String>,
    pub alternative_titles: Option<String>,
}

/// The kinds of lookup a node asks its peers for and keeps pending.
#[derive(Clone, Copy, Debug, PartialEq, Eq)]
pub enum RequestKind {
    Manga,
    Chapters,
    ChapterDetails,
    Block,
    Version,
}

/// A request sent to a peer over the request/response protocol.
#[derive(Clone, Debug, PartialEq, Eq)]
pub enum AppRequest {
    GetBlock { block_hash: String },
    GetManga { manga_id: String },
    GetChapters { manga_id: String },
    GetChapterDetails { chapter_id: String },
    GetVersion { manga_id: String },
    GetPeers,
}

impl AppRequest {
    /// The lookup kind a request belongs to (`None` for a peer-list request).
    pub open spec fn kind(self) -> Option<RequestKind> {
        match self {
            AppRequest::GetBlock { .. } => Some(RequestKind::Block),
            AppRequest::GetManga { .. } => Some(RequestKind::Manga),
            AppRequest::GetChapters { .. } => Some(RequestKind::Chapters),
            AppRequest::GetChapterDetails { .. } => Some(RequestKind::ChapterDetails),
            AppRequest::GetVersion { .. } => Some(RequestKind::Version),
            AppRequest::GetPeers => None,
        }
    }

    /// The identifier a request asks about (empty for a peer-list request).
    pub open spec fn subject(self) -> Seq<char> {
        match self {
            AppRequest::GetBlock { block_hash } => block_hash@,
            AppRequest::GetManga { manga_id } => manga_id@,
            AppRequest::GetChapters { manga_id } => manga_id@,
            AppRequest::GetChapterDetails { chapter_id } => chapter_id@,
            AppRequest::GetVersion { manga_id } => manga_id@,
            AppRequest::GetPeers => Seq::empty(),
        }
    }

    /// Both at once: what a request is, as plain values.
    pub open spec fn summary(self) -> (Option<RequestKind>, Seq<char>) {
        (self.kind(), self.subject())
    }

    /// The request that looks up `key` for the given kind.
    pub fn for_kind(kind: RequestKind, key: String) -> (r: AppRequest)
        ensures
            r.kind() == Some(kind),
            r.subject() == key@,
    {
        match kind {
            RequestKind::Manga => AppRequest::GetManga { manga_id: key },
            RequestKind::Chapters => AppRequest::GetChapters { manga_id: key },
            RequestKind::ChapterDetails => AppRequest::GetChapterDetails { chapter_id: key },
            RequestKind::Block => AppRequest::GetBlock { block_hash: key },
            RequestKind::Version => AppRequest::GetVersion { manga_id: key },
        }
    }
}

} // verus!
