//! The single-table storage engine: a whole upload is stored as one series
//! whose content is cut into one-mebibyte chunks.
use vstd::prelude::*;
use crate::chunking::{chunks_of, split_into_chunks, CHUNK_SIZE};
use crate::hashing::{calculate_sha256, hex_encoding, sha256_digest};

verus! {

/// Catalogue entry of a series in this engine (it carries a language).
#[derive(Clone, Debug)]
pub struct MangaMetadata {
    pub id: String,
    pub title: String,
    pub author: String,
    pub series_code: Option<String>,
    pub series_title: Option<String>,
    pub alternative_titles: Option<String>,
    pub language: String,
    pub created_at: i64,
}

/// One stored chunk of a series' content.
#[derive(Clone, Debug)]
pub struct ChunkMetadata {
    pub hash: String,
    pub manga_id: String,
    pub size: i64,
    pub sequence_index: i32,
}

/// What an upload says about the series it carries.
#[derive(Clone, Debug)]
pub struct IngestParams {
    pub title: String,
    pub author: String,
    pub series_code: Option<String>,
    pub series_title: Option<String>,
    pub alternative_titles: Option<String>,
    pub language: String,
}

/// A chunk record as plain values: hash, series, size, position.
pub open spec fn stored_fields(c: ChunkMetadata) -> (Seq<char>, Seq<char>, i64, i32) {
    (c.hash@, c.manga_id@, c.size, c.sequence_index)
}

/// The record for the `i`-th chunk `piece` of a series.
pub open spec fn stored_chunk(manga_id: Seq<char>, i: int, piece: Seq<u8>) -> (
    Seq<char>,
    Seq<char>,
    i64,
    i32,
) {
    (hex_encoding(sha256_digest(piece)), manga_id, piece.len() as i64, i as i32)
}

/// How an upload of `content` for series `manga_id` is stored: the content
/// in one-mebibyte pieces, each with its record (content address, series,
/// size, position).
pub fn plan_manga_chunks(manga_id: &String, content: &[u8]) -> (r: Vec<(ChunkMetadata, Vec<u8>)>)
    ensures
        r@.len() == chunks_of(content@, CHUNK_SIZE as nat).len(),
        forall|i: int|
            0 <= i < r@.len() ==> {
                &&& #[trigger] r@[i].1@ == chunks_of(content@, CHUNK_SIZE as nat)[i]
                &&& stored_fields(r@[i].0) == stored_chunk(manga_id@, i, r@[i].1@)
            },
{
    let pieces = split_into_chunks(content, CHUNK_SIZE);
    let ghost views = pieces@.map_values(|c: Vec<u8>| c@);
    let mut r: Vec<(ChunkMetadata, Vec<u8>)> = Vec::new();
    let mut i: usize = 0;
    while i < pieces.len()
        invariant
            i <= pieces@.len(),
            views == pieces@.map_values(|c: Vec<u8>| c@),
            views == chunks_of(content@, CHUNK_SIZE as nat),
            r@.len() == i,
            forall|j: int|
                0 <= j < i ==> {
                    &&& #[trigger] r@[j].1@ == views[j]
                    &&& stored_fields(r@[j].0) == stored_chunk(manga_id@, j, r@[j].1@)
                },
        decreases pieces@.len() - i,
    {
        let piece = vstd::slice::slice_to_vec(pieces[i].as_slice());
        assert(piece@ == views[i as int]);
        let record = ChunkMetadata {
            hash: calculate_sha256(piece.as_slice()),
            manga_id: manga_id.clone(),
            size: piece.len() as i64,
            sequence_index: i as i32,
        };
        r.push((record, piece));
        i = i + 1;
    }
    r
}

} // verus!
