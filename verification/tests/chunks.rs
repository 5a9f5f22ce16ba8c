use manga_bay::chunking::{chapter_chunks, page_hashes, placeholder_chunks, rows_kept, split_into_chunks, CHUNK_SIZE};
use manga_bay::engine::plan_manga_chunks;
use manga_bay::{calculate_sha256, ChunkMetadata};

#[test]
fn empty_content_has_no_chunks() {
    assert!(split_into_chunks(&[], 4).is_empty());
}

#[test]
fn chunks_reassemble_to_the_content() {
    let data: Vec<u8> = (0..10u8).collect();
    let chunks = split_into_chunks(&data, 4);
    assert_eq!(chunks, vec![vec![0, 1, 2, 3], vec![4, 5, 6, 7], vec![8, 9]]);
    assert_eq!(chunks.concat(), data);
    let exact = split_into_chunks(&data[..8], 4);
    assert_eq!(exact.len(), 2);
    assert!(exact.iter().all(|c| c.len() == 4));
}

#[test]
fn chunks_match_std_chunks() {
    let data: Vec<u8> = (0..1000u32).map(|x| (x % 251) as u8).collect();
    for size in [1usize, 3, 7, 100, 999, 1000, 1001] {
        let ours = split_into_chunks(&data, size);
        let expected: Vec<Vec<u8>> = data.chunks(size).map(|c| c.to_vec()).collect();
        assert_eq!(ours, expected);
    }
}

#[test]
fn manga_upload_is_stored_in_mebibyte_chunks() {
    assert_eq!(CHUNK_SIZE, 1024 * 1024);
    let content = vec![7u8; CHUNK_SIZE + 10];
    let plan = plan_manga_chunks(&"m1".to_string(), &content);
    assert_eq!(plan.len(), 2);
    assert_eq!(plan[0].1.len(), CHUNK_SIZE);
    assert_eq!(plan[1].1, vec![7u8; 10]);
    assert_eq!(plan[0].0.size, CHUNK_SIZE as i64);
    assert_eq!(plan[1].0.size, 10);
    assert_eq!(plan[0].0.sequence_index, 0);
    assert_eq!(plan[1].0.sequence_index, 1);
    assert_eq!(plan[1].0.manga_id, "m1");
    assert_eq!(plan[1].0.hash, calculate_sha256(&[7u8; 10]));
}

#[test]
fn chapter_pages_are_addressed_by_content() {
    let pages = vec![(3, b"abc".to_vec()), (1, Vec::new())];
    let chunks = chapter_chunks(&"ch".to_string(), &pages);
    assert_eq!(chunks.len(), 2);
    assert_eq!(chunks[0].hash, "ba7816bf8f01cfea414140de5dae2223b00361a396177a9cb410ff61f20015ad");
    assert_eq!(chunks[0].sequence_index, 3);
    assert_eq!(chunks[0].size, 3);
    assert_eq!(chunks[0].chapter_id, "ch");
    assert_eq!(chunks[1].hash, calculate_sha256(b""));
    assert_eq!(chunks[1].sequence_index, 1);
    assert_eq!(chunks[1].size, 0);
}

#[test]
fn synced_pages_get_placeholder_chunks() {
    let pages = vec!["h0".to_string(), "h1".to_string()];
    let chunks = placeholder_chunks(&"c9".to_string(), &pages);
    assert_eq!(chunks.len(), 2);
    assert_eq!(chunks[1].hash, "h1");
    assert_eq!(chunks[1].sequence_index, 1);
    assert_eq!(chunks[1].size, 0);
    assert_eq!(chunks[0].chapter_id, "c9");
}

#[test]
fn chapter_pages_listed_in_chunk_order() {
    let chunks = vec![
        ChunkMetadata { hash: "x".into(), chapter_id: "c".into(), size: 1, sequence_index: 0 },
        ChunkMetadata { hash: "y".into(), chapter_id: "c".into(), size: 2, sequence_index: 1 },
    ];
    assert_eq!(page_hashes(&chunks), vec!["x".to_string(), "y".to_string()]);
}

#[test]
fn first_page_per_position_is_kept() {
    let pages = vec![(0, b"first".to_vec()), (1, b"second".to_vec()), (0, b"again".to_vec()), (2, b"third".to_vec())];
    let records = chapter_chunks(&"ch".to_string(), &pages);
    let rows = rows_kept(&records);
    let kept: Vec<(String, i32)> = rows.iter().map(|r| (r.hash.clone(), r.sequence_index)).collect();
    assert_eq!(
        kept,
        vec![
            (calculate_sha256(b"first"), 0),
            (calculate_sha256(b"second"), 1),
            (calculate_sha256(b"third"), 2),
        ]
    );
    assert_eq!(rows[0].size, 5);
    assert_eq!(rows[1].size, 6);
}

#[test]
fn distinct_positions_keep_every_row() {
    let pages = vec![(2, b"b".to_vec()), (0, b"a".to_vec())];
    let records = chapter_chunks(&"ch".to_string(), &pages);
    let fields = |v: &Vec<ChunkMetadata>| -> Vec<(String, String, i64, i32)> {
        v.iter().map(|c| (c.hash.clone(), c.chapter_id.clone(), c.size, c.sequence_index)).collect()
    };
    assert_eq!(fields(&rows_kept(&records)), fields(&records));
    assert!(rows_kept(&Vec::new()).is_empty());
}
