use manga_bay::version::{
    compute_manga_version, should_sync, sort_chapters_by_id, sync_plan, sync_report, version_from_digest, ChapterStamp,
    SyncReport,
};
use manga_bay::{MangaMetadata, MangaVersion};
use std::collections::hash_map::DefaultHasher;
use std::hash::{Hash, Hasher};

fn stamp(id: &str, t: i64) -> ChapterStamp {
    ChapterStamp { id: id.to_string(), created_at: t }
}

fn manga(id: &str, title: &str, created_at: i64) -> MangaMetadata {
    MangaMetadata {
        id: id.to_string(),
        title: title.to_string(),
        author: "Eiichiro Oda".to_string(),
        series_code: None,
        series_title: None,
        alternative_titles: None,
        created_at,
    }
}

fn version(count: usize, hash: &str) -> MangaVersion {
    MangaVersion { manga_id: "m".into(), hash: hash.into(), chapter_count: count, created_at: 0 }
}

#[test]
fn chapters_sort_by_id_stably() {
    let sorted = sort_chapters_by_id(&vec![stamp("b", 2), stamp("a", 1), stamp("b", 1), stamp("ab", 5)]);
    let got: Vec<(String, i64)> = sorted.into_iter().map(|c| (c.id, c.created_at)).collect();
    assert_eq!(
        got,
        vec![("a".into(), 1), ("ab".into(), 5), ("b".into(), 2), ("b".into(), 1)]
    );
}

#[test]
fn sort_agrees_with_std_sort_by_key() {
    let input = vec![stamp("z", 1), stamp("é", 2), stamp("Z", 3), stamp("", 4), stamp("z", 5), stamp("za", 6)];
    let mut expected: Vec<(String, i64)> = input.iter().map(|c| (c.id.clone(), c.created_at)).collect();
    expected.sort_by_key(|c| c.0.clone());
    let got: Vec<(String, i64)> = sort_chapters_by_id(&input).into_iter().map(|c| (c.id, c.created_at)).collect();
    assert_eq!(got, expected);
}

#[test]
fn version_fields_and_hash_format() {
    let v = compute_manga_version(&"m1".to_string(), &manga("m1", "One Piece", 42), &vec![stamp("c2", 7), stamp("c1", 3)]);
    assert_eq!(v.manga_id, "m1");
    assert_eq!(v.chapter_count, 2);
    assert_eq!(v.created_at, 42);
    assert!(!v.hash.is_empty());
    assert!(v.hash.chars().all(|c| c.is_ascii_hexdigit() && !c.is_ascii_uppercase()));
}

#[test]
fn version_hash_matches_default_hasher_over_sorted_chapters() {
    let chapters = vec![stamp("c2", 7), stamp("c1", 3)];
    let v = compute_manga_version(&"m1".to_string(), &manga("m1", "One Piece", 42), &chapters);
    let mut h = DefaultHasher::new();
    "One Piece".to_string().hash(&mut h);
    2usize.hash(&mut h);
    "c1".to_string().hash(&mut h);
    3i64.hash(&mut h);
    "c2".to_string().hash(&mut h);
    7i64.hash(&mut h);
    assert_eq!(v.hash, format!("{:x}", h.finish()));
}

#[test]
fn version_does_not_depend_on_listing_order() {
    let m = manga("m1", "Title", 1);
    let a = compute_manga_version(&"m1".to_string(), &m, &vec![stamp("x", 1), stamp("y", 2), stamp("w", 3)]);
    let b = compute_manga_version(&"m1".to_string(), &m, &vec![stamp("w", 3), stamp("x", 1), stamp("y", 2)]);
    assert_eq!(a.hash, b.hash);
    let c = compute_manga_version(&"m1".to_string(), &m, &vec![stamp("w", 4), stamp("x", 1), stamp("y", 2)]);
    assert_ne!(a.hash, c.hash);
}

#[test]
fn version_from_digest_renders_hex() {
    let v = version_from_digest(&"m".to_string(), 3, 9, 0xbeef);
    assert_eq!(v.hash, "beef");
    assert_eq!(v.chapter_count, 3);
    assert_eq!(v.created_at, 9);
    assert_eq!(v.manga_id, "m");
}

#[test]
fn sync_when_missing_locally() {
    assert!(should_sync(&None, &version(0, "h")));
}

#[test]
fn sync_when_remote_has_more_chapters() {
    assert!(should_sync(&Some(version(2, "a")), &version(3, "a")));
    assert!(!should_sync(&Some(version(3, "a")), &version(2, "b")));
}

#[test]
fn sync_when_same_count_but_different_hash() {
    assert!(should_sync(&Some(version(2, "a")), &version(2, "b")));
}

#[test]
fn no_sync_from_an_equal_version() {
    assert!(!should_sync(&Some(version(2, "a")), &version(2, "a")));
}

#[test]
fn sync_plan_picks_the_versions_worth_fetching() {
    let local = Some(version(2, "a"));
    let remotes = vec![version(1, "z"), version(2, "a"), version(2, "b"), version(5, "a")];
    assert_eq!(sync_plan(&local, &remotes), vec![false, false, true, true]);
    assert_eq!(sync_plan(&None, &remotes), vec![true, true, true, true]);
    assert!(sync_plan(&local, &Vec::new()).is_empty());
}

#[test]
fn sync_report_needs_a_peer_and_one_successful_fetch() {
    assert_eq!(sync_report(0, &Vec::new()), SyncReport::NoPeers);
    assert_eq!(sync_report(3, &Vec::new()), SyncReport::Checked { synced: false, remote_versions_count: 3 });
    assert_eq!(sync_report(2, &vec![false, true]), SyncReport::Checked { synced: true, remote_versions_count: 2 });
    assert_eq!(sync_report(2, &vec![false, false]), SyncReport::Checked { synced: false, remote_versions_count: 2 });
}

#[test]
fn id_order_follows_code_points_across_scripts() {
    let ids = ["ワンピース", "b", "\u{10348}", "ab", "a", "\u{ffff}", "é", "", "a\u{0}", "A"];
    let input: Vec<ChapterStamp> = ids.iter().enumerate().map(|(i, id)| stamp(id, i as i64)).collect();
    let mut expected: Vec<String> = ids.iter().map(|s| s.to_string()).collect();
    expected.sort();
    let got: Vec<String> = sort_chapters_by_id(&input).into_iter().map(|c| c.id).collect();
    assert_eq!(got, expected);
}
