use manga_bay::node::{discovery_round, upload_to_record};
use manga_bay::{AppRequest, NodeState, RequestKind};

fn s(x: &str) -> String {
    x.to_string()
}

#[test]
fn lookup_goes_to_connected_peers() {
    let mut node = NodeState::new();
    let req = node.register_lookup(RequestKind::Chapters, s("m1"), 1, 3);
    assert_eq!(req, Some(AppRequest::GetChapters { manga_id: s("m1") }));
    let none = node.register_lookup(RequestKind::Block, s("h1"), 2, 0);
    assert_eq!(none, None);
    assert!(!node.pending_block_requests.is_empty());
}

#[test]
fn answer_reaches_every_waiter_once_in_order() {
    let mut node = NodeState::new();
    node.register_lookup(RequestKind::Manga, s("m1"), 10, 1);
    node.register_lookup(RequestKind::Manga, s("m2"), 11, 1);
    node.register_lookup(RequestKind::Manga, s("m1"), 12, 1);
    assert_eq!(node.on_lookup_answer(RequestKind::Manga, Some(s("m1"))), vec![10, 12]);
    assert_eq!(node.on_lookup_answer(RequestKind::Manga, Some(s("m1"))), Vec::<u64>::new());
    assert_eq!(node.pending_manga_requests.keys(), vec![s("m2")]);
    assert_eq!(node.resolve(RequestKind::Manga, &s("m2")), vec![11]);
    assert!(node.pending_manga_requests.is_empty());
}

#[test]
fn empty_answer_keeps_waiting() {
    let mut node = NodeState::new();
    node.register_lookup(RequestKind::Version, s("m1"), 5, 1);
    assert!(node.on_lookup_answer(RequestKind::Version, None).is_empty());
    assert_eq!(node.resolve(RequestKind::Version, &s("m1")), vec![5]);
}

#[test]
fn kinds_are_kept_apart() {
    let mut node = NodeState::new();
    node.register_lookup(RequestKind::Chapters, s("k"), 1, 1);
    node.register_lookup(RequestKind::ChapterDetails, s("k"), 2, 1);
    assert_eq!(node.resolve(RequestKind::Chapters, &s("k")), vec![1]);
    assert_eq!(node.resolve(RequestKind::ChapterDetails, &s("k")), vec![2]);
}

#[test]
fn block_arrival_records_download_and_answers_waiters() {
    let mut node = NodeState::new();
    node.register_lookup(RequestKind::Block, s("h"), 7, 1);
    let a = node.on_block_arrival(&s("h"), 512);
    assert_eq!(a.record_download, Some(512));
    assert_eq!(a.waiters, vec![7]);
    let b = node.on_block_arrival(&s("h"), 0);
    assert_eq!(b.record_download, None);
    assert!(b.waiters.is_empty());
}

#[test]
fn manga_search_without_anyone_to_ask_fails_at_once() {
    let mut node = NodeState::new();
    node.register_lookup(RequestKind::Manga, s("m"), 1, 0);
    assert!(node.search_targets().is_empty());
    assert_eq!(node.settle_manga_search(&s("m"), 0, 0), vec![1]);
    assert!(node.pending_manga_requests.is_empty());
}

#[test]
fn manga_search_with_dialed_peers_keeps_waiting() {
    let mut node = NodeState::with_known_peers(vec![s("/ip4/1.1.1.1/tcp/1")]);
    node.register_lookup(RequestKind::Manga, s("m"), 1, 0);
    assert_eq!(node.search_targets(), vec![s("/ip4/1.1.1.1/tcp/1")]);
    assert!(node.settle_manga_search(&s("m"), 0, 1).is_empty());
    assert!(node.settle_manga_search(&s("m"), 2, 0).is_empty());
    assert_eq!(node.resolve(RequestKind::Manga, &s("m")), vec![1]);
}

#[test]
fn new_connection_gets_every_pending_lookup() {
    let mut node = NodeState::new();
    node.register_lookup(RequestKind::Block, s("h1"), 1, 0);
    node.register_lookup(RequestKind::Manga, s("m1"), 2, 0);
    node.register_lookup(RequestKind::Manga, s("m2"), 3, 0);
    node.register_lookup(RequestKind::Version, s("m1"), 4, 0);
    let plan = node.on_connection_established(s("/ip4/9.9.9.9/tcp/9"));
    assert_eq!(
        plan.requests,
        vec![
            AppRequest::GetManga { manga_id: s("m1") },
            AppRequest::GetManga { manga_id: s("m2") },
            AppRequest::GetBlock { block_hash: s("h1") },
            AppRequest::GetVersion { manga_id: s("m1") },
            AppRequest::GetPeers,
        ]
    );
    assert_eq!(plan.relay_listen, Some(s("/ip4/9.9.9.9/tcp/9/p2p-circuit")));
    assert_eq!(node.known_peers, vec![s("/ip4/9.9.9.9/tcp/9")]);
    let again = node.on_connection_established(s("/ip4/9.9.9.9/tcp/9"));
    assert_eq!(node.known_peers, vec![s("/ip4/9.9.9.9/tcp/9")]);
    assert_eq!(again.requests.len(), 5);
}

#[test]
fn relayed_connection_does_not_listen_through_relay() {
    let mut node = NodeState::new();
    let plan = node.on_connection_established(s("/ip4/9.9.9.9/tcp/9/p2p-circuit"));
    assert_eq!(plan.relay_listen, None);
    assert_eq!(plan.requests, vec![AppRequest::GetPeers]);
}

#[test]
fn discovered_addresses_become_known_once() {
    let mut node = NodeState::with_known_peers(vec![s("/ip4/1.1.1.1/tcp/1")]);
    node.on_addresses_discovered(&vec![s("/ip4/2.2.2.2/tcp/2"), s("/ip4/1.1.1.1/tcp/1"), s("/ip4/2.2.2.2/tcp/2")]);
    assert_eq!(node.known_peers, vec![s("/ip4/1.1.1.1/tcp/1"), s("/ip4/2.2.2.2/tcp/2")]);
    node.on_addresses_discovered(&vec![s("/ip4/2.2.2.2/tcp/2")]);
    assert_eq!(node.known_peers.len(), 2);
}

#[test]
fn peer_list_dials_only_new_valid_addresses() {
    let mut node = NodeState::with_known_peers(vec![s("/ip4/1.1.1.1/tcp/1")]);
    let dial = node.on_peer_list(&vec![s("/ip4/1.1.1.1/tcp/1"), s("junk"), s("/ip4/3.3.3.3/tcp/03"), s("/ip4/3.3.3.3/tcp/3")]);
    assert_eq!(dial, vec![s("/ip4/3.3.3.3/tcp/3")]);
    assert_eq!(node.known_peers, vec![s("/ip4/1.1.1.1/tcp/1"), s("/ip4/3.3.3.3/tcp/3")]);
}

#[test]
fn shared_peers_are_distinct() {
    let node = NodeState::with_known_peers(vec![s("a"), s("b"), s("a")]);
    assert_eq!(node.peers_to_share(), vec![s("a"), s("b")]);
}

#[test]
fn discovery_asks_connected_peers() {
    assert_eq!(discovery_round(3), (3, Some(AppRequest::GetPeers)));
    assert_eq!(discovery_round(0), (0, None));
}

#[test]
fn uploads_recorded_only_when_sent_and_non_empty() {
    assert_eq!(upload_to_record(100, true), Some(100));
    assert_eq!(upload_to_record(100, false), None);
    assert_eq!(upload_to_record(0, true), None);
}
