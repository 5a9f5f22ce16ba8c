use manga_bay::api::{clean_page_content, decode_pages, image_lookup_error, join_with, manga_lookup_error, connect_target, series_params};
use manga_bay::{AppError, ConnectPeerRequest, CreateChapterPage, CreateMangaRequest, NetworkOutcome, NodeInfo, NodeInfoResponse};

fn page(index: i32, content: &str) -> CreateChapterPage {
    CreateChapterPage { index, content: content.to_string() }
}

#[test]
fn data_uri_prefix_and_whitespace_are_removed() {
    assert_eq!(clean_page_content("data:image/png;base64,aGVs bG8=\n"), "aGVsbG8=");
    assert_eq!(clean_page_content(" aG Vs\tbG8= "), "aGVsbG8=");
    assert_eq!(clean_page_content("a,b,c"), "b,c");
    assert_eq!(clean_page_content("x,\u{3000}y\u{a0}"), "y");
    assert_eq!(clean_page_content(""), "");
}

#[test]
fn pages_decode_with_their_positions() {
    let pages = vec![page(2, "aGVsbG8="), page(1, "data:image/png;base64, d29y\nbGQ=")];
    let decoded = decode_pages(&pages).unwrap();
    assert_eq!(decoded, vec![(2, b"hello".to_vec()), (1, b"world".to_vec())]);
}

#[test]
fn bad_page_is_a_bad_request_naming_its_place() {
    let pages = vec![page(0, "aGVsbG8="), page(5, "@@@@")];
    match decode_pages(&pages) {
        Err(AppError::BadRequest(m)) => assert_eq!(m, "Invalid Base64 page 1: Invalid symbol 64, offset 0."),
        other => panic!("unexpected {:?}", other),
    }
}

#[test]
fn error_statuses() {
    let e = AppError::InternalServerError("x".into());
    assert_eq!(e.status_code(), 500);
    assert_eq!(e.message(), "x");
    assert_eq!(AppError::BadRequest("b".into()).status_code(), 400);
    assert_eq!(AppError::NotFound("n".into()).status_code(), 404);
}

#[test]
fn alternative_titles_are_joined_with_commas() {
    assert_eq!(join_with(&vec!["A".into(), "B".into(), "C".into()], ","), "A,B,C");
    assert_eq!(join_with(&vec![], ","), "");
    let p = series_params(CreateMangaRequest {
        title: "One Piece".into(),
        author: "Oda".into(),
        series_code: Some("OP-001".into()),
        series_title: None,
        alternative_titles: Some(vec!["One Piece (PT-BR)".into(), "ワンピース".into()]),
        pages: None,
    });
    assert_eq!(p.alternative_titles, Some("One Piece (PT-BR),ワンピース".to_string()));
    assert_eq!(p.series_code, Some("OP-001".to_string()));
    assert_eq!(p.title, "One Piece");
    let q = series_params(CreateMangaRequest {
        title: "T".into(),
        author: "A".into(),
        series_code: None,
        series_title: None,
        alternative_titles: None,
        pages: None,
    });
    assert_eq!(q.alternative_titles, None);
}

#[test]
fn connect_request_needs_a_multiaddr() {
    let ok = connect_target(&ConnectPeerRequest { multiaddr: "/ip4/127.0.0.1/tcp/3001".into() });
    assert_eq!(ok.unwrap(), "/ip4/127.0.0.1/tcp/3001");
    match connect_target(&ConnectPeerRequest { multiaddr: "localhost:3001".into() }) {
        Err(AppError::BadRequest(m)) => assert_eq!(m, "Invalid multiaddr"),
        other => panic!("unexpected {:?}", other),
    }
}

#[test]
fn network_lookup_errors() {
    assert!(manga_lookup_error(NetworkOutcome::Found).is_none());
    match manga_lookup_error(NetworkOutcome::Missing) {
        Some(AppError::NotFound(m)) => assert_eq!(m, "Manga not found in network"),
        other => panic!("unexpected {:?}", other),
    }
    match manga_lookup_error(NetworkOutcome::NoReply) {
        Some(AppError::InternalServerError(m)) => assert_eq!(m, "Failed to receive response from node"),
        other => panic!("unexpected {:?}", other),
    }
    match manga_lookup_error(NetworkOutcome::TimedOut) {
        Some(AppError::NotFound(m)) => assert_eq!(m, "Manga not found (timeout)"),
        other => panic!("unexpected {:?}", other),
    }
    assert!(image_lookup_error(NetworkOutcome::Found).is_none());
    match image_lookup_error(NetworkOutcome::TimedOut) {
        Some(e) => {
            assert_eq!(e.status_code(), 404);
            assert_eq!(e.message(), "Image not found locally or in network");
        }
        None => panic!("expected an error"),
    }
}

#[test]
fn node_info_report_copies_fields() {
    let r = NodeInfoResponse::from_info(NodeInfo {
        peer_id: "12D3".into(),
        listeners: vec!["/ip4/0.0.0.0/tcp/3001".into()],
        connected_peers: vec![],
    });
    assert_eq!(r.peer_id, "12D3");
    assert_eq!(r.listeners, vec!["/ip4/0.0.0.0/tcp/3001".to_string()]);
    assert!(r.connected_peers.is_empty());
}

#[test]
fn white_space_is_dropped_exactly_as_char_is_whitespace_says() {
    for c in (0u32..=0x10FFFF).filter_map(char::from_u32) {
        if c == ',' {
            continue;
        }
        let cleaned = clean_page_content(&c.to_string());
        assert_eq!(cleaned.is_empty(), c.is_whitespace(), "{:?}", c);
    }
}
