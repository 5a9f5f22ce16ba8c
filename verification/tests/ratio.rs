use manga_bay::ratio::{can_consume, PeerStats};

/// The totals of a peer that shared `shared` bytes with this node and
/// consumed `consumed` bytes from it.
fn stats(shared: i64, consumed: i64) -> Option<PeerStats> {
    Some(PeerStats { uploaded_bytes: consumed, downloaded_bytes: shared })
}

#[test]
fn new_peer_may_consume() {
    assert!(can_consume(None));
    assert!(can_consume(stats(0, 0)));
    assert!(can_consume(stats(5, 0)));
}

#[test]
fn ratio_below_one_may_not_consume() {
    assert!(!can_consume(stats(9, 10)));
    assert!(!can_consume(stats(0, 1)));
}

#[test]
fn ratio_of_one_or_more_may_consume() {
    assert!(can_consume(stats(10, 10)));
    assert!(can_consume(stats(30, 10)));
}

#[test]
fn uploading_more_keeps_permission() {
    assert!(can_consume(stats(10, 10)));
    assert!(can_consume(stats(11, 10)));
    assert!(!can_consume(stats(9, 10)));
    assert!(can_consume(stats(9 + 1, 10)));
}

#[test]
fn a_peer_that_only_takes_is_refused_and_one_that_gives_is_not() {
    let leech = Some(PeerStats { uploaded_bytes: 4096, downloaded_bytes: 0 });
    let contributor = Some(PeerStats { uploaded_bytes: 4096, downloaded_bytes: 8192 });
    assert!(!can_consume(leech));
    assert!(can_consume(contributor));
}

#[test]
fn matches_float_ratio_for_ordinary_totals() {
    for shared in 0..20i64 {
        for consumed in 0..20i64 {
            let ratio = if consumed == 0 { f64::INFINITY } else { shared as f64 / consumed as f64 };
            assert_eq!(can_consume(stats(shared, consumed)), ratio >= 1.0, "shared={} consumed={}", shared, consumed);
        }
    }
}
