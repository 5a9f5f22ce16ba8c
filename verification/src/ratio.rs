//! The sharing rule: a peer may download once it has uploaded at least as
//! much as it has downloaded; a peer that has downloaded nothing may always
//! download.
use vstd::prelude::*;

verus! {

/// A peer's transfer totals as this node's ratio table records them:
/// `uploaded_bytes` this node uploaded to the peer, `downloaded_bytes` this
/// node downloaded from it.
#[derive(Clone, Copy, Debug)]
pub struct PeerStats {
    pub uploaded_bytes: i64,
    pub downloaded_bytes: i64,
}

/// The totals from the peer's side: what it shared (this node downloaded
/// it) and what it consumed (this node uploaded it); zero for a peer never
/// seen.
pub open spec fn shared_and_consumed(stats: Option<PeerStats>) -> (int, int) {
    match stats {
        Some(s) => (s.downloaded_bytes as int, s.uploaded_bytes as int),
        None => (0, 0),
    }
}

/// The ratio shared / consumed is at least one, an infinite ratio
/// (nothing consumed) included.
pub open spec fn ratio_at_least_one(shared: int, consumed: int) -> bool {
    ||| consumed == 0
    ||| consumed > 0 && shared >= consumed
    ||| consumed < 0 && shared <= consumed
}

/// Whether a peer with these totals may download from this node.
pub open spec fn may_consume(stats: Option<PeerStats>) -> bool {
    ratio_at_least_one(shared_and_consumed(stats).0, shared_and_consumed(stats).1)
}

/// Decides whether a peer may download, from the totals this node recorded
/// for it (`None` for a peer never seen).
pub fn can_consume(stats: Option<PeerStats>) -> (b: bool)
    ensures
        b == may_consume(stats),
{
    match stats {
        None => true,
        Some(s) => {
            let shared = s.downloaded_bytes;
            let consumed = s.uploaded_bytes;
            if consumed == 0 {
                true
            } else if consumed > 0 {
                shared >= consumed
            } else {
                shared <= consumed
            }
        },
    }
}

/// Peers that consumed nothing may download; sharing more never takes that
/// right away; and a peer that shared as much as it consumed may download.
pub proof fn lemma_sharing_rule(shared: int, more: int, consumed: int)
    requires
        more >= 0,
        consumed >= 0,
    ensures
        ratio_at_least_one(shared, 0),
        ratio_at_least_one(shared, consumed) ==> ratio_at_least_one(shared + more, consumed),
        ratio_at_least_one(consumed, consumed),
{
}

/// The rule on recorded totals: a peer never seen, or one this node has
/// uploaded nothing to, may download; otherwise it may exactly when this
/// node has downloaded at least as much from it as it has uploaded to it.
pub proof fn lemma_consume_rule(stats: PeerStats)
    requires
        stats.uploaded_bytes >= 0,
        stats.downloaded_bytes >= 0,
    ensures
        may_consume(None),
        may_consume(Some(stats)) <==> (stats.uploaded_bytes == 0 || stats.downloaded_bytes
            >= stats.uploaded_bytes),
{
}

} // verus!
