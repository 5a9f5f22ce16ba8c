//! The node's bookkeeping between its HTTP API and the swarm: who waits for
//! which lookup, which peers it knows, and what to send when commands and
//! swarm events come in. Each function here takes the event, updates the
//! state and returns the actions for the event loop to perform.
use vstd::prelude::*;
use crate::models::{AppRequest, RequestKind};
use crate::pending::{string_views, PendingTable};
use crate::peers::{
    add_address, add_addresses, add_peer, add_peers, distinct_addresses, distinct_in_order,
    parse_addresses, parsed_addresses, relay_listen_address, multiaddr_protocol_names,
};

verus! {

/// The lookups in flight and the peers known to this node.
#[derive(Debug)]
pub struct NodeState {
    pub pending_manga_requests: PendingTable,
    pub pending_chapters_requests: PendingTable,
    pub pending_chapter_details_requests: PendingTable,
    pub pending_block_requests: PendingTable,
    pub pending_version_requests: PendingTable,
    pub known_peers: Vec<String>,
}

/// `m` with `ticket` waiting for `key` after those already waiting.
pub open spec fn with_waiter(m: Map<Seq<char>, Seq<u64>>, key: Seq<char>, ticket: u64) -> Map<
    Seq<char>,
    Seq<u64>,
> {
    m.insert(key, if m.contains_key(key) { m[key].push(ticket) } else { seq![ticket] })
}

/// The waiters for `key` in `m`, none if nobody waits.
pub open spec fn waiters_of(m: Map<Seq<char>, Seq<u64>>, key: Seq<char>) -> Seq<u64> {
    if m.contains_key(key) { m[key] } else { Seq::empty() }
}

/// The summaries of a list of requests.
pub open spec fn request_summaries(rs: Seq<AppRequest>) -> Seq<(Option<RequestKind>, Seq<char>)> {
    rs.map_values(|r: AppRequest| r.summary())
}

/// One lookup request of `kind` per key, in order.
pub open spec fn lookups_for(kind: RequestKind, keys: Seq<Seq<char>>) -> Seq<
    (Option<RequestKind>, Seq<char>),
> {
    keys.map_values(|k: Seq<char>| (Some(kind), k))
}

/// The peer-list request, as plain values.
pub open spec fn peer_list_request() -> (Option<RequestKind>, Seq<char>) {
    (None, Seq::empty())
}

/// What a newly connected peer is asked, in order.
pub open spec fn resend_plan(s: NodeState) -> Seq<(Option<RequestKind>, Seq<char>)> {
    lookups_for(RequestKind::Manga, s.pending_order(RequestKind::Manga)) + lookups_for(
        RequestKind::Chapters,
        s.pending_order(RequestKind::Chapters),
    ) + lookups_for(RequestKind::ChapterDetails, s.pending_order(RequestKind::ChapterDetails))
        + lookups_for(RequestKind::Block, s.pending_order(RequestKind::Block)) + lookups_for(
        RequestKind::Version,
        s.pending_order(RequestKind::Version),
    ) + seq![peer_list_request()]
}

/// What to do when a peer connects.
#[derive(Debug)]
pub struct ConnectionPlan {
    /// Requests for the new peer, in order.
    pub requests: Vec<AppRequest>,
    /// An address to listen on through the new peer as a relay.
    pub relay_listen: Option<String>,
}

/// What to do with a block that arrived from a peer.
#[derive(Debug)]
pub struct BlockArrival {
    /// Bytes to record as downloaded from the sender.
    pub record_download: Option<u64>,
    /// Everyone who waited for the block.
    pub waiters: Vec<u64>,
}

/// The bytes to record for a transfer of `len` bytes: nothing for an empty
/// transfer.
pub open spec fn transfer_record(len: nat) -> Option<u64> {
    if len > 0 && len <= u64::MAX { Some(len as u64) } else { None }
}

/// What a peer is answered when it asks for known peers: each known address
/// once.
pub open spec fn shared_peers(known: Seq<Seq<char>>) -> Seq<Seq<char>> {
    distinct_in_order(known)
}

impl NodeState {
    /// Who waits for lookups of `kind`.
    pub open spec fn pending(self, kind: RequestKind) -> Map<Seq<char>, Seq<u64>> {
        match kind {
            RequestKind::Manga => self.pending_manga_requests@,
            RequestKind::Chapters => self.pending_chapters_requests@,
            RequestKind::ChapterDetails => self.pending_chapter_details_requests@,
            RequestKind::Block => self.pending_block_requests@,
            RequestKind::Version => self.pending_version_requests@,
        }
    }

    /// The pending keys of `kind` in the order first asked for.
    pub open spec fn pending_order(self, kind: RequestKind) -> Seq<Seq<char>> {
        match kind {
            RequestKind::Manga => self.pending_manga_requests.key_order(),
            RequestKind::Chapters => self.pending_chapters_requests.key_order(),
            RequestKind::ChapterDetails => self.pending_chapter_details_requests.key_order(),
            RequestKind::Block => self.pending_block_requests.key_order(),
            RequestKind::Version => self.pending_version_requests.key_order(),
        }
    }

    /// The known peer addresses.
    pub open spec fn peers(self) -> Seq<Seq<char>> {
        string_views(self.known_peers@)
    }

    /// `self` and `other` agree on the lookups of every kind but `kind`.
    pub open spec fn same_except(self, other: NodeState, kind: RequestKind) -> bool {
        forall|k: RequestKind|
            k != kind ==> #[trigger] self.pending(k) == other.pending(k) && self.pending_order(k)
                == other.pending_order(k)
    }

    /// `self` and `other` agree on every lookup.
    pub open spec fn same_lookups(self, other: NodeState) -> bool {
        forall|k: RequestKind|
            #[trigger] self.pending(k) == other.pending(k) && self.pending_order(k)
                == other.pending_order(k)
    }

    /// A node with nothing in flight that knows no peers.
    pub fn new() -> (s: NodeState)
        ensures
            forall|k: RequestKind| #[trigger] s.pending(k) == Map::<Seq<char>, Seq<u64>>::empty(),
            forall|k: RequestKind| #[trigger] s.pending_order(k) == Seq::<Seq<char>>::empty(),
            s.peers() == Seq::<Seq<char>>::empty(),
    {
        let s = NodeState {
            pending_manga_requests: PendingTable::new(),
            pending_chapters_requests: PendingTable::new(),
            pending_chapter_details_requests: PendingTable::new(),
            pending_block_requests: PendingTable::new(),
            pending_version_requests: PendingTable::new(),
            known_peers: Vec::new(),
        };
        assert(s.peers() =~= Seq::<Seq<char>>::empty());
        assert forall|k: RequestKind| #[trigger] s.pending(k) == Map::<Seq<char>, Seq<u64>>::empty()
            && s.pending_order(k) == Seq::<Seq<char>>::empty() by {
            match k {
                RequestKind::Manga => {},
                RequestKind::Chapters => {},
                RequestKind::ChapterDetails => {},
                RequestKind::Block => {},
                RequestKind::Version => {},
            }
        }
        s
    }

    /// A node with nothing in flight that knows the given peers.
    pub fn with_known_peers(known_peers: Vec<String>) -> (s: NodeState)
        ensures
            forall|k: RequestKind| #[trigger] s.pending(k) == Map::<Seq<char>, Seq<u64>>::empty(),
            forall|k: RequestKind| #[trigger] s.pending_order(k) == Seq::<Seq<char>>::empty(),
            s.known_peers@ == known_peers@,
    {
        let mut s = NodeState::new();
        let ghost s0 = s;
        s.known_peers = known_peers;
        assert forall|k: RequestKind|
            #![trigger s.pending(k)]
            #![trigger s.pending_order(k)]
            s.pending(k) == s0.pending(k) && s.pending_order(k) == s0.pending_order(k) by {
            match k {
                RequestKind::Manga => {},
                RequestKind::Chapters => {},
                RequestKind::ChapterDetails => {},
                RequestKind::Block => {},
                RequestKind::Version => {},
            }
        }
        s
    }

    /// A lookup of `kind` for `key` from the API, answered later through
    /// `ticket`: the ticket joins the waiters for `key`, and when any peer is
    /// connected the returned request goes to every connected peer.
    pub fn register_lookup(
        &mut self,
        kind: RequestKind,
        key: String,
        ticket: u64,
        connected_peers: usize,
    ) -> (r: Option<AppRequest>)
        ensures
            final(self).pending(kind) == with_waiter(old(self).pending(kind), key@, ticket),
            old(self).pending(kind).contains_key(key@) ==> final(self).pending_order(kind) == old(
                self,
            ).pending_order(kind),
            !old(self).pending(kind).contains_key(key@) ==> final(self).pending_order(kind) == old(
                self,
            ).pending_order(kind).push(key@),
            final(self).same_except(*old(self), kind),
            final(self).known_peers@ == old(self).known_peers@,
            r is Some <==> connected_peers > 0,
            r matches Some(req) ==> req.summary() == (Some(kind), key@),
    {
        let req = if connected_peers > 0 {
            Some(AppRequest::for_kind(kind, key.clone()))
        } else {
            None
        };
        match kind {
            RequestKind::Manga => self.pending_manga_requests.add_waiter(key, ticket),
            RequestKind::Chapters => self.pending_chapters_requests.add_waiter(key, ticket),
            RequestKind::ChapterDetails => self.pending_chapter_details_requests.add_waiter(
                key,
                ticket,
            ),
            RequestKind::Block => self.pending_block_requests.add_waiter(key, ticket),
            RequestKind::Version => self.pending_version_requests.add_waiter(key, ticket),
        }
        req
    }

    /// Answers a lookup of `kind` for `key`: everyone who waited for it, in
    /// the order they asked; the key is no longer pending.
    pub fn resolve(&mut self, kind: RequestKind, key: &String) -> (w: Vec<u64>)
        ensures
            w@ == waiters_of(old(self).pending(kind), key@),
            final(self).pending(kind) == old(self).pending(kind).remove(key@),
            final(self).pending_order(kind) == crate::pending::without_key(
                old(self).pending_order(kind),
                key@,
            ),
            final(self).same_except(*old(self), kind),
            final(self).known_peers@ == old(self).known_peers@,
    {
        let taken = match kind {
            RequestKind::Manga => self.pending_manga_requests.take(key),
            RequestKind::Chapters => self.pending_chapters_requests.take(key),
            RequestKind::ChapterDetails => self.pending_chapter_details_requests.take(key),
            RequestKind::Block => self.pending_block_requests.take(key),
            RequestKind::Version => self.pending_version_requests.take(key),
        };
        match taken {
            Some(w) => w,
            None => Vec::new(),
        }
    }

    /// A peer answered a lookup of `kind`: when the answer names what it is
    /// about (`Some(key)`) the waiters for `key` are answered; an empty answer
    /// (`None`) changes nothing and waits for other peers.
    pub fn on_lookup_answer(&mut self, kind: RequestKind, answered: Option<String>) -> (w: Vec<u64>)
        ensures
            match answered {
                Some(key) => {
                    &&& w@ == waiters_of(old(self).pending(kind), key@)
                    &&& final(self).pending(kind) == old(self).pending(kind).remove(key@)
                    &&& final(self).pending_order(kind) == crate::pending::without_key(
                        old(self).pending_order(kind),
                        key@,
                    )
                },
                None => w@ == Seq::<u64>::empty() && final(self).pending(kind) == old(self).pending(
                    kind,
                ) && final(self).pending_order(kind) == old(self).pending_order(kind),
            },
            final(self).same_except(*old(self), kind),
            final(self).known_peers@ == old(self).known_peers@,
    {
        match answered {
            Some(key) => self.resolve(kind, &key),
            None => Vec::new(),
        }
    }

    /// A block arrived from a peer: its size is recorded as downloaded when
    /// it is not empty, and everyone waiting for the block gets it.
    pub fn on_block_arrival(&mut self, block_hash: &String, payload_len: usize) -> (a: BlockArrival)
        ensures
            a.record_download == transfer_record(payload_len as nat),
            payload_len > 0 ==> a.record_download == Some(payload_len as u64),
            payload_len == 0 ==> a.record_download is None,
            a.waiters@ == waiters_of(old(self).pending(RequestKind::Block), block_hash@),
            final(self).pending(RequestKind::Block) == old(self).pending(RequestKind::Block).remove(
                block_hash@,
            ),
            final(self).pending_order(RequestKind::Block) == crate::pending::without_key(
                old(self).pending_order(RequestKind::Block),
                block_hash@,
            ),
            final(self).same_except(*old(self), RequestKind::Block),
            final(self).known_peers@ == old(self).known_peers@,
    {
        let record_download = transfer_size(payload_len);
        let waiters = self.resolve(RequestKind::Block, block_hash);
        BlockArrival { record_download, waiters }
    }

    /// The peers to dial when searching for a manga: every known peer.
    pub fn search_targets(&self) -> (r: Vec<String>)
        ensures
            string_views(r@) == self.peers(),
    {
        let mut r: Vec<String> = Vec::new();
        let mut i: usize = 0;
        while i < self.known_peers.len()
            invariant
                i <= self.known_peers@.len(),
                string_views(r@) == self.peers().take(i as int),
            decreases self.known_peers@.len() - i,
        {
            let ghost before = r@;
            r.push(self.known_peers[i].clone());
            assert(string_views(r@) =~= string_views(before).push(self.known_peers@[i as int]@));
            assert(self.peers().take(i + 1) =~= self.peers().take(i as int).push(
                self.known_peers@[i as int]@,
            ));
            i = i + 1;
        }
        assert(self.peers().take(i as int) =~= self.peers());
        r
    }

    /// After a manga search went out: when no peer was connected and no dial
    /// succeeded, nobody can answer, so everyone waiting for `manga_id` is
    /// answered "not found" now (the returned tickets); otherwise they keep
    /// waiting.
    pub fn settle_manga_search(
        &mut self,
        manga_id: &String,
        connected_peers: usize,
        dialed: usize,
    ) -> (w: Vec<u64>)
        ensures
            connected_peers == 0 && dialed == 0 ==> {
                &&& w@ == waiters_of(old(self).pending(RequestKind::Manga), manga_id@)
                &&& final(self).pending(RequestKind::Manga) == old(self).pending(
                    RequestKind::Manga,
                ).remove(manga_id@)
                &&& final(self).pending_order(RequestKind::Manga) == crate::pending::without_key(
                    old(self).pending_order(RequestKind::Manga),
                    manga_id@,
                )
            },
            !(connected_peers == 0 && dialed == 0) ==> {
                &&& w@ == Seq::<u64>::empty()
                &&& final(self).pending(RequestKind::Manga) == old(self).pending(RequestKind::Manga)
                &&& final(self).pending_order(RequestKind::Manga) == old(self).pending_order(
                    RequestKind::Manga,
                )
            },
            final(self).same_except(*old(self), RequestKind::Manga),
            final(self).known_peers@ == old(self).known_peers@,
    {
        if connected_peers == 0 && dialed == 0 {
            self.resolve(RequestKind::Manga, manga_id)
        } else {
            Vec::new()
        }
    }

    /// A connection to a peer reached at `addr` was established: the address
    /// becomes known, the peer is asked for every pending lookup and for its
    /// known peers, and, when `addr` is not itself a relay circuit, the node
    /// listens through the peer as a relay.
    pub fn on_connection_established(&mut self, addr: String) -> (p: ConnectionPlan)
        ensures
            final(self).peers() == add_peer(old(self).peers(), addr@),
            final(self).same_lookups(*old(self)),
            request_summaries(p.requests@) == resend_plan(*old(self)),
            forall|kind: RequestKind, key: Seq<char>|
                #[trigger] old(self).pending_order(kind).contains(key) ==> request_summaries(
                    p.requests@,
                ).contains((Some(kind), key)),
            match multiaddr_protocol_names(addr@) {
                Some(names) => if names.contains("p2p-circuit"@) {
                    p.relay_listen is None
                } else {
                    p.relay_listen is Some && p.relay_listen->0@ == addr@ + "/p2p-circuit"@
                },
                None => p.relay_listen is None,
            },
    {
        let relay_listen = relay_listen_address(&addr);
        let mut requests: Vec<AppRequest> = Vec::new();
        append_lookups(&mut requests, RequestKind::Manga, &self.pending_manga_requests);
        append_lookups(&mut requests, RequestKind::Chapters, &self.pending_chapters_requests);
        append_lookups(
            &mut requests,
            RequestKind::ChapterDetails,
            &self.pending_chapter_details_requests,
        );
        append_lookups(&mut requests, RequestKind::Block, &self.pending_block_requests);
        append_lookups(&mut requests, RequestKind::Version, &self.pending_version_requests);
        let ghost before = requests@;
        requests.push(AppRequest::GetPeers);
        assert(request_summaries(requests@) =~= request_summaries(before).push(
            peer_list_request(),
        ));
        assert(request_summaries(requests@) =~= resend_plan(*old(self)));
        assert forall|kind: RequestKind, key: Seq<char>|
            #[trigger] old(self).pending_order(kind).contains(key) implies request_summaries(
                requests@,
            ).contains((Some(kind), key)) by {
            lemma_resend_covers_pending(*old(self), kind, key);
        }
        add_address(&mut self.known_peers, addr);
        ConnectionPlan { requests, relay_listen }
    }

    /// Peers reported their listen addresses (identify, local discovery):
    /// each becomes known unless it already is.
    pub fn on_addresses_discovered(&mut self, addrs: &Vec<String>)
        ensures
            final(self).peers() == add_peers(old(self).peers(), string_views(addrs@)),
            final(self).same_lookups(*old(self)),
    {
        add_addresses(&mut self.known_peers, addrs);
    }

    /// A peer sent its list of known peers: those entries that parse as
    /// multiaddrs and are not yet known become known, and are returned to be
    /// dialed, in order.
    pub fn on_peer_list(&mut self, reported: &Vec<String>) -> (dial: Vec<String>)
        ensures
            final(self).peers() == add_peers(
                old(self).peers(),
                parsed_addresses(string_views(reported@)),
            ),
            string_views(dial@) == final(self).peers().skip(old(self).peers().len() as int),
            final(self).same_lookups(*old(self)),
    {
        let parsed = parse_addresses(reported);
        let start = self.known_peers.len();
        add_addresses(&mut self.known_peers, &parsed);
        proof {
            lemma_add_peers_extends(old(self).peers(), string_views(parsed@));
        }
        let mut dial: Vec<String> = Vec::new();
        let mut i: usize = start;
        while i < self.known_peers.len()
            invariant
                start <= i <= self.known_peers@.len(),
                string_views(dial@) == self.peers().subrange(start as int, i as int),
            decreases self.known_peers@.len() - i,
        {
            let ghost before = dial@;
            dial.push(self.known_peers[i].clone());
            assert(string_views(dial@) =~= string_views(before).push(self.known_peers@[i as int]@));
            assert(self.peers().subrange(start as int, i + 1) =~= self.peers().subrange(
                start as int,
                i as int,
            ).push(self.known_peers@[i as int]@));
            i = i + 1;
        }
        assert(self.peers().subrange(start as int, i as int) =~= self.peers().skip(start as int));
        dial
    }

    /// What to answer a peer that asks for known peers: each known address
    /// once.
    pub fn peers_to_share(&self) -> (r: Vec<String>)
        ensures
            string_views(r@) == shared_peers(self.peers()),
            string_views(r@).no_duplicates(),
            string_views(r@).to_set() == self.peers().to_set(),
    {
        distinct_addresses(&self.known_peers)
    }
}

/// Appends one lookup request per pending key of `table`.
fn append_lookups(requests: &mut Vec<AppRequest>, kind: RequestKind, table: &PendingTable)
    ensures
        request_summaries(final(requests)@) == request_summaries(old(requests)@) + lookups_for(
            kind,
            table.key_order(),
        ),
{
    let keys = table.keys();
    let mut i: usize = 0;
    while i < keys.len()
        invariant
            i <= keys@.len(),
            string_views(keys@) == table.key_order(),
            request_summaries(requests@) == request_summaries(old(requests)@) + lookups_for(
                kind,
                table.key_order().take(i as int),
            ),
        decreases keys@.len() - i,
    {
        let r = AppRequest::for_kind(kind, keys[i].clone());
        let ghost before = requests@;
        requests.push(r);
        proof {
            assert(request_summaries(requests@) =~= request_summaries(before).push(r.summary()));
            assert(table.key_order()[i as int] == keys@[i as int]@);
            assert(lookups_for(kind, table.key_order().take(i + 1)) =~= lookups_for(
                kind,
                table.key_order().take(i as int),
            ).push((Some(kind), keys@[i as int]@)));
        }
        i = i + 1;
    }
    assert(table.key_order().take(i as int) =~= table.key_order());
}

/// The bytes to record for a transfer of `len` bytes.
pub fn transfer_size(len: usize) -> (r: Option<u64>)
    ensures
        r == transfer_record(len as nat),
        len > 0 ==> r == Some(len as u64),
        len == 0 ==> r is None,
{
    if len > 0 && len as u64 as usize == len {
        Some(len as u64)
    } else {
        None
    }
}

/// After serving a block of `payload_len` bytes to a peer: the bytes to
/// record as uploaded to it, when the answer went out and was not empty.
pub fn upload_to_record(payload_len: usize, response_sent: bool) -> (r: Option<u64>)
    ensures
        r == (if response_sent { transfer_record(payload_len as nat) } else { None }),
        r == (if response_sent && payload_len > 0 { Some(payload_len as u64) } else { None }),
{
    if response_sent {
        transfer_size(payload_len)
    } else {
        None
    }
}

/// Asking connected peers for their peers: how many are asked, and the
/// request to send them (none when nobody is connected).
pub fn discovery_round(connected_peers: usize) -> (r: (usize, Option<AppRequest>))
    ensures
        r.0 == connected_peers,
        r.1 is Some <==> connected_peers > 0,
        r.1 matches Some(req) ==> req.summary() == peer_list_request(),
{
    if connected_peers > 0 {
        (connected_peers, Some(AppRequest::GetPeers))
    } else {
        (connected_peers, None)
    }
}

proof fn lemma_lookups_for_contains(kind: RequestKind, keys: Seq<Seq<char>>, key: Seq<char>)
    requires
        keys.contains(key),
    ensures
        lookups_for(kind, keys).contains((Some(kind), key)),
{
    let j = choose|j: int| 0 <= j < keys.len() && keys[j] == key;
    assert(lookups_for(kind, keys)[j] == (Some(kind), key));
}

proof fn lemma_concat_contains<T>(a: Seq<T>, b: Seq<T>, x: T)
    ensures
        a.contains(x) ==> (a + b).contains(x),
        b.contains(x) ==> (a + b).contains(x),
{
    if a.contains(x) {
        let j = choose|j: int| 0 <= j < a.len() && a[j] == x;
        assert((a + b)[j] == x);
    }
    if b.contains(x) {
        let j = choose|j: int| 0 <= j < b.len() && b[j] == x;
        assert((a + b)[a.len() + j] == x);
    }
}

/// A newly connected peer is asked for every lookup in flight, of every
/// kind (series, chapter lists, chapter details, blocks, versions), and for
/// its known peers.
pub proof fn lemma_resend_covers_pending(s: NodeState, kind: RequestKind, key: Seq<char>)
    requires
        s.pending_order(kind).contains(key),
    ensures
        resend_plan(s).contains((Some(kind), key)),
        resend_plan(s).contains((None::<RequestKind>, Seq::<char>::empty())),
{
    let m = lookups_for(RequestKind::Manga, s.pending_order(RequestKind::Manga));
    let c = lookups_for(RequestKind::Chapters, s.pending_order(RequestKind::Chapters));
    let d = lookups_for(RequestKind::ChapterDetails, s.pending_order(RequestKind::ChapterDetails));
    let b = lookups_for(RequestKind::Block, s.pending_order(RequestKind::Block));
    let v = lookups_for(RequestKind::Version, s.pending_order(RequestKind::Version));
    let tail = seq![peer_list_request()];
    assert(resend_plan(s) == m + c + d + b + v + tail);
    lemma_lookups_for_contains(kind, s.pending_order(kind), key);
    lemma_concat_contains(m, c, (Some(kind), key));
    lemma_concat_contains(m + c, d, (Some(kind), key));
    lemma_concat_contains(m + c + d, b, (Some(kind), key));
    lemma_concat_contains(m + c + d + b, v, (Some(kind), key));
    lemma_concat_contains(m + c + d + b + v, tail, (Some(kind), key));
    assert(tail[0] == (None::<RequestKind>, Seq::<char>::empty()));
    lemma_concat_contains(m + c + d + b + v, tail, (None::<RequestKind>, Seq::<char>::empty()));
}

/// Every non-empty transfer is recorded with its full size, and an empty
/// one is not recorded.
pub proof fn lemma_transfers_recorded_in_full(len: nat)
    ensures
        0 < len <= u64::MAX ==> transfer_record(len) == Some(len as u64),
        len == 0 ==> transfer_record(len) is None,
{
}

/// Adding addresses only ever appends to the known list.
pub proof fn lemma_add_peers_extends(known: Seq<Seq<char>>, addrs: Seq<Seq<char>>)
    ensures
        add_peers(known, addrs).len() >= known.len(),
        add_peers(known, addrs).take(known.len() as int) == known,
    decreases addrs.len(),
{
    if addrs.len() == 0 {
        assert(known.take(known.len() as int) =~= known);
    } else {
        lemma_add_peers_extends(known, addrs.drop_last());
        let mid = add_peers(known, addrs.drop_last());
        crate::peers::lemma_add_peer(mid, addrs.last());
        assert(add_peer(mid, addrs.last()).take(known.len() as int) =~= mid.take(
            known.len() as int,
        )) by {
            assert(add_peer(mid, addrs.last()).take(mid.len() as int) == mid);
        }
    }
}

/// Every ticket registered for a key is handed back when the key is
/// answered, after the tickets registered before it, and exactly once: a
/// second answer for the key hands back nobody. Registering or answering
/// one key leaves everyone waiting for other keys as they were.
pub proof fn lemma_lookup_answered_once(
    m: Map<Seq<char>, Seq<u64>>,
    key: Seq<char>,
    ticket: u64,
    other: Seq<char>,
)
    ensures
        waiters_of(with_waiter(m, key, ticket), key) == waiters_of(m, key).push(ticket),
        with_waiter(m, key, ticket).remove(key) == m.remove(key),
        waiters_of(m.remove(key), key) == Seq::<u64>::empty(),
        other != key ==> waiters_of(with_waiter(m, key, ticket), other) == waiters_of(m, other),
        other != key ==> waiters_of(m.remove(key), other) == waiters_of(m, other),
{
    if m.contains_key(key) {
    } else {
        assert(Seq::<u64>::empty().push(ticket) =~= seq![ticket]);
    }
    assert(with_waiter(m, key, ticket).remove(key) =~= m.remove(key));
}

/// Known peers only grow: every address known before stays known at its
/// place, every discovered address becomes known, no address is listed
/// twice unless it already was, and rediscovering the same addresses
/// changes nothing.
pub proof fn lemma_known_peers_grow(known: Seq<Seq<char>>, addrs: Seq<Seq<char>>)
    ensures
        add_peers(known, addrs).take(known.len() as int) == known,
        add_peers(known, addrs).to_set() == known.to_set() + addrs.to_set(),
        known.no_duplicates() ==> add_peers(known, addrs).no_duplicates(),
        add_peers(add_peers(known, addrs), addrs) == add_peers(known, addrs),
    decreases addrs.len(),
{
    lemma_add_peers_extends(known, addrs);
    lemma_add_peers_set(known, addrs);
    assert forall|i: int| 0 <= i < addrs.len() implies add_peers(known, addrs).contains(
        #[trigger] addrs[i],
    ) by {
        assert(addrs.to_set().contains(addrs[i]));
        assert(add_peers(known, addrs).to_set().contains(addrs[i]));
    }
    lemma_add_present(add_peers(known, addrs), addrs);
}

proof fn lemma_add_peers_set(known: Seq<Seq<char>>, addrs: Seq<Seq<char>>)
    ensures
        add_peers(known, addrs).to_set() == known.to_set() + addrs.to_set(),
        known.no_duplicates() ==> add_peers(known, addrs).no_duplicates(),
    decreases addrs.len(),
{
    if addrs.len() == 0 {
        assert(addrs.to_set() =~= Set::<Seq<char>>::empty());
        assert(known.to_set() + addrs.to_set() =~= known.to_set());
    } else {
        let init = addrs.drop_last();
        lemma_add_peers_set(known, init);
        crate::peers::lemma_add_peer(add_peers(known, init), addrs.last());
        init.lemma_push_to_set_commute(addrs.last());
        assert(init.push(addrs.last()) =~= addrs);
        assert(known.to_set() + addrs.to_set() =~= (known.to_set() + init.to_set()).insert(
            addrs.last(),
        ));
    }
}

proof fn lemma_add_present(s: Seq<Seq<char>>, addrs: Seq<Seq<char>>)
    requires
        forall|i: int| 0 <= i < addrs.len() ==> s.contains(#[trigger] addrs[i]),
    ensures
        add_peers(s, addrs) == s,
    decreases addrs.len(),
{
    if addrs.len() > 0 {
        assert forall|i: int| 0 <= i < addrs.drop_last().len() implies s.contains(
            #[trigger] addrs.drop_last()[i],
        ) by {
            assert(addrs.drop_last()[i] == addrs[i]);
        }
        lemma_add_present(s, addrs.drop_last());
        assert(s.contains(addrs[addrs.len() - 1]));
    }
}

} // verus!
