//! Peer addresses: parsing them as multiaddrs, keeping the list of known
//! peers free of repeats, and the on-disk form of that list.
use vstd::prelude::*;
use crate::pending::string_views;

verus! {

/// The canonical text of the multiaddr that `text` parses to, or `None`
/// when `text` is not a multiaddr.
pub uninterp spec fn multiaddr_canonical(text: Seq<char>) -> Option<Seq<char>>;

/// The protocol names of the multiaddr that `text` parses to, in order,
/// or `None` when `text` is not a multiaddr.
pub uninterp spec fn multiaddr_protocol_names(text: Seq<char>) -> Option<Seq<Seq<char>>>;

/// Parses `text` as a `libp2p::Multiaddr` (its `FromStr`) and renders the
/// result with its `Display`. Trusted: the result is the named canonical
/// text; as the parser's source shows, text that does not begin with `/`
/// is refused; and the canonical text parses back to the same address, so
/// it is its own canonical text (the crate's `to_from_str_identity`
/// property test states `from_str(a.to_string()) == a`).
#[verifier::external_body]
fn parse_multiaddr(text: &str) -> (r: Option<String>)
    ensures
        match r {
            Some(c) => multiaddr_canonical(text@) == Some(c@),
            None => multiaddr_canonical(text@) is None,
        },
        text@.len() > 0 && text@[0] != '/' ==> r is None,
        r matches Some(c) ==> multiaddr_canonical(c@) == Some(c@),
{
    text.parse::<libp2p::Multiaddr>().ok().map(|m| m.to_string())
}

/// Parses `text` as a `libp2p::Multiaddr` and lists the names (`tag()`) of
/// its protocols. Trusted: the result is the named list, and it is present
/// exactly when `text` parses.
#[verifier::external_body]
fn multiaddr_protocols(text: &str) -> (r: Option<Vec<String>>)
    ensures
        match r {
            Some(names) => multiaddr_protocol_names(text@) == Some(string_views(names@)),
            None => multiaddr_protocol_names(text@) is None,
        },
        r is Some <==> multiaddr_canonical(text@) is Some,
{
    match text.parse::<libp2p::Multiaddr>() {
        Ok(m) => Some(m.iter().map(|p| p.tag().to_string()).collect()),
        Err(_) => None,
    }
}

/// The canonical multiaddr text of `text`, if it is one; that text is its
/// own canonical text.
pub fn canonical_multiaddr(text: &str) -> (r: Option<String>)
    ensures
        match r {
            Some(c) => multiaddr_canonical(text@) == Some(c@),
            None => multiaddr_canonical(text@) is None,
        },
        text@.len() > 0 && text@[0] != '/' ==> r is None,
        r matches Some(c) ==> multiaddr_canonical(c@) == Some(c@),
{
    parse_multiaddr(text)
}

/// The canonical forms of those entries of `texts` that are multiaddrs, in
/// order; the others are dropped.
pub open spec fn parsed_addresses(texts: Seq<Seq<char>>) -> Seq<Seq<char>>
    decreases texts.len(),
{
    if texts.len() == 0 {
        Seq::empty()
    } else {
        let rest = parsed_addresses(texts.drop_last());
        match multiaddr_canonical(texts.last()) {
            Some(c) => rest.push(c),
            None => rest,
        }
    }
}

/// Every entry of `s` is its own canonical multiaddr text.
pub open spec fn all_canonical(s: Seq<Seq<char>>) -> bool {
    forall|i: int| 0 <= i < s.len() ==> multiaddr_canonical(#[trigger] s[i]) == Some(s[i])
}

/// Parses each text as a multiaddr and keeps the canonical forms of those
/// that parse, in order.
pub fn parse_addresses(texts: &Vec<String>) -> (r: Vec<String>)
    ensures
        string_views(r@) == parsed_addresses(string_views(texts@)),
        all_canonical(string_views(r@)),
{
    let mut r: Vec<String> = Vec::new();
    let mut i: usize = 0;
    while i < texts.len()
        invariant
            i <= texts@.len(),
            string_views(r@) == parsed_addresses(string_views(texts@).take(i as int)),
            all_canonical(string_views(r@)),
        decreases texts@.len() - i,
    {
        let ghost before = r@;
        let parsed = parse_multiaddr(texts[i].as_str());
        assert(string_views(texts@).take(i + 1).drop_last() =~= string_views(texts@).take(i as int));
        match parsed {
            Some(c) => {
                r.push(c);
                assert(string_views(r@) =~= string_views(before).push(c@));
                assert forall|j: int| 0 <= j < string_views(r@).len() implies multiaddr_canonical(
                    #[trigger] string_views(r@)[j],
                ) == Some(string_views(r@)[j]) by {
                    if j < before.len() {
                        assert(string_views(r@)[j] == string_views(before)[j]);
                    }
                }
            },
            None => {},
        }
        i = i + 1;
    }
    assert(string_views(texts@).take(i as int) =~= string_views(texts@));
    r
}

/// `a` appended to `known` unless it is already there.
pub open spec fn add_peer(known: Seq<Seq<char>>, a: Seq<char>) -> Seq<Seq<char>> {
    if known.contains(a) {
        known
    } else {
        known.push(a)
    }
}

/// Each address of `addrs` added in turn with [`add_peer`].
pub open spec fn add_peers(known: Seq<Seq<char>>, addrs: Seq<Seq<char>>) -> Seq<Seq<char>>
    decreases addrs.len(),
{
    if addrs.len() == 0 {
        known
    } else {
        add_peer(add_peers(known, addrs.drop_last()), addrs.last())
    }
}

/// Whether `list` holds `a`.
pub fn contains_address(list: &Vec<String>, a: &String) -> (b: bool)
    ensures
        b == string_views(list@).contains(a@),
{
    let mut i: usize = 0;
    while i < list.len()
        invariant
            i <= list@.len(),
            forall|j: int| 0 <= j < i ==> list@[j]@ != a@,
        decreases list@.len() - i,
    {
        if list[i] == *a {
            assert(string_views(list@)[i as int] == a@);
            return true;
        }
        i = i + 1;
    }
    assert forall|j: int| 0 <= j < list@.len() implies string_views(list@)[j] != a@ by {
        assert(string_views(list@)[j] == list@[j]@);
    }
    false
}

/// Appends `a` to `list` unless it is already there; says whether it did.
pub fn add_address(list: &mut Vec<String>, a: String) -> (added: bool)
    ensures
        string_views(final(list)@) == add_peer(string_views(old(list)@), a@),
        added == !string_views(old(list)@).contains(a@),
{
    if contains_address(list, &a) {
        false
    } else {
        let ghost before = list@;
        list.push(a);
        assert(string_views(list@) =~= string_views(before).push(a@));
        true
    }
}

/// Adds each address of `addrs` in turn with [`add_address`].
pub fn add_addresses(list: &mut Vec<String>, addrs: &Vec<String>)
    ensures
        string_views(final(list)@) == add_peers(string_views(old(list)@), string_views(addrs@)),
{
    let mut i: usize = 0;
    while i < addrs.len()
        invariant
            i <= addrs@.len(),
            string_views(list@) == add_peers(
                string_views(old(list)@),
                string_views(addrs@).take(i as int),
            ),
        decreases addrs@.len() - i,
    {
        add_address(list, addrs[i].clone());
        assert(string_views(addrs@).take(i + 1).drop_last() =~= string_views(addrs@).take(i as int));
        i = i + 1;
    }
    assert(string_views(addrs@).take(i as int) =~= string_views(addrs@));
}

/// The distinct entries of `s`, each at its first occurrence.
pub open spec fn distinct_in_order(s: Seq<Seq<char>>) -> Seq<Seq<char>>
    decreases s.len(),
{
    if s.len() == 0 {
        Seq::empty()
    } else {
        add_peer(distinct_in_order(s.drop_last()), s.last())
    }
}

/// The distinct entries of `list`, each at its first occurrence.
pub fn distinct_addresses(list: &Vec<String>) -> (r: Vec<String>)
    ensures
        string_views(r@) == distinct_in_order(string_views(list@)),
        string_views(r@).no_duplicates(),
        string_views(r@).to_set() == string_views(list@).to_set(),
{
    let mut r: Vec<String> = Vec::new();
    let mut i: usize = 0;
    while i < list.len()
        invariant
            i <= list@.len(),
            string_views(r@) == distinct_in_order(string_views(list@).take(i as int)),
        decreases list@.len() - i,
    {
        add_address(&mut r, list[i].clone());
        assert(string_views(list@).take(i + 1).drop_last() =~= string_views(list@).take(i as int));
        i = i + 1;
    }
    assert(string_views(list@).take(i as int) =~= string_views(list@));
    proof {
        lemma_distinct_in_order(string_views(list@));
    }
    r
}

/// Adding peers never loses one, never repeats one, and adds exactly those
/// not yet present.
pub proof fn lemma_add_peer(known: Seq<Seq<char>>, a: Seq<char>)
    ensures
        add_peer(known, a).to_set() == known.to_set().insert(a),
        known.no_duplicates() ==> add_peer(known, a).no_duplicates(),
        add_peer(add_peer(known, a), a) == add_peer(known, a),
        add_peer(known, a).take(known.len() as int) == known,
{
    if !known.contains(a) {
        known.lemma_push_to_set_commute(a);
        assert(known.push(a).take(known.len() as int) =~= known);
        assert(known.push(a).contains(a)) by {
            assert(known.push(a)[known.len() as int] == a);
        }
    } else {
        assert(known.to_set().insert(a) =~= known.to_set());
        assert(known.take(known.len() as int) =~= known);
    }
}

/// The distinct entries hold each entry once.
pub proof fn lemma_distinct_in_order(s: Seq<Seq<char>>)
    ensures
        distinct_in_order(s).no_duplicates(),
        distinct_in_order(s).to_set() == s.to_set(),
    decreases s.len(),
{
    if s.len() == 0 {
        assert(s.to_set() =~= Set::<Seq<char>>::empty());
        assert(distinct_in_order(s) =~= Seq::<Seq<char>>::empty());
    } else {
        lemma_distinct_in_order(s.drop_last());
        lemma_add_peer(distinct_in_order(s.drop_last()), s.last());
        assert(s.drop_last().push(s.last()) =~= s);
        assert(s.to_set() =~= s.drop_last().to_set().insert(s.last())) by {
            assert forall|x: Seq<char>| s.to_set().contains(x) == s.drop_last().to_set().insert(
                s.last(),
            ).contains(x) by {
                if s.contains(x) {
                    let i = choose|i: int| 0 <= i < s.len() && s[i] == x;
                    if i < s.len() - 1 {
                        assert(s.drop_last()[i] == x);
                    }
                }
                if s.drop_last().contains(x) {
                    let i = choose|i: int| 0 <= i < s.drop_last().len() && s.drop_last()[i] == x;
                    assert(s[i] == x);
                }
                assert(s[s.len() - 1] == s.last());
            }
        }
    }
}

proof fn lemma_canonical_parse_back(s: Seq<Seq<char>>)
    requires
        all_canonical(s),
    ensures
        parsed_addresses(s) == s,
    decreases s.len(),
{
    if s.len() > 0 {
        let init = s.drop_last();
        assert forall|i: int| 0 <= i < init.len() implies multiaddr_canonical(#[trigger] init[i])
            == Some(init[i]) by {
            assert(init[i] == s[i]);
        }
        lemma_canonical_parse_back(init);
        assert(multiaddr_canonical(s[s.len() - 1]) == Some(s[s.len() - 1]));
        assert(init.push(s.last()) =~= s);
    }
}

/// A peer file saved from canonical addresses loads back as exactly what
/// was written (each address once, in the order first given), and so as
/// the set of addresses saved.
pub proof fn lemma_saved_peers_load_back(addrs: Seq<Seq<char>>)
    requires
        all_canonical(addrs),
    ensures
        parsed_addresses(distinct_in_order(addrs)) == distinct_in_order(addrs),
        parsed_addresses(distinct_in_order(addrs)).to_set() == addrs.to_set(),
{
    let d = distinct_in_order(addrs);
    lemma_distinct_in_order(addrs);
    assert forall|i: int| 0 <= i < d.len() implies multiaddr_canonical(#[trigger] d[i]) == Some(
        d[i],
    ) by {
        assert(d.to_set().contains(d[i]));
        assert(addrs.to_set().contains(d[i]));
        let j = choose|j: int| 0 <= j < addrs.len() && addrs[j] == d[i];
        assert(multiaddr_canonical(addrs[j]) == Some(addrs[j]));
    }
    lemma_canonical_parse_back(d);
}

/// The peer list as it is written to disk.
#[derive(Clone, Debug)]
pub struct KnownPeers {
    pub peers: Vec<String>,
}

/// Where a node keeps its list of known peers between runs: the file
/// `peers.json` in its data directory.
#[derive(Debug)]
pub struct PeerPersistence {
    data_dir: String,
    file_name: String,
}

/// A plain file name: letters, digits, `.`, `_` and `-` only, with at least
/// one letter or digit (so neither a path nor `.` or `..`).
pub open spec fn is_plain_file_name(name: Seq<char>) -> bool {
    &&& forall|i: int|
        0 <= i < name.len() ==> {
            let c = #[trigger] name[i];
            ('a' <= c <= 'z') || ('A' <= c <= 'Z') || ('0' <= c <= '9') || c == '.' || c == '_'
                || c == '-'
        }
    &&& exists|i: int|
        0 <= i < name.len() && {
            let c = #[trigger] name[i];
            ('a' <= c <= 'z') || ('A' <= c <= 'Z') || ('0' <= c <= '9')
        }
}

/// A path separator on some platform: `/`, or a backslash on Windows.
pub open spec fn is_separator(c: char) -> bool {
    c == '/' || c == '\\'
}

/// The directory begins like Windows' verbatim prefix `\\?\` (two
/// separators, then `?`). Joining onto such a directory may rewrite it, so
/// nothing is promised of how it is kept.
pub open spec fn has_verbatim_prefix(dir: Seq<char>) -> bool {
    dir.len() >= 3 && is_separator(dir[0]) && is_separator(dir[1]) && dir[2] == '?'
}

/// Joining onto `dir` puts a separator first: `dir` is not empty and ends
/// neither in a separator nor in `:` (as a bare drive such as `C:` does).
pub open spec fn needs_separator(dir: Seq<char>) -> bool {
    dir.len() > 0 && !is_separator(dir.last()) && dir.last() != ':'
}

/// `r` is `dir`, then one separator, then `name`.
pub open spec fn separated_join(dir: Seq<char>, name: Seq<char>, r: Seq<char>) -> bool {
    &&& r.len() == dir.len() + 1 + name.len()
    &&& r.take(dir.len() as int) == dir
    &&& is_separator(r[dir.len() as int])
    &&& r.skip(dir.len() + 1int) == name
}

/// Joins a file name onto a directory (std's `Path::join`, which pushes
/// onto a copy of the directory), as text. Trusted, for a plain file name,
/// as std documents `PathBuf::push` for a relative path: the result ends
/// with the name; unless the directory has a verbatim prefix (which Windows
/// normalises), the directory is kept as it is at the front; and when the
/// directory needs a separator, exactly one (`/`, or a backslash on Windows) goes
/// between. Which of the two separators is the platform's, and what a
/// verbatim directory becomes, is left unsaid.
#[verifier::external_body]
fn join_path(dir: &str, name: &str) -> (r: String)
    ensures
        is_plain_file_name(name@) ==> {
            &&& r@.len() >= name@.len()
            &&& r@.skip(r@.len() - name@.len()) == name@
            &&& !has_verbatim_prefix(dir@) ==> {
                &&& r@.len() >= dir@.len() + name@.len()
                &&& r@.take(dir@.len() as int) == dir@
            }
            &&& !has_verbatim_prefix(dir@) && needs_separator(dir@) ==> separated_join(
                dir@,
                name@,
                r@,
            )
        },
{
    std::path::Path::new(dir).join(name).to_string_lossy().into_owned()
}

impl PeerPersistence {
    /// The peer file is always `peers.json`.
    #[verifier::type_invariant]
    spec fn names_peer_file(self) -> bool {
        self.file_name@ == "peers.json"@
    }

    /// The directory the peer file lives in.
    pub closed spec fn data_dir(&self) -> Seq<char> {
        self.data_dir@
    }

    /// The name of the peer file within that directory.
    pub closed spec fn file_name(&self) -> Seq<char> {
        self.file_name@
    }

    /// Persistence for the node whose data directory is `data_dir`.
    pub fn new(data_dir: &str) -> (p: PeerPersistence)
        ensures
            p.data_dir() == data_dir@,
            p.file_name() == "peers.json"@,
    {
        let file_name = String::from_str("peers.json");
        let dir = String::from_str(data_dir);
        PeerPersistence { data_dir: dir, file_name }
    }

    /// The path of the peer file: `peers.json` joined onto the directory.
    /// It ends with `peers.json`; unless the directory has a verbatim
    /// prefix it begins with the directory; and when the directory needs a
    /// separator, it is the directory, one separator and `peers.json`, so
    /// the file lies inside the directory.
    pub fn file_path(&self) -> (r: String)
        ensures
            r@.len() >= "peers.json"@.len(),
            r@.skip(r@.len() - "peers.json"@.len()) == "peers.json"@,
            !has_verbatim_prefix(self.data_dir()) ==> {
                &&& r@.len() >= self.data_dir().len() + "peers.json"@.len()
                &&& r@.take(self.data_dir().len() as int) == self.data_dir()
            },
            !has_verbatim_prefix(self.data_dir()) && needs_separator(self.data_dir())
                ==> separated_join(self.data_dir(), "peers.json"@, r@),
    {
        proof {
            use_type_invariant(self);
            reveal_strlit("peers.json");
            let n = "peers.json"@;
            assert(n[0] == 'p');
            assert forall|i: int| 0 <= i < n.len() implies {
                let c = #[trigger] n[i];
                ('a' <= c <= 'z') || ('A' <= c <= 'Z') || ('0' <= c <= '9') || c == '.' || c
                    == '_' || c == '-'
            } by {}
            assert(is_plain_file_name(n));
        }
        join_path(self.data_dir.as_str(), self.file_name.as_str())
    }

    /// The addresses a loaded peer file yields: those entries that parse as
    /// multiaddrs, in canonical form; the rest are skipped.
    pub fn addresses_from_file(known: &KnownPeers) -> (r: Vec<String>)
        ensures
            string_views(r@) == parsed_addresses(string_views(known.peers@)),
    {
        parse_addresses(&known.peers)
    }

    /// The file contents for a list of addresses: each address once, at its
    /// first occurrence. When every address is canonical multiaddr text (as
    /// the text form of a parsed address is), loading the file gives back
    /// exactly these contents.
    pub fn file_from_addresses(addrs: &Vec<String>) -> (k: KnownPeers)
        ensures
            string_views(k.peers@) == distinct_in_order(string_views(addrs@)),
            string_views(k.peers@).no_duplicates(),
            string_views(k.peers@).to_set() == string_views(addrs@).to_set(),
            all_canonical(string_views(addrs@)) ==> parsed_addresses(string_views(k.peers@))
                == string_views(k.peers@),
    {
        let k = KnownPeers { peers: distinct_addresses(addrs) };
        proof {
            if all_canonical(string_views(addrs@)) {
                lemma_saved_peers_load_back(string_views(addrs@));
            }
        }
        k
    }
}

/// The peers a node starts with: those loaded from disk, then those given on
/// the command line that parse as multiaddrs (repeats are kept).
pub fn bootstrap_addresses(loaded: Vec<String>, cli: &Vec<String>) -> (r: Vec<String>)
    ensures
        string_views(r@) == string_views(loaded@) + parsed_addresses(string_views(cli@)),
{
    let mut r = loaded;
    let ghost before = r@;
    let mut extra = parse_addresses(cli);
    let ghost e = extra@;
    r.append(&mut extra);
    assert(string_views(r@) =~= string_views(before) + string_views(e));
    r
}

/// The address to listen on through a relay reached at `addr`: `addr`
/// followed by `/p2p-circuit`; `None` when `addr` is not a multiaddr or
/// already goes through a relay circuit.
pub fn relay_listen_address(addr: &String) -> (r: Option<String>)
    ensures
        match multiaddr_protocol_names(addr@) {
            Some(names) => if names.contains("p2p-circuit"@) {
                r is None
            } else {
                r is Some && r->0@ == addr@ + "/p2p-circuit"@
            },
            None => r is None,
        },
{
    match multiaddr_protocols(addr.as_str()) {
        None => None,
        Some(names) => {
            let circuit = String::from_str("p2p-circuit");
            if contains_address(&names, &circuit) {
                None
            } else {
                let mut out = addr.clone();
                out.append("/p2p-circuit");
                Some(out)
            }
        },
    }
}

} // verus!
