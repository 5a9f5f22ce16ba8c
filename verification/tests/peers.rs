use manga_bay::peers::{bootstrap_addresses, canonical_multiaddr, distinct_addresses, relay_listen_address};
use manga_bay::{KnownPeers, PeerPersistence};

#[test]
fn canonical_form_of_a_multiaddr() {
    assert_eq!(canonical_multiaddr("/ip4/127.0.0.1/tcp/3001"), Some("/ip4/127.0.0.1/tcp/3001".to_string()));
    assert_eq!(canonical_multiaddr("/ip4/127.0.0.1/tcp/03001"), Some("/ip4/127.0.0.1/tcp/3001".to_string()));
}

#[test]
fn non_multiaddrs_are_refused() {
    assert_eq!(canonical_multiaddr("garbage"), None);
    assert_eq!(canonical_multiaddr("127.0.0.1:3001"), None);
    assert_eq!(canonical_multiaddr("/ip4/999.0.0.1/tcp/1"), None);
}

#[test]
fn persistence_lives_in_the_data_directory() {
    let p = PeerPersistence::new("./data/node1");
    let path = std::path::PathBuf::from(p.file_path());
    assert_eq!(path, std::path::Path::new("./data/node1").join("peers.json"));
}

#[test]
fn loading_skips_bad_entries() {
    let file = KnownPeers {
        peers: vec!["/ip4/10.0.0.1/tcp/4001".into(), "not an address".into(), "/dns4/example.org/tcp/1".into()],
    };
    let loaded = PeerPersistence::addresses_from_file(&file);
    assert_eq!(loaded, vec!["/ip4/10.0.0.1/tcp/4001".to_string(), "/dns4/example.org/tcp/1".to_string()]);
}

#[test]
fn saving_lists_each_address_once() {
    let addrs = vec!["/ip4/1.1.1.1/tcp/1".to_string(), "/ip4/2.2.2.2/tcp/2".to_string(), "/ip4/1.1.1.1/tcp/1".to_string()];
    let file = PeerPersistence::file_from_addresses(&addrs);
    assert_eq!(file.peers, vec!["/ip4/1.1.1.1/tcp/1".to_string(), "/ip4/2.2.2.2/tcp/2".to_string()]);
}

#[test]
fn saved_file_loads_back() {
    let addrs = vec!["/ip4/1.1.1.1/tcp/1".to_string(), "/ip4/2.2.2.2/tcp/2".to_string()];
    let file = PeerPersistence::file_from_addresses(&addrs);
    assert_eq!(PeerPersistence::addresses_from_file(&file), addrs);
}

#[test]
fn distinct_keeps_first_occurrences() {
    let list = vec!["b".to_string(), "a".to_string(), "b".to_string(), "c".to_string(), "a".to_string()];
    assert_eq!(distinct_addresses(&list), vec!["b".to_string(), "a".to_string(), "c".to_string()]);
}

#[test]
fn bootstrap_adds_parsable_cli_peers_after_loaded_ones() {
    let loaded = vec!["/ip4/1.1.1.1/tcp/1".to_string()];
    let cli = vec!["bad".to_string(), "/ip4/2.2.2.2/tcp/2".to_string(), "/ip4/1.1.1.1/tcp/1".to_string()];
    assert_eq!(
        bootstrap_addresses(loaded, &cli),
        vec!["/ip4/1.1.1.1/tcp/1".to_string(), "/ip4/2.2.2.2/tcp/2".to_string(), "/ip4/1.1.1.1/tcp/1".to_string()]
    );
}

#[test]
fn relay_address_appends_circuit() {
    assert_eq!(
        relay_listen_address(&"/ip4/1.2.3.4/tcp/4001".to_string()),
        Some("/ip4/1.2.3.4/tcp/4001/p2p-circuit".to_string())
    );
    let relayed: libp2p::Multiaddr = "/ip4/1.2.3.4/tcp/4001/p2p-circuit".parse().unwrap();
    assert_eq!(relayed.to_string(), "/ip4/1.2.3.4/tcp/4001/p2p-circuit");
}

#[test]
fn no_relay_through_a_circuit_or_a_non_address() {
    assert_eq!(relay_listen_address(&"/ip4/1.2.3.4/tcp/4001/p2p-circuit".to_string()), None);
    assert_eq!(relay_listen_address(&"nonsense".to_string()), None);
}

#[test]
fn canonical_text_is_its_own_canonical_text() {
    for text in ["/ip4/127.0.0.1/tcp/03001", "/dns4/example.org/tcp/443/wss", "/ip6/::1/udp/9/quic-v1"] {
        let c = canonical_multiaddr(text).unwrap();
        assert_eq!(canonical_multiaddr(&c), Some(c.clone()));
    }
}

#[test]
fn saved_canonical_addresses_load_back_once_each() {
    let addrs: Vec<String> = ["/ip4/10.0.0.2/tcp/7", "/ip4/10.0.0.1/tcp/01", "/ip4/10.0.0.2/tcp/7"]
        .iter()
        .map(|t| canonical_multiaddr(t).unwrap())
        .collect();
    let file = PeerPersistence::file_from_addresses(&addrs);
    let loaded = PeerPersistence::addresses_from_file(&file);
    assert_eq!(loaded, vec!["/ip4/10.0.0.2/tcp/7".to_string(), "/ip4/10.0.0.1/tcp/1".to_string()]);
    assert_eq!(loaded, file.peers);
}

#[test]
fn peer_file_is_inside_the_data_directory() {
    let sep = std::path::MAIN_SEPARATOR;
    assert_eq!(PeerPersistence::new("data").file_path(), format!("data{}peers.json", sep));
    assert_eq!(PeerPersistence::new("./data/node1").file_path(), format!("./data/node1{}peers.json", sep));
    assert_eq!(PeerPersistence::new("data/").file_path(), "data/peers.json");
    assert_eq!(PeerPersistence::new("").file_path(), "peers.json");
}
