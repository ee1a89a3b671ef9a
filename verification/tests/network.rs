use ai4all::network::{
    NetworkAction, NetworkCommand, NetworkError, NetworkEvent, NodeCapabilities, P2PNetwork,
    PeerSet,
};
use ai4all::routing::{RouteError, RouteStep};

fn advert(node_id: &str, memory_mib: u64) -> NodeCapabilities {
    NodeCapabilities {
        node_id: node_id.to_string(),
        models: vec!["llama3".to_string()],
        memory_mib,
        layer_ranges: vec![],
    }
}

fn started() -> P2PNetwork {
    P2PNetwork::start("/ip4/0.0.0.0/tcp/4001", &vec![], 3, Some(60)).unwrap().0
}

#[test]
fn start_needs_a_listen_address() {
    assert_eq!(
        P2PNetwork::start("not an address", &vec![], 3, None).err(),
        Some(NetworkError::InvalidListenAddress)
    );
    assert_eq!(
        P2PNetwork::start("/ip4/999.0.0.1/tcp/4001", &vec![], 3, None).err(),
        Some(NetworkError::InvalidListenAddress)
    );
    assert_eq!(
        P2PNetwork::start("ip4/127.0.0.1/tcp/4001", &vec![], 3, None).err(),
        Some(NetworkError::InvalidListenAddress)
    );
    let (network, dial) =
        P2PNetwork::start("/ip4/127.0.0.1/tcp/4001", &vec![], 3, Some(90)).unwrap();
    assert!(dial.is_empty());
    assert_eq!(network.peer_count(), 0);
    assert_eq!(network.registry.len(), 0);
    assert_eq!(network.max_attempts, 3);
    assert_eq!(network.peer_ttl_secs, Some(90));
}

#[test]
fn start_dials_the_seed_peers_that_are_addresses() {
    let seeds = vec![
        "/ip4/10.0.0.1/tcp/4001".to_string(),
        "garbage".to_string(),
        "/dns4/seed.example.org/tcp/4001".to_string(),
        "/ip4/10.0.0.1/tcp/notaport".to_string(),
        "/ip4/10.0.0.1/tcp/4001".to_string(),
    ];
    let (_, dial) = P2PNetwork::start("/ip4/0.0.0.0/tcp/0", &seeds, 1, None).unwrap();
    assert_eq!(
        dial,
        vec![
            "/ip4/10.0.0.1/tcp/4001",
            "/dns4/seed.example.org/tcp/4001",
            "/ip4/10.0.0.1/tcp/4001",
        ]
    );
}

#[test]
fn connections_are_counted_once() {
    let mut network = started();
    for peer in ["a", "b", "a", "c", "b"] {
        let action = network.handle_event(NetworkEvent::ConnectionEstablished(peer.to_string()));
        assert!(matches!(action, NetworkAction::RememberPeer(p) if p == peer));
    }
    assert_eq!(network.peer_count(), 3);
    assert!(matches!(
        network.handle_command(NetworkCommand::PeerCount),
        NetworkAction::ReplyPeerCount(3)
    ));
    let action = network.handle_event(NetworkEvent::ConnectionClosed("a".to_string()));
    assert!(matches!(action, NetworkAction::Idle));
    network.handle_event(NetworkEvent::ConnectionClosed("a".to_string()));
    network.handle_event(NetworkEvent::ConnectionClosed("never".to_string()));
    assert_eq!(network.peer_count(), 2);
    assert!(network.connected.contains("b"));
    assert!(!network.connected.contains("a"));
    assert!(matches!(
        network.handle_command(NetworkCommand::PeerCount),
        NetworkAction::ReplyPeerCount(2)
    ));
}

#[test]
fn announcements_fill_the_registry() {
    let mut network = started();
    let action = network.handle_event(NetworkEvent::Announcement {
        capabilities: Some(advert("p", 8)),
        received_at: 7,
    });
    assert!(matches!(action, NetworkAction::Idle));
    network.handle_event(NetworkEvent::Announcement { capabilities: None, received_at: 8 });
    network.handle_event(NetworkEvent::Announcement {
        capabilities: Some(advert("q", 16)),
        received_at: 9,
    });
    assert_eq!(network.registry.len(), 2);
    assert_eq!(network.registry.get("p").unwrap().last_updated, 7);
    assert_eq!(network.peer_count(), 0);
}

#[test]
fn closed_connection_forgets_the_peer() {
    let mut network = started();
    network.handle_event(NetworkEvent::ConnectionEstablished("p".to_string()));
    network.handle_event(NetworkEvent::Announcement {
        capabilities: Some(advert("p", 8)),
        received_at: 7,
    });
    network.handle_event(NetworkEvent::Announcement {
        capabilities: Some(advert("q", 8)),
        received_at: 7,
    });
    network.handle_event(NetworkEvent::ConnectionClosed("p".to_string()));
    assert!(network.registry.get("p").is_none());
    assert!(network.registry.get("q").is_some());
    assert_eq!(network.peer_count(), 0);
}

#[test]
fn discovered_peers_are_dialled() {
    let mut network = started();
    let found = vec!["/ip4/10.0.0.2/tcp/1".to_string(), "/ip4/10.0.0.3/tcp/1".to_string()];
    match network.handle_event(NetworkEvent::PeersDiscovered(found.clone())) {
        NetworkAction::Dial(addresses) => assert_eq!(addresses, found),
        _ => panic!("no dial"),
    }
    assert_eq!(network.peer_count(), 0);
}

#[test]
fn other_events_change_nothing() {
    let mut network = started();
    network.handle_event(NetworkEvent::ConnectionEstablished("p".to_string()));
    assert!(matches!(
        network.handle_event(NetworkEvent::NewListenAddr("/ip4/1.2.3.4/tcp/1".to_string())),
        NetworkAction::Idle
    ));
    assert!(matches!(network.handle_event(NetworkEvent::Other), NetworkAction::Idle));
    assert_eq!(network.peer_count(), 1);
    assert_eq!(network.registry.len(), 0);
}

#[test]
fn announce_command_publishes_the_advertisement() {
    let network = started();
    match network.handle_command(NetworkCommand::AnnounceCapabilities(advert("me", 24576))) {
        NetworkAction::Publish(caps) => {
            assert_eq!(caps.node_id, "me");
            assert_eq!(caps.models, vec!["llama3"]);
            assert_eq!(caps.memory_mib, 24576);
        }
        _ => panic!("not published"),
    }
    assert_eq!(network.registry.len(), 0);
}

#[test]
fn route_command_starts_with_the_best_peer() {
    let mut network = started();
    let command = || NetworkCommand::RouteInference {
        model: "llama3".to_string(),
        payload: vec![9, 9],
    };
    match network.handle_command(command()) {
        NetworkAction::Route { step, payload } => {
            assert!(matches!(step, RouteStep::Failed(RouteError::NoProviderAvailable)));
            assert_eq!(payload, vec![9, 9]);
        }
        _ => panic!("not routed"),
    }
    for (peer, memory) in [("p", 8), ("q", 16)] {
        network.handle_event(NetworkEvent::Announcement {
            capabilities: Some(advert(peer, memory)),
            received_at: 1,
        });
    }
    match network.handle_command(command()) {
        NetworkAction::Route { step: RouteStep::Attempt(route), payload } => {
            assert_eq!(route.provider(), "q");
            assert_eq!(payload, vec![9, 9]);
        }
        _ => panic!("not routed"),
    }
}

#[test]
fn peer_set_holds_each_peer_once() {
    let mut set = PeerSet::new();
    assert_eq!(set.len(), 0);
    assert!(!set.contains("a"));
    set.insert("a".to_string());
    set.insert("b".to_string());
    set.insert("a".to_string());
    assert_eq!(set.len(), 2);
    assert!(set.contains("a"));
    set.remove("a");
    set.remove("a");
    assert_eq!(set.len(), 1);
    assert!(!set.contains("a"));
    assert!(set.contains("b"));
}

#[test]
fn node_advertises_its_models_and_best_device() {
    let probe = ai4all::gpu::SystemProbe {
        nvidia_smi: Some(
            "0, A, 24576, 20000, 1, 535.0, 8.6\n1, B, 24576, 23000, 1, 535.0, 8.6\n".to_string(),
        ),
        rocm_smi: None,
        rocm_driver: None,
        rocm_products: vec![],
        drm_cards: vec![],
    };
    let info = ai4all::gpu::detect(&probe);
    let models = vec!["llama3".to_string(), "mistral".to_string()];
    let caps = NodeCapabilities::local("me", &models, &info);
    assert_eq!(caps.node_id, "me");
    assert_eq!(caps.models, models);
    assert_eq!(caps.memory_mib, 23000);
    assert!(caps.layer_ranges.is_empty());
    let none = ai4all::gpu::detect(&ai4all::gpu::SystemProbe {
        nvidia_smi: None,
        rocm_smi: None,
        rocm_driver: None,
        rocm_products: vec![],
        drm_cards: vec![],
    });
    assert_eq!(NodeCapabilities::local("me", &vec![], &none).memory_mib, 0);
}

#[test]
fn stale_peers_are_forgotten_as_time_passes() {
    let mut network = started();
    for (peer, at) in [("old", 100), ("new", 150), ("edge", 140)] {
        network.handle_event(NetworkEvent::Announcement {
            capabilities: Some(advert(peer, 8)),
            received_at: at,
        });
    }
    assert!(matches!(network.handle_event(NetworkEvent::Tick { now: 160 }), NetworkAction::Idle));
    assert_eq!(network.registry.len(), 3);
    network.handle_event(NetworkEvent::Tick { now: 200 });
    assert_eq!(network.registry.len(), 2);
    assert!(network.registry.get("old").is_none());
    assert!(network.registry.get("edge").is_some());
    network.handle_event(NetworkEvent::Tick { now: 201 });
    assert_eq!(network.registry.len(), 1);
    assert!(network.registry.get("new").is_some());
    network.handle_event(NetworkEvent::Tick { now: i64::MIN });
    assert_eq!(network.registry.len(), 1);
    network.handle_event(NetworkEvent::Tick { now: i64::MAX });
    assert_eq!(network.registry.len(), 0);
}

#[test]
fn peers_stay_without_a_time_limit() {
    let (mut network, _) = P2PNetwork::start("/ip4/0.0.0.0/tcp/4001", &vec![], 3, None).unwrap();
    network.handle_event(NetworkEvent::Announcement {
        capabilities: Some(advert("p", 8)),
        received_at: 0,
    });
    network.handle_event(NetworkEvent::Tick { now: i64::MAX });
    assert_eq!(network.registry.len(), 1);
    let (mut forever, _) =
        P2PNetwork::start("/ip4/0.0.0.0/tcp/4001", &vec![], 3, Some(u64::MAX)).unwrap();
    forever.handle_event(NetworkEvent::Announcement {
        capabilities: Some(advert("p", 8)),
        received_at: i64::MIN,
    });
    forever.handle_event(NetworkEvent::Tick { now: 0 });
    assert_eq!(forever.registry.len(), 1);
}
