//! What the node says to the network and hears from it.

use crate::gpu::{device_views, largest_free, GpuInfo};
use crate::registry::{
    fresh_since,
    ids_of,
    ranking_of,
    record_of,
    CapabilityRegistry,
    PeerRecordView,
};
use crate::routing::{first_step, route_valid, Route, RouteStep};
use crate::text;
use crate::text::texts;
use vstd::prelude::*;

verus! {

/// What a node advertises: the models it serves, the memory it has for
/// them, and the layers of each model that it holds.
#[derive(Debug)]
pub struct NodeCapabilities {
    pub node_id: String,
    pub models: Vec<String>,
    /// Memory for inference, in MiB.
    pub memory_mib: u64,
    /// Model, first layer and last layer.
    pub layer_ranges: Vec<(String, usize, usize)>,
}

/// What a [`NodeCapabilities`] holds, as mathematical values.
pub struct NodeCapabilitiesView {
    pub node_id: Seq<char>,
    pub models: Seq<Seq<char>>,
    pub memory_mib: u64,
    pub layer_ranges: Seq<(Seq<char>, usize, usize)>,
}

/// The layer ranges that a list holds.
pub open spec fn layer_views(v: Seq<(String, usize, usize)>) -> Seq<(Seq<char>, usize, usize)> {
    Seq::new(v.len(), |i: int| (v[i].0@, v[i].1, v[i].2))
}

impl View for NodeCapabilities {
    type V = NodeCapabilitiesView;

    open spec fn view(&self) -> NodeCapabilitiesView {
        NodeCapabilitiesView {
            node_id: self.node_id@,
            models: texts(self.models@),
            memory_mib: self.memory_mib,
            layer_ranges: layer_views(self.layer_ranges@),
        }
    }
}

impl Clone for NodeCapabilities {
    fn clone(&self) -> (out: NodeCapabilities)
        ensures
            out@ == self@,
    {
        let mut layer_ranges: Vec<(String, usize, usize)> = Vec::new();
        let mut i: usize = 0;
        while i < self.layer_ranges.len()
            invariant
                i <= self.layer_ranges.len(),
                layer_views(layer_ranges@) == layer_views(self.layer_ranges@).take(i as int),
            decreases self.layer_ranges.len() - i,
        {
            let ghost before = layer_ranges@;
            let range = &self.layer_ranges[i];
            layer_ranges.push((range.0.clone(), range.1, range.2));
            assert(layer_views(layer_ranges@) =~= layer_views(before).push(
                (range.0@, range.1, range.2),
            ));
            assert(layer_views(self.layer_ranges@).take(i + 1) =~= layer_views(
                self.layer_ranges@,
            ).take(i as int).push((range.0@, range.1, range.2)));
            i += 1;
        }
        assert(layer_views(self.layer_ranges@).take(i as int) =~= layer_views(self.layer_ranges@));
        NodeCapabilities {
            node_id: self.node_id.clone(),
            models: text::clone_strings(&self.models),
            memory_mib: self.memory_mib,
            layer_ranges,
        }
    }
}

impl NodeCapabilities {
    /// What the node `node_id` advertises of itself: the models it serves,
    /// and the most free memory that one of its devices has.
    pub fn local(node_id: &str, models: &Vec<String>, gpu: &GpuInfo) -> (capabilities:
        NodeCapabilities)
        ensures
            capabilities@ == (NodeCapabilitiesView {
                node_id: node_id@,
                models: texts(models@),
                memory_mib: largest_free(device_views(gpu.devices@)),
                layer_ranges: Seq::empty(),
            }),
    {
        let capabilities = NodeCapabilities {
            node_id: node_id.to_owned(),
            models: text::clone_strings(models),
            memory_mib: gpu.largest_free_mib(),
            layer_ranges: Vec::new(),
        };
        assert(capabilities@.layer_ranges =~= Seq::empty());
        capabilities
    }

    /// Whether the node serves `model`.
    pub fn serves(&self, model: &str) -> (r: bool)
        ensures
            r == self@.models.contains(model@),
    {
        text::holds_text(&self.models, model)
    }
}

/// The peers that the node is connected to.
pub struct PeerSet {
    peers: Vec<String>,
}

impl View for PeerSet {
    type V = Set<Seq<char>>;

    closed spec fn view(&self) -> Set<Seq<char>> {
        texts(self.peers@).to_set()
    }
}

impl PeerSet {
    #[verifier::type_invariant]
    spec fn valid(self) -> bool {
        texts(self.peers@).no_duplicates()
    }

    /// The empty set.
    pub fn new() -> (set: PeerSet)
        ensures
            set@ == Set::<Seq<char>>::empty(),
    {
        let set = PeerSet { peers: Vec::new() };
        assert(set@ =~= Set::<Seq<char>>::empty());
        set
    }

    /// The place of `peer` in the list, if it is there.
    fn position(&self, peer: &str) -> (at: Option<usize>)
        ensures
            match at {
                Some(i) => i < self.peers.len() && texts(self.peers@)[i as int] == peer@,
                None => !texts(self.peers@).contains(peer@),
            },
    {
        let mut i: usize = 0;
        while i < self.peers.len()
            invariant
                i <= self.peers.len(),
                forall|j: int| 0 <= j < i ==> texts(self.peers@)[j] != peer@,
            decreases self.peers.len() - i,
        {
            if text::same_text(self.peers[i].as_str(), peer) {
                return Some(i);
            }
            i += 1;
        }
        None
    }

    /// Whether `peer` is in the set.
    pub fn contains(&self, peer: &str) -> (r: bool)
        ensures
            r == self@.contains(peer@),
    {
        self.position(peer).is_some()
    }

    /// How many peers the set holds.
    pub fn len(&self) -> (n: usize)
        ensures
            self@.finite(),
            n == self@.len(),
    {
        proof {
            use_type_invariant(self);
            texts(self.peers@).unique_seq_to_set();
        }
        self.peers.len()
    }

    /// Puts `peer` into the set.
    pub fn insert(&mut self, peer: String)
        ensures
            final(self)@ == old(self)@.insert(peer@),
    {
        proof {
            use_type_invariant(&*self);
        }
        if self.position(peer.as_str()).is_some() {
            assert(self@ =~= self@.insert(peer@));
            return;
        }
        let ghost before = texts(self.peers@);
        let mut taken = PeerSet::new();
        core::mem::swap(self, &mut taken);
        let PeerSet { peers } = taken;
        let mut peers = peers;
        peers.push(peer);
        assert(texts(peers@) =~= before.push(peer@));
        assert(before.push(peer@).to_set() =~= before.to_set().insert(peer@)) by {
            assert forall|x: Seq<char>| before.push(peer@).contains(x) <==> before.contains(x) || x
                == peer@ by {
                if before.contains(x) {
                    let i = choose|i: int| 0 <= i < before.len() && before[i] == x;
                    assert(before.push(peer@)[i] == x);
                }
                if x == peer@ {
                    assert(before.push(peer@)[before.len() as int] == x);
                }
            }
        }
        *self = PeerSet { peers };
    }

    /// Takes `peer` out of the set.
    pub fn remove(&mut self, peer: &str)
        ensures
            final(self)@ == old(self)@.remove(peer@),
    {
        proof {
            use_type_invariant(&*self);
        }
        let ghost before = texts(self.peers@);
        match self.position(peer) {
            Some(i) => {
                let mut taken = PeerSet::new();
                core::mem::swap(self, &mut taken);
                let PeerSet { peers } = taken;
                let mut peers = peers;
                peers.remove(i);
                let ghost after = before.remove(i as int);
                assert(texts(peers@) =~= after);
                assert(after.no_duplicates()) by {
                    assert forall|a: int, b: int|
                        0 <= a < after.len() && 0 <= b < after.len() && a != b implies after[a]
                        != after[b] by {
                        let oa = if a < i {
                            a
                        } else {
                            a + 1
                        };
                        let ob = if b < i {
                            b
                        } else {
                            b + 1
                        };
                        assert(before[oa] != before[ob]);
                    }
                }
                assert(after.to_set() =~= before.to_set().remove(peer@)) by {
                    assert forall|x: Seq<char>| after.contains(x) <==> before.contains(x) && x
                        != peer@ by {
                        if after.contains(x) {
                            let a = choose|a: int| 0 <= a < after.len() && after[a] == x;
                            let oa = if a < i {
                                a
                            } else {
                                a + 1
                            };
                            assert(before[oa] == x);
                            assert(before[oa] != before[i as int]);
                        }
                        if before.contains(x) && x != peer@ {
                            let b = choose|b: int| 0 <= b < before.len() && before[b] == x;
                            let nb = if b < i {
                                b
                            } else {
                                b - 1
                            };
                            assert(after[nb] == x);
                        }
                    }
                }
                *self = PeerSet { peers };
            },
            None => {
                assert(self@ =~= self@.remove(peer@));
            },
        }
    }
}

/// What the node is asked to do on the network.
#[derive(Debug)]
pub enum NetworkCommand {
    /// Broadcast the node's capabilities.
    AnnounceCapabilities(NodeCapabilities),
    /// Have the best available peer serve a request.
    RouteInference { model: String, payload: Vec<u8> },
    /// Tell how many peers are connected.
    PeerCount,
}

/// What the transport reports.
#[derive(Debug)]
pub enum NetworkEvent {
    /// The node listens on a new address.
    NewListenAddr(String),
    /// A connection to the peer stands.
    ConnectionEstablished(String),
    /// The connection to the peer is closed.
    ConnectionClosed(String),
    /// Peers were found on the local network, at these addresses.
    PeersDiscovered(Vec<String>),
    /// A message arrived on the capabilities topic. It holds no
    /// capabilities where its bytes could not be read as an advertisement.
    Announcement { capabilities: Option<NodeCapabilities>, received_at: i64 },
    /// Time has passed: it is `now`, in seconds since the Unix epoch.
    Tick { now: i64 },
    /// Anything else.
    Other,
}

/// What the transport is to do in answer.
pub enum NetworkAction {
    /// Nothing.
    Idle,
    /// Broadcast the advertisement on the capabilities topic.
    Publish(NodeCapabilities),
    /// Answer the count of connected peers.
    ReplyPeerCount(usize),
    /// Take the routing step for the request with this payload.
    Route { step: RouteStep, payload: Vec<u8> },
    /// Note the address of the peer for later lookups.
    RememberPeer(String),
    /// Dial these addresses.
    Dial(Vec<String>),
}

/// Why the network could not be started.
#[derive(Debug, Clone, Copy, PartialEq, Eq, Structural)]
pub enum NetworkError {
    /// The address to listen on is no multiaddress.
    InvalidListenAddress,
}

/// Whether a text is a multiaddress, as `libp2p` reads them.
pub uninterp spec fn is_multiaddr(s: Seq<char>) -> bool;

/// `Multiaddr::from_str`: whether the text parses. Believed of `libp2p`:
/// the parser looks at the text alone.
#[verifier::external_body]
fn parses_as_multiaddr(s: &str) -> (ok: bool)
    ensures
        ok == is_multiaddr(s@),
{
    s.parse::<libp2p::Multiaddr>().is_ok()
}

/// The texts of `seeds` that are multiaddresses, in order.
pub open spec fn dialable(seeds: Seq<Seq<char>>) -> Seq<Seq<char>>
    decreases seeds.len(),
{
    if seeds.len() == 0 {
        Seq::empty()
    } else if is_multiaddr(seeds.last()) {
        dialable(seeds.drop_last()).push(seeds.last())
    } else {
        dialable(seeds.drop_last())
    }
}

/// The node's side of the network: the peers it is connected to, what
/// they advertise, how often a request may be retried, and for how long an
/// advertisement is believed.
pub struct P2PNetwork {
    pub registry: CapabilityRegistry,
    pub connected: PeerSet,
    /// How many providers a request is sent to at most.
    pub max_attempts: usize,
    /// After how many seconds without a new advertisement a peer is
    /// forgotten; never, where there is no limit.
    pub peer_ttl_secs: Option<u64>,
}

/// What a [`P2PNetwork`] holds, as mathematical values.
pub struct P2PNetworkView {
    pub registry: Map<Seq<char>, PeerRecordView>,
    pub connected: Set<Seq<char>>,
    pub max_attempts: usize,
    pub peer_ttl_secs: Option<u64>,
}

impl View for P2PNetwork {
    type V = P2PNetworkView;

    open spec fn view(&self) -> P2PNetworkView {
        P2PNetworkView {
            registry: self.registry@,
            connected: self.connected@,
            max_attempts: self.max_attempts,
            peer_ttl_secs: self.peer_ttl_secs,
        }
    }
}

/// The time before which an advertisement is stale at `now`: `ttl` seconds
/// earlier, as far as time is counted.
pub open spec fn stale_before(now: int, ttl: int) -> int {
    if now - ttl < i64::MIN {
        i64::MIN as int
    } else {
        now - ttl
    }
}

/// The state after an event.
pub open spec fn after_event(before: P2PNetworkView, event: NetworkEvent) -> P2PNetworkView {
    match event {
        NetworkEvent::ConnectionEstablished(peer) => P2PNetworkView {
            connected: before.connected.insert(peer@),
            ..before
        },
        NetworkEvent::ConnectionClosed(peer) => P2PNetworkView {
            connected: before.connected.remove(peer@),
            registry: before.registry.remove(peer@),
            ..before
        },
        NetworkEvent::Announcement { capabilities: Some(capabilities), received_at } => {
            P2PNetworkView {
                registry: before.registry.insert(
                    capabilities@.node_id,
                    record_of(capabilities@, received_at as int),
                ),
                ..before
            }
        },
        NetworkEvent::Tick { now } => match before.peer_ttl_secs {
            Some(ttl) => P2PNetworkView {
                registry: fresh_since(before.registry, stale_before(now as int, ttl as int)),
                ..before
            },
            None => before,
        },
        _ => before,
    }
}

impl P2PNetwork {
    /// Checks the addresses with which the network is to start: the
    /// address to listen on must be a multiaddress, and of the seed peers
    /// those are dialled that are. The node starts without connections and
    /// knows no peer.
    pub fn start(
        listen_addr: &str,
        seed_peers: &Vec<String>,
        max_attempts: usize,
        peer_ttl_secs: Option<u64>,
    ) -> (r: Result<(P2PNetwork, Vec<String>), NetworkError>)
        ensures
            match r {
                Ok((network, dial)) => {
                    &&& is_multiaddr(listen_addr@)
                    &&& network@ == (P2PNetworkView {
                        registry: Map::empty(),
                        connected: Set::empty(),
                        max_attempts,
                        peer_ttl_secs,
                    })
                    &&& texts(dial@) == dialable(texts(seed_peers@))
                },
                Err(e) => e == NetworkError::InvalidListenAddress && !is_multiaddr(listen_addr@),
            },
    {
        if !parses_as_multiaddr(listen_addr) {
            return Err(NetworkError::InvalidListenAddress);
        }
        let mut dial: Vec<String> = Vec::new();
        let mut i: usize = 0;
        assert(texts(seed_peers@).take(0) =~= Seq::<Seq<char>>::empty());
        while i < seed_peers.len()
            invariant
                i <= seed_peers.len(),
                texts(dial@) == dialable(texts(seed_peers@).take(i as int)),
            decreases seed_peers.len() - i,
        {
            let ghost before = dial@;
            let ghost done = texts(seed_peers@).take(i + 1);
            assert(done.drop_last() =~= texts(seed_peers@).take(i as int));
            assert(done.last() == seed_peers@[i as int]@);
            if parses_as_multiaddr(seed_peers[i].as_str()) {
                dial.push(seed_peers[i].clone());
                assert(texts(dial@) =~= texts(before).push(seed_peers@[i as int]@));
            }
            i += 1;
        }
        assert(texts(seed_peers@).take(i as int) =~= texts(seed_peers@));
        Ok(
            (
                P2PNetwork {
                    registry: CapabilityRegistry::new(),
                    connected: PeerSet::new(),
                    max_attempts,
                    peer_ttl_secs,
                },
                dial,
            ),
        )
    }

    /// What to do on a command. No command changes what the node knows.
    pub fn handle_command(&self, command: NetworkCommand) -> (action: NetworkAction)
        ensures
            match command {
                NetworkCommand::AnnounceCapabilities(capabilities) => {
                    &&& action matches NetworkAction::Publish(published)
                    &&& published@ == capabilities@
                },
                NetworkCommand::RouteInference { model, payload } => {
                    &&& action matches NetworkAction::Route { step, payload: carried }
                    &&& carried@ == payload@
                    &&& step@ == first_step(
                        ids_of(ranking_of(self@.registry, model@)),
                        self.max_attempts as int,
                    )
                    &&& step matches RouteStep::Attempt(route) ==> route_valid(route@)
                },
                NetworkCommand::PeerCount => {
                    &&& self@.connected.finite()
                    &&& action matches NetworkAction::ReplyPeerCount(n)
                    &&& n == self@.connected.len()
                },
            },
    {
        match command {
            NetworkCommand::AnnounceCapabilities(capabilities) => NetworkAction::Publish(
                capabilities,
            ),
            NetworkCommand::RouteInference { model, payload } => {
                let step = Route::begin(&self.registry, model.as_str(), self.max_attempts);
                NetworkAction::Route { step, payload }
            },
            NetworkCommand::PeerCount => NetworkAction::ReplyPeerCount(self.connected.len()),
        }
    }

    /// Takes in an event of the transport, and says what to do in answer.
    /// A new connection is counted and its peer noted; a closed one is no
    /// longer counted, and what its peer advertised under the identifier
    /// that the transport reports is forgotten; an advertisement replaces
    /// what was known of its peer; discovered peers are dialled; and as
    /// time passes, peers that have not advertised for longer than the
    /// limit are forgotten.
    pub fn handle_event(&mut self, event: NetworkEvent) -> (action: NetworkAction)
        ensures
            final(self)@ == after_event(old(self)@, event),
            match event {
                NetworkEvent::ConnectionEstablished(peer) => {
                    &&& action matches NetworkAction::RememberPeer(noted)
                    &&& noted@ == peer@
                },
                NetworkEvent::PeersDiscovered(addresses) => {
                    &&& action matches NetworkAction::Dial(dial)
                    &&& texts(dial@) == texts(addresses@)
                },
                _ => action is Idle,
            },
    {
        match event {
            NetworkEvent::ConnectionEstablished(peer) => {
                self.connected.insert(peer.clone());
                NetworkAction::RememberPeer(peer)
            },
            NetworkEvent::ConnectionClosed(peer) => {
                self.connected.remove(peer.as_str());
                self.registry.remove(peer.as_str());
                NetworkAction::Idle
            },
            NetworkEvent::PeersDiscovered(addresses) => NetworkAction::Dial(addresses),
            NetworkEvent::Announcement { capabilities: Some(capabilities), received_at } => {
                self.registry.update(capabilities, received_at);
                NetworkAction::Idle
            },
            NetworkEvent::Announcement { capabilities: None, received_at: _ } => {
                NetworkAction::Idle
            },
            NetworkEvent::Tick { now } => {
                match self.peer_ttl_secs {
                    Some(ttl) => {
                        let earliest: i128 = now as i128 - ttl as i128;
                        let cutoff: i64 = if earliest < i64::MIN as i128 {
                            i64::MIN
                        } else {
                            earliest as i64
                        };
                        self.registry.evict_stale(cutoff);
                    },
                    None => {},
                }
                NetworkAction::Idle
            },
            NetworkEvent::NewListenAddr(_) => NetworkAction::Idle,
            NetworkEvent::Other => NetworkAction::Idle,
        }
    }

    /// How many peers are connected.
    pub fn peer_count(&self) -> (n: usize)
        ensures
            self@.connected.finite(),
            n == self@.connected.len(),
    {
        self.connected.len()
    }
}

} // verus!
