//! The engine: the node's state and the decisions of its event loop. The loop
//! itself, with its channels, sockets and timers, hands each command and each
//! network event to a method here and carries out what comes back.
use vstd::prelude::*;
use crate::addr::Address;
use crate::closest::{covers, sorted_by_distance};
use crate::connection::{ConnEvent, ConnectionRegistry, ConnectionState};
use crate::id::{ContentKey, PeerId, ID_LEN};
use crate::query::{Lookup, SupplierSearch};
use crate::routing::{insert_result, reachability_result, InsertOutcome, RoutingTable, K};
use crate::supplier::{after_register, expiry, live_for, SupplierInfo, SupplierRegistry};

verus! {

/// How long a supplier registration lasts, in seconds, unless told otherwise.
pub const DEFAULT_SUPPLIER_TTL: u64 = 86400;

/// The errors that reach a caller.
#[derive(Clone, Copy, Debug, PartialEq, Eq, Structural)]
pub enum DhtError {
    /// The node could not start: its listener could not be bound, or its
    /// configuration is invalid.
    StartupFailure,
    /// The node has stopped and takes no more commands.
    ChannelClosed,
    /// A peer did not answer in time.
    Timeout,
    /// An identifier or key does not have the length of the key space.
    InvalidArgument,
}

/// The node's lifecycle.
#[derive(Clone, Copy, Debug, PartialEq, Eq, Structural)]
pub enum Phase {
    Starting,
    Bootstrapping,
    Ready,
    ShuttingDown,
    Stopped,
}

/// What moves the node through its lifecycle.
#[derive(Clone, Copy, Debug, PartialEq, Eq, Structural)]
pub enum PhaseEvent {
    /// The listener is bound; boot nodes may follow.
    ListenerBound { has_boot_nodes: bool },
    /// Every boot node was dialled and the first lookups enqueued.
    BootstrapDone,
    /// Every handle is gone: the command channel is closed.
    CommandsClosed,
    /// The work in flight at shutdown is over.
    Drained,
}

/// The lifecycle: Starting, then Bootstrapping where there are boot nodes,
/// Ready, ShuttingDown once the commands stop, and Stopped. Other events leave
/// the phase as it is.
pub open spec fn next_phase(p: Phase, e: PhaseEvent) -> Phase {
    match (p, e) {
        (Phase::Starting, PhaseEvent::ListenerBound { has_boot_nodes }) =>
            if has_boot_nodes { Phase::Bootstrapping } else { Phase::Ready },
        (Phase::Bootstrapping, PhaseEvent::BootstrapDone) => Phase::Ready,
        (Phase::Starting, PhaseEvent::CommandsClosed) => Phase::ShuttingDown,
        (Phase::Bootstrapping, PhaseEvent::CommandsClosed) => Phase::ShuttingDown,
        (Phase::Ready, PhaseEvent::CommandsClosed) => Phase::ShuttingDown,
        (Phase::ShuttingDown, PhaseEvent::Drained) => Phase::Stopped,
        _ => p,
    }
}

/// One step of the lifecycle.
pub fn next_phase_of(p: Phase, e: PhaseEvent) -> (r: Phase)
    ensures
        r == next_phase(p, e),
{
    match (p, e) {
        (Phase::Starting, PhaseEvent::ListenerBound { has_boot_nodes }) =>
            if has_boot_nodes { Phase::Bootstrapping } else { Phase::Ready },
        (Phase::Bootstrapping, PhaseEvent::BootstrapDone) => Phase::Ready,
        (Phase::Starting, PhaseEvent::CommandsClosed) => Phase::ShuttingDown,
        (Phase::Bootstrapping, PhaseEvent::CommandsClosed) => Phase::ShuttingDown,
        (Phase::Ready, PhaseEvent::CommandsClosed) => Phase::ShuttingDown,
        (Phase::ShuttingDown, PhaseEvent::Drained) => Phase::Stopped,
        _ => p,
    }
}

/// An identifier from bytes, or `InvalidArgument` when their length is not
/// that of the key space.
pub fn parse_key(bytes: &[u8]) -> (r: Result<PeerId, DhtError>)
    ensures
        bytes@.len() == ID_LEN ==> (r matches Ok(id) && id@ == bytes@),
        bytes@.len() != ID_LEN ==> r == Err::<PeerId, DhtError>(DhtError::InvalidArgument),
{
    match PeerId::from_bytes(bytes) {
        Ok(id) => Ok(id),
        Err(_) => Err(DhtError::InvalidArgument),
    }
}

/// A boot node: where to dial, and whom to expect there.
#[derive(Clone, Copy, Debug)]
pub struct BootNode {
    pub peer: PeerId,
    pub address: Address,
}

#[derive(Debug)]
pub struct Node {
    local: PeerId,
    routing: RoutingTable,
    conns: ConnectionRegistry,
    suppliers: SupplierRegistry,
    phase: Phase,
}

impl Node {
    pub closed spec fn local_id(&self) -> PeerId {
        self.local
    }

    pub closed spec fn routing(&self) -> RoutingTable {
        self.routing
    }

    pub closed spec fn conns(&self) -> ConnectionRegistry {
        self.conns
    }

    pub closed spec fn suppliers(&self) -> SupplierRegistry {
        self.suppliers
    }

    pub closed spec fn phase(&self) -> Phase {
        self.phase
    }

    /// The node's invariant: its parts are well formed, the routing table is
    /// the local node's, and there is a listener.
    pub open spec fn wf(&self) -> bool {
        &&& self.routing().wf()
        &&& self.routing().local_id() == self.local_id()
        &&& self.conns().wf()
        &&& self.conns().listener_addr() is Some
        &&& self.suppliers().wf()
    }

    /// A node `local` whose listener is bound at `listener`.
    pub fn new(local: PeerId, listener: Address, has_boot_nodes: bool) -> (r: Node)
        ensures
            r.wf(),
            r.local_id() == local,
            r.conns().listener_addr() == Some(listener),
            r.phase() == next_phase(Phase::Starting, PhaseEvent::ListenerBound { has_boot_nodes }),
            forall|p: PeerId| !r.routing().has_peer(p),
            forall|p: PeerId| #[trigger] r.conns().state_of(p) == ConnectionState::Disconnected,
            r.suppliers()@.len() == 0,
    {
        let routing = RoutingTable::new(local);
        let mut conns = ConnectionRegistry::new();
        let ghost c0 = conns;
        let _ = conns.set_listener(listener);
        assert forall|p: PeerId| #[trigger] conns.state_of(p) == ConnectionState::Disconnected by {
            assert(c0.state_of(p) == ConnectionState::Disconnected);
        }
        let phase = next_phase_of(Phase::Starting, PhaseEvent::ListenerBound { has_boot_nodes });
        let r = Node { local, routing, conns, suppliers: SupplierRegistry::new(), phase };
        assert forall|p: PeerId| !r.routing().has_peer(p) by {
            assert forall|b: int| 0 <= b < crate::id::ID_BITS implies !#[trigger] crate::routing::bucket_has(r.routing.bucket(b), p) by {
                assert(r.routing.bucket(b).len() == 0);
            }
        }
        r
    }

    /// The local identifier.
    pub fn id(&self) -> (r: PeerId)
        ensures
            r == self.local_id(),
    {
        self.local
    }

    /// The current phase of the lifecycle.
    pub fn current_phase(&self) -> (r: Phase)
        ensures
            r == self.phase(),
    {
        self.phase
    }

    /// Moves the lifecycle on by `e`; leaving it, the node closes every
    /// connection.
    pub fn advance(&mut self, e: PhaseEvent)
        requires
            old(self).wf(),
        ensures
            final(self).wf(),
            final(self).phase() == next_phase(old(self).phase(), e),
            final(self).local_id() == old(self).local_id(),
            final(self).routing() == old(self).routing(),
            final(self).suppliers() == old(self).suppliers(),
            final(self).phase() == Phase::ShuttingDown || final(self).phase() == Phase::Stopped ==>
                forall|p: PeerId| #[trigger] final(self).conns().state_of(p) == ConnectionState::Disconnected,
            !(final(self).phase() == Phase::ShuttingDown || final(self).phase() == Phase::Stopped) ==>
                final(self).conns() == old(self).conns(),
    {
        self.phase = next_phase_of(self.phase, e);
        if self.phase == Phase::ShuttingDown || self.phase == Phase::Stopped {
            self.conns.disconnect_all();
        }
    }

    /// The peers with an open connection, each once.
    pub fn get_connected_peers(&self) -> (r: Vec<PeerId>)
        requires
            self.wf(),
        ensures
            forall|p: PeerId| r@.contains(p) <==> self.conns().state_of(p) == ConnectionState::Connected,
            forall|i: int, j: int| 0 <= i < r@.len() && 0 <= j < r@.len() && i != j ==> r@[i] != r@[j],
    {
        self.conns.connected_peers()
    }

    /// The addresses the node listens on: its one listener.
    pub fn get_all_listeners(&self) -> (r: Vec<Address>)
        requires
            self.wf(),
        ensures
            r@ == self.conns().listener_seq(),
            r@.len() == 1,
    {
        self.conns.listeners()
    }

    /// Whether the connection to `peer` is open.
    pub fn is_connected_to(&self, peer: &PeerId) -> (r: bool)
        requires
            self.wf(),
        ensures
            r == (self.conns().state_of(*peer) == ConnectionState::Connected),
    {
        self.conns.is_connected(peer)
    }

    /// The `K` peers of the routing table closest to `target`, nearest first.
    pub fn get_closest_local_peers(&self, target: &[u8]) -> (r: Result<Vec<PeerId>, DhtError>)
        requires
            self.wf(),
        ensures
            target@.len() != ID_LEN ==> r == Err::<Vec<PeerId>, DhtError>(DhtError::InvalidArgument),
            target@.len() == ID_LEN ==> r is Ok,
            r matches Ok(v) ==> self.closest_local_result(v@, target@),
    {
        match parse_key(target) {
            Ok(t) => Ok(self.routing.closest_local(&t, K)),
            Err(e) => Err(e),
        }
    }

    /// `v` is, in ascending order of distance to the key `target`, the `K`
    /// closest peers of the routing table (all of them, when it holds fewer).
    pub open spec fn closest_local_result(&self, v: Seq<PeerId>, target: Seq<u8>) -> bool {
        exists|t: PeerId| t@ == target && {
            &&& sorted_by_distance(v, t)
            &&& v.len() <= K
            &&& forall|i: int| 0 <= i < v.len() ==> self.routing().has_peer(#[trigger] v[i])
            &&& forall|p: PeerId| self.routing().has_peer(p) ==> #[trigger] covers(v, p, t, K as nat)
        }
    }

    /// A closest-peers lookup of `target`, seeded from the routing table.
    pub fn begin_closest_peers(&self, target: &[u8]) -> (r: Result<Lookup, DhtError>)
        requires
            self.wf(),
        ensures
            target@.len() != ID_LEN ==> r == Err::<Lookup, DhtError>(DhtError::InvalidArgument),
            target@.len() == ID_LEN ==> r is Ok,
            r matches Ok(l) ==> {
                &&& l.wf()
                &&& l.target_id()@ == target@
                &&& l.local_id() == self.local_id()
                &&& l.width() == K
                &&& l.rounds() == 0
                &&& l.asked().len() == 0
                &&& l.in_flight().len() == 0
                &&& forall|i: int| 0 <= i < l.candidates().len() ==> self.routing().has_peer(#[trigger] l.candidates()[i])
                &&& forall|p: PeerId| self.routing().has_peer(p) ==> #[trigger] covers(l.candidates(), p, l.target_id(), K as nat)
            },
    {
        match parse_key(target) {
            Ok(t) => {
                let seeds = self.routing.closest_local(&t, K);
                proof {
                    crate::routing::lemma_bucket_bounds(self.routing);
                    assert forall|i: int| 0 <= i < seeds@.len() implies #[trigger] seeds@[i] != self.local by {
                        assert(self.routing().has_peer(seeds@[i]));
                    }
                }
                let l = Lookup::new(t, self.local, K, seeds);
                Ok(l)
            },
            Err(e) => Err(e),
        }
    }
}

/// The commands that the handle sends to the engine.
#[derive(Debug)]
pub enum Command {
    GetConnectedPeers,
    GetAllListeners,
    IsConnectedTo { peer: PeerId },
    GetClosestLocalPeers { target: Vec<u8> },
    GetClosestPeers { target: Vec<u8> },
    RegisterFile { key: Vec<u8>, ip: [u8; 4], port: u16, price: u64, username: String, ttl: u64 },
    CheckHolders { key: Vec<u8> },
    Quit,
}

/// The answers to commands.
#[derive(Debug)]
pub enum Response {
    ConnectedPeers { peers: Vec<PeerId> },
    AllListeners { listeners: Vec<Address> },
    IsConnectedTo { connected: bool },
    ClosestLocalPeers { peers: Vec<PeerId> },
    ClosestPeers { key: Vec<u8>, peers: Vec<PeerId> },
    RegisterFile { key: Vec<u8> },
    GetSuppliers { suppliers: Vec<SupplierInfo> },
}

/// What the event loop does with a command.
#[derive(Debug)]
pub enum Reaction {
    /// Answer at once.
    Reply(Result<Response, DhtError>),
    /// Run the lookup, then answer with `closest_peers_response`.
    FindClosest(Lookup),
    /// Answer `RegisterFile` with the key at once; run the lookup, then send
    /// the registration to the peers it found.
    Replicate { key: ContentKey, info: SupplierInfo, ttl: u64, lookup: Lookup },
    /// Run the lookup, then ask the peers it found for suppliers of the key,
    /// starting from the local ones.
    FindHolders { local: Vec<SupplierInfo>, lookup: Lookup },
    /// Stop taking commands.
    Stop,
}

impl Node {
    /// Stores `info` as a supplier of `key` for `ttl` seconds from `now` and
    /// prepares the lookup of the peers to replicate the registration to.
    pub fn register_file(&mut self, key: &[u8], info: SupplierInfo, ttl: u64, now: u64) -> (r: Result<(ContentKey, Lookup), DhtError>)
        requires
            old(self).wf(),
        ensures
            final(self).wf(),
            final(self).local_id() == old(self).local_id(),
            final(self).routing() == old(self).routing(),
            final(self).conns() == old(self).conns(),
            final(self).phase() == old(self).phase(),
            key@.len() != ID_LEN ==> r == Err::<(ContentKey, Lookup), DhtError>(DhtError::InvalidArgument)
                && final(self).suppliers() == old(self).suppliers(),
            key@.len() == ID_LEN ==> r is Ok,
            r matches Ok((k, l)) ==> {
                &&& k@ == key@
                &&& final(self).suppliers()@ == after_register(old(self).suppliers()@, k, info, expiry(now, ttl))
                &&& l.wf()
                &&& l.target_id() == k
                &&& l.width() == K
            },
    {
        match parse_key(key) {
            Ok(k) => {
                let l = match self.begin_closest_peers(key) {
                    Ok(l) => l,
                    Err(_) => {
                        return Err(DhtError::InvalidArgument);
                    },
                };
                proof {
                    crate::id::lemma_view_injective(l.target_id(), k);
                }
                let k2 = self.suppliers.register(k, info, ttl, now);
                Ok((k2, l))
            },
            Err(e) => Err(e),
        }
    }

    /// The locally registered suppliers of `key` that are live at `now`, and
    /// the lookup of the peers to ask for more.
    pub fn begin_check_holders(&self, key: &[u8], now: u64) -> (r: Result<(Vec<SupplierInfo>, Lookup), DhtError>)
        requires
            self.wf(),
        ensures
            key@.len() != ID_LEN ==> r == Err::<(Vec<SupplierInfo>, Lookup), DhtError>(DhtError::InvalidArgument),
            key@.len() == ID_LEN ==> r is Ok,
            r matches Ok((v, l)) ==> {
                &&& l.wf()
                &&& l.target_id()@ == key@
                &&& l.width() == K
                &&& v@ == live_for(self.suppliers()@, l.target_id(), now)
            },
    {
        match self.begin_closest_peers(key) {
            Ok(l) => {
                let t = l.target();
                let v = self.suppliers.suppliers_for(&t, now);
                Ok((v, l))
            },
            Err(e) => Err(e),
        }
    }

    /// The answer to a finished closest-peers lookup.
    pub fn closest_peers_response(lookup: &Lookup) -> (r: Response)
        requires
            lookup.wf(),
        ensures
            r matches Response::ClosestPeers { key, peers } && key@ == lookup.target_id()@
                && peers@ == lookup.candidates(),
    {
        let key = lookup.target().to_bytes();
        let peers = lookup.result();
        Response::ClosestPeers { key, peers }
    }

    /// The search for suppliers that follows a finished lookup: it starts
    /// from the local suppliers and asks every peer the lookup found.
    pub fn supplier_search(local: Vec<SupplierInfo>, lookup: &Lookup) -> (r: SupplierSearch)
        requires
            lookup.wf(),
        ensures
            r.found() == local@,
            r.pending() == lookup.candidates(),
    {
        SupplierSearch::new(local, lookup.result())
    }

    /// A dial to `peer` at `address` began.
    pub fn on_dial(&mut self, peer: PeerId, address: Address)
        requires
            old(self).wf(),
        ensures
            final(self).wf(),
            final(self).local_id() == old(self).local_id(),
            final(self).routing() == old(self).routing(),
            final(self).suppliers() == old(self).suppliers(),
            final(self).phase() == old(self).phase(),
            final(self).conns().state_of(peer) == crate::connection::next_state(old(self).conns().state_of(peer), ConnEvent::Dial),
            forall|q: PeerId| q != peer ==> #[trigger] final(self).conns().state_of(q) == old(self).conns().state_of(q),
    {
        self.conns.record(peer, address, ConnEvent::Dial);
    }

    /// A connection to `peer` at `address` is open, inbound or outbound: it
    /// is recorded, and the peer enters the routing table.
    pub fn on_connected(&mut self, peer: PeerId, address: Address) -> (r: InsertOutcome)
        requires
            old(self).wf(),
        ensures
            final(self).wf(),
            final(self).local_id() == old(self).local_id(),
            final(self).suppliers() == old(self).suppliers(),
            final(self).phase() == old(self).phase(),
            final(self).conns().state_of(peer) == ConnectionState::Connected,
            forall|q: PeerId| q != peer ==> #[trigger] final(self).conns().state_of(q) == old(self).conns().state_of(q),
            insert_result(old(self).routing(), final(self).routing(), peer, address, r),
            r == InsertOutcome::Added || r == InsertOutcome::Updated ==> final(self).routing().has_peer(peer),
    {
        self.conns.record(peer, address, ConnEvent::Established);
        let r = self.routing.insert(peer, address);
        proof {
            if r == InsertOutcome::Added || r == InsertOutcome::Updated {
                let b = crate::id::prefix_len(peer, self.local) as int;
                let nb = self.routing.bucket(b);
                assert(nb.last() == crate::routing::fresh_entry(peer, address));
                assert(crate::routing::bucket_has(nb, peer));
            }
        }
        r
    }

    /// The connection to `peer` closed, or the dial to it failed: the peer is
    /// marked unreachable, so that a newcomer may take its place.
    pub fn on_disconnected(&mut self, peer: PeerId, address: Address)
        requires
            old(self).wf(),
        ensures
            final(self).wf(),
            final(self).local_id() == old(self).local_id(),
            final(self).suppliers() == old(self).suppliers(),
            final(self).phase() == old(self).phase(),
            final(self).conns().state_of(peer) == ConnectionState::Disconnected,
            forall|q: PeerId| q != peer ==> #[trigger] final(self).conns().state_of(q) == old(self).conns().state_of(q),
            reachability_result(old(self).routing(), final(self).routing(), peer, false),
    {
        self.conns.record(peer, address, ConnEvent::Lost);
        self.routing.set_reachable(&peer, false);
    }

    /// Answers a peer's closest-peers request for `target`.
    pub fn answer_find_closest(&self, target: &[u8]) -> (r: Result<Vec<PeerId>, DhtError>)
        requires
            self.wf(),
        ensures
            target@.len() != ID_LEN ==> r == Err::<Vec<PeerId>, DhtError>(DhtError::InvalidArgument),
            target@.len() == ID_LEN ==> r is Ok,
            r matches Ok(v) ==> self.closest_local_result(v@, target@),
    {
        self.get_closest_local_peers(target)
    }

    /// Takes in a peer's request to store a supplier registration.
    pub fn accept_store(&mut self, key: &[u8], info: SupplierInfo, ttl: u64, now: u64) -> (r: Result<ContentKey, DhtError>)
        requires
            old(self).wf(),
        ensures
            final(self).wf(),
            final(self).local_id() == old(self).local_id(),
            final(self).routing() == old(self).routing(),
            final(self).conns() == old(self).conns(),
            final(self).phase() == old(self).phase(),
            key@.len() != ID_LEN ==> r == Err::<ContentKey, DhtError>(DhtError::InvalidArgument)
                && final(self).suppliers() == old(self).suppliers(),
            key@.len() == ID_LEN ==> r is Ok,
            r matches Ok(k) ==> k@ == key@
                && final(self).suppliers()@ == after_register(old(self).suppliers()@, k, info, expiry(now, ttl)),
    {
        match parse_key(key) {
            Ok(k) => Ok(self.suppliers.register(k, info, ttl, now)),
            Err(e) => Err(e),
        }
    }

    /// Answers a peer's request for the live suppliers of `key`.
    pub fn answer_get_suppliers(&self, key: &[u8], now: u64) -> (r: Result<Vec<SupplierInfo>, DhtError>)
        requires
            self.wf(),
        ensures
            key@.len() != ID_LEN ==> r == Err::<Vec<SupplierInfo>, DhtError>(DhtError::InvalidArgument),
            key@.len() == ID_LEN ==> r is Ok,
            r matches Ok(v) ==> exists|k: ContentKey| k@ == key@ && v@ == live_for(self.suppliers()@, k, now),
    {
        match parse_key(key) {
            Ok(k) => Ok(self.suppliers.suppliers_for(&k, now)),
            Err(e) => Err(e),
        }
    }

    /// The lookup that follows a connection to a boot node: the closest peers
    /// to the local identifier, to fill the routing table.
    pub fn begin_bootstrap_lookup(&self) -> (r: Lookup)
        requires
            self.wf(),
        ensures
            r.wf(),
            r.target_id() == self.local_id(),
            r.local_id() == self.local_id(),
            r.width() == K,
            r.rounds() == 0,
            r.in_flight().len() == 0,
            forall|i: int| 0 <= i < r.candidates().len() ==> self.routing().has_peer(#[trigger] r.candidates()[i]),
            forall|p: PeerId| self.routing().has_peer(p) ==> #[trigger] covers(r.candidates(), p, self.local_id(), K as nat),
    {
        let seeds = self.routing.closest_local(&self.local, K);
        proof {
            crate::routing::lemma_bucket_bounds(self.routing);
            assert forall|i: int| 0 <= i < seeds@.len() implies #[trigger] seeds@[i] != self.local by {
                assert(self.routing().has_peer(seeds@[i]));
            }
        }
        Lookup::new(self.local, self.local, K, seeds)
    }

    /// The boot nodes to dial: all but the local node itself and the peers
    /// already connected, in the order given.
    pub fn bootstrap_dials(&self, boots: &Vec<BootNode>) -> (r: Vec<BootNode>)
        requires
            self.wf(),
        ensures
            forall|i: int| 0 <= i < r@.len() ==> boots@.contains(#[trigger] r@[i]),
            forall|i: int| 0 <= i < r@.len() ==> (#[trigger] r@[i]).peer != self.local_id()
                && self.conns().state_of(r@[i].peer) != ConnectionState::Connected,
            forall|i: int| 0 <= i < boots@.len() && (#[trigger] boots@[i]).peer != self.local_id()
                && self.conns().state_of(boots@[i].peer) != ConnectionState::Connected ==> r@.contains(boots@[i]),
    {
        let mut out: Vec<BootNode> = Vec::new();
        let mut i: usize = 0;
        while i < boots.len()
            invariant
                self.wf(),
                i <= boots@.len(),
                forall|j: int| 0 <= j < out@.len() ==> boots@.contains(#[trigger] out@[j]),
                forall|j: int| 0 <= j < out@.len() ==> (#[trigger] out@[j]).peer != self.local_id()
                    && self.conns().state_of(out@[j].peer) != ConnectionState::Connected,
                forall|j: int| 0 <= j < i && (#[trigger] boots@[j]).peer != self.local_id()
                    && self.conns().state_of(boots@[j].peer) != ConnectionState::Connected ==> out@.contains(boots@[j]),
            decreases boots@.len() - i,
        {
            let b = boots[i];
            if !b.peer.same_as(&self.local) && !self.conns.is_connected(&b.peer) {
                let ghost before = out@;
                out.push(b);
                proof {
                    assert(out@[before.len() as int] == b);
                    assert forall|j: int| 0 <= j < out@.len() implies boots@.contains(#[trigger] out@[j]) by {
                        if j < before.len() {
                            assert(out@[j] == before[j]);
                        } else {
                            assert(boots@[i as int] == b);
                        }
                    }
                    assert forall|j: int| 0 <= j < i + 1 && (#[trigger] boots@[j]).peer != self.local_id()
                        && self.conns().state_of(boots@[j].peer) != ConnectionState::Connected implies out@.contains(boots@[j]) by {
                        if j < i {
                            let m = choose|m: int| 0 <= m < before.len() && before[m] == boots@[j];
                            assert(out@[m] == before[m]);
                        }
                    }
                }
            }
            i += 1;
        }
        out
    }

    /// Decides what the event loop does with `cmd` at time `now`.
    pub fn handle(&mut self, cmd: Command, now: u64) -> (r: Reaction)
        requires
            old(self).wf(),
        ensures
            final(self).wf(),
            final(self).local_id() == old(self).local_id(),
            final(self).routing() == old(self).routing(),
            final(self).conns() == old(self).conns(),
            final(self).phase() == old(self).phase(),
            !(cmd is RegisterFile) ==> final(self).suppliers() == old(self).suppliers(),
            match cmd {
                Command::GetConnectedPeers => r matches Reaction::Reply(Ok(Response::ConnectedPeers { peers }))
                    && forall|p: PeerId| peers@.contains(p) <==> old(self).conns().state_of(p) == ConnectionState::Connected,
                Command::GetAllListeners => r matches Reaction::Reply(Ok(Response::AllListeners { listeners }))
                    && listeners@ == old(self).conns().listener_seq(),
                Command::IsConnectedTo { peer } => r matches Reaction::Reply(Ok(Response::IsConnectedTo { connected }))
                    && connected == (old(self).conns().state_of(peer) == ConnectionState::Connected),
                Command::GetClosestLocalPeers { target } =>
                    if target@.len() == ID_LEN {
                        r matches Reaction::Reply(Ok(Response::ClosestLocalPeers { peers }))
                            && old(self).closest_local_result(peers@, target@)
                    } else {
                        r matches Reaction::Reply(Err(DhtError::InvalidArgument))
                    },
                Command::GetClosestPeers { target } =>
                    if target@.len() == ID_LEN {
                        r matches Reaction::FindClosest(l) && l.wf() && l.target_id()@ == target@
                    } else {
                        r matches Reaction::Reply(Err(DhtError::InvalidArgument))
                    },
                Command::RegisterFile { key, ip, port, price, username, ttl } =>
                    if key@.len() == ID_LEN {
                        r matches Reaction::Replicate { key: k, info, ttl: t, lookup } && k@ == key@ && t == ttl
                            && info == (SupplierInfo { ip, port, price, username }) && lookup.wf()
                            && lookup.target_id() == k
                            && final(self).suppliers()@ == after_register(old(self).suppliers()@, k, info, expiry(now, ttl))
                    } else {
                        r matches Reaction::Reply(Err(DhtError::InvalidArgument))
                            && final(self).suppliers() == old(self).suppliers()
                    },
                Command::CheckHolders { key } =>
                    if key@.len() == ID_LEN {
                        r matches Reaction::FindHolders { local, lookup } && lookup.wf() && lookup.target_id()@ == key@
                            && local@ == live_for(old(self).suppliers()@, lookup.target_id(), now)
                    } else {
                        r matches Reaction::Reply(Err(DhtError::InvalidArgument))
                    },
                Command::Quit => r is Stop,
            },
    {
        match cmd {
            Command::GetConnectedPeers => {
                Reaction::Reply(Ok(Response::ConnectedPeers { peers: self.get_connected_peers() }))
            },
            Command::GetAllListeners => {
                Reaction::Reply(Ok(Response::AllListeners { listeners: self.get_all_listeners() }))
            },
            Command::IsConnectedTo { peer } => {
                Reaction::Reply(Ok(Response::IsConnectedTo { connected: self.is_connected_to(&peer) }))
            },
            Command::GetClosestLocalPeers { target } => {
                match self.get_closest_local_peers(target.as_slice()) {
                    Ok(peers) => Reaction::Reply(Ok(Response::ClosestLocalPeers { peers })),
                    Err(e) => Reaction::Reply(Err(e)),
                }
            },
            Command::GetClosestPeers { target } => {
                match self.begin_closest_peers(target.as_slice()) {
                    Ok(l) => Reaction::FindClosest(l),
                    Err(e) => Reaction::Reply(Err(e)),
                }
            },
            Command::RegisterFile { key, ip, port, price, username, ttl } => {
                let info = SupplierInfo { ip, port, price, username };
                let copy = info.duplicate();
                match self.register_file(key.as_slice(), info, ttl, now) {
                    Ok((k, lookup)) => Reaction::Replicate { key: k, info: copy, ttl, lookup },
                    Err(e) => Reaction::Reply(Err(e)),
                }
            },
            Command::CheckHolders { key } => {
                match self.begin_check_holders(key.as_slice(), now) {
                    Ok((local, lookup)) => Reaction::FindHolders { local, lookup },
                    Err(e) => Reaction::Reply(Err(e)),
                }
            },
            Command::Quit => Reaction::Stop,
        }
    }
}

/// A node's one listener: whatever the node did since it started, asking
/// for its listeners gives the same single address.
pub proof fn lemma_single_listener(n: Node)
    requires
        n.wf(),
    ensures
        n.conns().listener_seq().len() == 1,
        n.conns().listener_seq() == seq![n.conns().listener_addr().unwrap()],
{
}

} // verus!
