//! The connection registry: the state of the connection to each peer, and the
//! node's single listener.
use vstd::prelude::*;
use crate::addr::Address;
use crate::id::PeerId;

verus! {

#[derive(Clone, Copy, Debug, PartialEq, Eq, Structural)]
pub enum ConnectionState {
    Disconnected,
    Connecting,
    Connected,
}

/// What happened to a connection.
#[derive(Clone, Copy, Debug, PartialEq, Eq, Structural)]
pub enum ConnEvent {
    /// A dial was started.
    Dial,
    /// A handshake succeeded, on a dial of ours or on an inbound connection.
    Established,
    /// A dial failed or timed out, or an open connection closed.
    Lost,
}

/// The connection state machine. Transitions that do not apply leave the
/// state as it is.
pub open spec fn next_state(s: ConnectionState, e: ConnEvent) -> ConnectionState {
    match e {
        ConnEvent::Dial => if s == ConnectionState::Disconnected { ConnectionState::Connecting } else { s },
        ConnEvent::Established => ConnectionState::Connected,
        ConnEvent::Lost => ConnectionState::Disconnected,
    }
}

fn step(s: ConnectionState, e: ConnEvent) -> (r: ConnectionState)
    ensures
        r == next_state(s, e),
{
    match e {
        ConnEvent::Dial => if s == ConnectionState::Disconnected { ConnectionState::Connecting } else { s },
        ConnEvent::Established => ConnectionState::Connected,
        ConnEvent::Lost => ConnectionState::Disconnected,
    }
}

/// The connection to `peer`, last known at `address`.
#[derive(Clone, Copy, Debug)]
pub struct ConnectionRecord {
    pub peer: PeerId,
    pub address: Address,
    pub state: ConnectionState,
}

/// The state of the connection to `p` in `s`; a peer never seen is disconnected.
pub open spec fn state_in(s: Seq<ConnectionRecord>, p: PeerId) -> ConnectionState {
    if exists|i: int| 0 <= i < s.len() && (#[trigger] s[i]).peer == p {
        s[choose|i: int| 0 <= i < s.len() && (#[trigger] s[i]).peer == p].state
    } else {
        ConnectionState::Disconnected
    }
}

/// One of the first `n` records of `s` is for `p`.
pub open spec fn peer_among(s: Seq<ConnectionRecord>, n: int, p: PeerId) -> bool {
    exists|j: int| 0 <= j < n && (#[trigger] s[j]).peer == p
}

/// No peer has two records.
pub open spec fn unique_peers(s: Seq<ConnectionRecord>) -> bool {
    forall|i: int, j: int| 0 <= i < s.len() && 0 <= j < s.len() && i != j ==>
        (#[trigger] s[i]).peer != (#[trigger] s[j]).peer
}

/// Why a listener could not be set.
#[derive(Clone, Copy, Debug, PartialEq, Eq, Structural)]
pub enum ListenerError {
    /// The node already listens; a node has exactly one listener.
    AlreadyListening,
}

#[derive(Debug)]
pub struct ConnectionRegistry {
    records: Vec<ConnectionRecord>,
    listener: Option<Address>,
}

impl ConnectionRegistry {
    pub closed spec fn records(&self) -> Seq<ConnectionRecord> {
        self.records@
    }

    pub closed spec fn listener_addr(&self) -> Option<Address> {
        self.listener
    }

    pub open spec fn state_of(&self, p: PeerId) -> ConnectionState {
        state_in(self.records(), p)
    }

    /// The listeners, as a sequence of at most one address.
    pub open spec fn listener_seq(&self) -> Seq<Address> {
        match self.listener_addr() {
            Some(a) => seq![a],
            None => Seq::empty(),
        }
    }

    pub open spec fn wf(&self) -> bool {
        unique_peers(self.records())
    }

    pub fn new() -> (r: ConnectionRegistry)
        ensures
            r.wf(),
            r.listener_addr() == None::<Address>,
            forall|p: PeerId| #[trigger] r.state_of(p) == ConnectionState::Disconnected,
    {
        ConnectionRegistry { records: Vec::new(), listener: None }
    }

    /// Sets the node's one listener.
    pub fn set_listener(&mut self, address: Address) -> (r: Result<(), ListenerError>)
        requires
            old(self).wf(),
        ensures
            final(self).wf(),
            final(self).records() == old(self).records(),
            old(self).listener_addr() is None ==> r is Ok && final(self).listener_addr() == Some(address),
            old(self).listener_addr() is Some ==> r == Err::<(), ListenerError>(ListenerError::AlreadyListening)
                && final(self).listener_addr() == old(self).listener_addr(),
    {
        if self.listener.is_some() {
            return Err(ListenerError::AlreadyListening);
        }
        self.listener = Some(address);
        Ok(())
    }

    /// The addresses the node listens on.
    pub fn listeners(&self) -> (r: Vec<Address>)
        ensures
            r@ == self.listener_seq(),
    {
        let mut v: Vec<Address> = Vec::new();
        match self.listener {
            Some(a) => {
                v.push(a);
                assert(v@ =~= seq![a]);
            },
            None => {},
        }
        v
    }

    fn find(&self, p: &PeerId) -> (r: Option<usize>)
        requires
            self.wf(),
        ensures
            match r {
                Some(i) => i < self.records().len() && self.records()[i as int].peer == *p
                    && self.state_of(*p) == self.records()[i as int].state,
                None => (forall|i: int| 0 <= i < self.records().len() ==> (#[trigger] self.records()[i]).peer != *p)
                    && self.state_of(*p) == ConnectionState::Disconnected,
            },
    {
        let mut i: usize = 0;
        while i < self.records.len()
            invariant
                self.wf(),
                i <= self.records@.len(),
                forall|j: int| 0 <= j < i ==> (#[trigger] self.records@[j]).peer != *p,
            decreases self.records@.len() - i,
        {
            if self.records[i].peer.same_as(p) {
                proof {
                    let s = self.records@;
                    let k = choose|k: int| 0 <= k < s.len() && (#[trigger] s[k]).peer == *p;
                    if k != i {
                        assert(s[k].peer != s[i as int].peer);
                    }
                }
                return Some(i);
            }
            i += 1;
        }
        None
    }

    /// Applies `event` to the connection to `peer`, last seen at `address`.
    pub fn record(&mut self, peer: PeerId, address: Address, event: ConnEvent)
        requires
            old(self).wf(),
        ensures
            final(self).wf(),
            final(self).listener_addr() == old(self).listener_addr(),
            final(self).state_of(peer) == next_state(old(self).state_of(peer), event),
            forall|q: PeerId| q != peer ==> #[trigger] final(self).state_of(q) == old(self).state_of(q),
    {
        let ghost s = self.records@;
        match self.find(&peer) {
            Some(i) => {
                let st = step(self.records[i].state, event);
                self.records.set(i, ConnectionRecord { peer, address, state: st });
                proof {
                    let t = self.records@;
                    assert(t == s.update(i as int, ConnectionRecord { peer, address, state: st }));
                    assert(unique_peers(t)) by {
                        assert forall|a: int, b: int| 0 <= a < t.len() && 0 <= b < t.len() && a != b implies
                            (#[trigger] t[a]).peer != (#[trigger] t[b]).peer by {
                            assert(s[a].peer != s[b].peer);
                        }
                    }
                    assert(t[i as int].peer == peer);
                    let k = choose|k: int| 0 <= k < t.len() && (#[trigger] t[k]).peer == peer;
                    if k != i {
                        assert(t[k].peer != t[i as int].peer);
                    }
                    lemma_others_unchanged(s, t, peer);
                }
            },
            None => {
                let st = step(ConnectionState::Disconnected, event);
                self.records.push(ConnectionRecord { peer, address, state: st });
                proof {
                    let t = self.records@;
                    assert(t == s.push(ConnectionRecord { peer, address, state: st }));
                    assert(unique_peers(t)) by {
                        assert forall|a: int, b: int| 0 <= a < t.len() && 0 <= b < t.len() && a != b implies
                            (#[trigger] t[a]).peer != (#[trigger] t[b]).peer by {
                            if a < s.len() && b < s.len() {
                                assert(s[a].peer != s[b].peer);
                            } else if a < s.len() {
                                assert(t[a] == s[a]);
                            } else {
                                assert(t[b] == s[b]);
                            }
                        }
                    }
                    assert(t[s.len() as int].peer == peer);
                    let k = choose|k: int| 0 <= k < t.len() && (#[trigger] t[k]).peer == peer;
                    if k != s.len() {
                        assert(t[k].peer != t[s.len() as int].peer);
                    }
                    lemma_others_unchanged(s, t, peer);
                }
            },
        }
    }

    /// Whether the connection to `peer` is open.
    pub fn is_connected(&self, peer: &PeerId) -> (r: bool)
        requires
            self.wf(),
        ensures
            r == (self.state_of(*peer) == ConnectionState::Connected),
    {
        match self.find(peer) {
            Some(i) => self.records[i].state == ConnectionState::Connected,
            None => false,
        }
    }

    /// The last known address of `peer`, if the registry has seen it.
    pub fn address_of(&self, peer: &PeerId) -> (r: Option<Address>)
        requires
            self.wf(),
        ensures
            r is Some <==> exists|i: int| 0 <= i < self.records().len() && (#[trigger] self.records()[i]).peer == *peer,
            r matches Some(a) ==> exists|i: int| 0 <= i < self.records().len()
                && (#[trigger] self.records()[i]).peer == *peer && self.records()[i].address == a,
    {
        match self.find(peer) {
            Some(i) => Some(self.records[i].address),
            None => None,
        }
    }

    /// The peers with an open connection, each once.
    pub fn connected_peers(&self) -> (r: Vec<PeerId>)
        requires
            self.wf(),
        ensures
            forall|p: PeerId| r@.contains(p) <==> self.state_of(p) == ConnectionState::Connected,
            forall|i: int, j: int| 0 <= i < r@.len() && 0 <= j < r@.len() && i != j ==> r@[i] != r@[j],
    {
        let s = &self.records;
        let mut out: Vec<PeerId> = Vec::new();
        let mut i: usize = 0;
        while i < s.len()
            invariant
                unique_peers(s@),
                s@ == self.records(),
                i <= s@.len(),
                forall|p: PeerId| out@.contains(p) <==> exists|j: int|
                    0 <= j < i && (#[trigger] s@[j]).peer == p && s@[j].state == ConnectionState::Connected,
                forall|a: int, b: int| 0 <= a < out@.len() && 0 <= b < out@.len() && a != b ==> out@[a] != out@[b],
                forall|a: int| 0 <= a < out@.len() ==> peer_among(s@, i as int, #[trigger] out@[a]),
            decreases s@.len() - i,
        {
            let ghost before = out@;
            if s[i].state == ConnectionState::Connected {
                out.push(s[i].peer);
                proof {
                    assert forall|p: PeerId| out@.contains(p) <==> exists|j: int|
                        0 <= j < i + 1 && (#[trigger] s@[j]).peer == p && s@[j].state == ConnectionState::Connected by {
                        if out@.contains(p) {
                            let a = choose|a: int| 0 <= a < out@.len() && out@[a] == p;
                            if a < before.len() {
                                assert(before[a] == p);
                                assert(before.contains(p));
                            } else {
                                assert(s@[i as int].peer == p);
                            }
                        }
                        if exists|j: int| 0 <= j < i + 1 && (#[trigger] s@[j]).peer == p && s@[j].state == ConnectionState::Connected {
                            let j = choose|j: int| 0 <= j < i + 1 && (#[trigger] s@[j]).peer == p && s@[j].state == ConnectionState::Connected;
                            if j < i {
                                assert(before.contains(p));
                                let a = choose|a: int| 0 <= a < before.len() && before[a] == p;
                                assert(out@[a] == p);
                            } else {
                                assert(out@[before.len() as int] == p);
                            }
                        }
                    }
                    assert forall|a: int| 0 <= a < out@.len() implies peer_among(s@, i + 1, #[trigger] out@[a]) by {
                        if a < before.len() {
                            assert(out@[a] == before[a]);
                        } else {
                            assert(s@[i as int].peer == out@[a]);
                        }
                    }
                    assert forall|a: int, b: int| 0 <= a < out@.len() && 0 <= b < out@.len() && a != b implies out@[a] != out@[b] by {
                        if a < before.len() && b < before.len() {
                            assert(out@[a] == before[a] && out@[b] == before[b]);
                        } else if a < before.len() {
                            assert(out@[a] == before[a]);
                            let j = choose|j: int| 0 <= j < i && (#[trigger] s@[j]).peer == before[a];
                            assert(s@[j].peer != s@[i as int].peer);
                        } else if b < before.len() {
                            assert(out@[b] == before[b]);
                            let j = choose|j: int| 0 <= j < i && (#[trigger] s@[j]).peer == before[b];
                            assert(s@[j].peer != s@[i as int].peer);
                        }
                    }
                }
            } else {
                proof {
                    assert forall|p: PeerId| out@.contains(p) <==> exists|j: int|
                        0 <= j < i + 1 && (#[trigger] s@[j]).peer == p && s@[j].state == ConnectionState::Connected by {
                        if exists|j: int| 0 <= j < i + 1 && (#[trigger] s@[j]).peer == p && s@[j].state == ConnectionState::Connected {
                            let j = choose|j: int| 0 <= j < i + 1 && (#[trigger] s@[j]).peer == p && s@[j].state == ConnectionState::Connected;
                            assert(j < i);
                        }
                    }
                }
            }
            i += 1;
        }
        proof {
            assert forall|p: PeerId| out@.contains(p) <==> self.state_of(p) == ConnectionState::Connected by {
                if exists|i: int| 0 <= i < s@.len() && (#[trigger] s@[i]).peer == p {
                    let k = choose|i: int| 0 <= i < s@.len() && (#[trigger] s@[i]).peer == p;
                    if exists|j: int| 0 <= j < s@.len() && (#[trigger] s@[j]).peer == p && s@[j].state == ConnectionState::Connected {
                        let j = choose|j: int| 0 <= j < s@.len() && (#[trigger] s@[j]).peer == p && s@[j].state == ConnectionState::Connected;
                        if j != k {
                            assert(s@[j].peer != s@[k].peer);
                        }
                    }
                }
            }
        }
        out
    }

    /// Closes every connection: the node is shutting down.
    pub fn disconnect_all(&mut self)
        requires
            old(self).wf(),
        ensures
            final(self).wf(),
            final(self).listener_addr() == old(self).listener_addr(),
            forall|p: PeerId| #[trigger] final(self).state_of(p) == ConnectionState::Disconnected,
    {
        let mut i: usize = 0;
        let ghost s = self.records@;
        while i < self.records.len()
            invariant
                self.listener == old(self).listener,
                self.records@.len() == s.len(),
                i <= s.len(),
                forall|j: int| 0 <= j < s.len() ==> (#[trigger] self.records@[j]).peer == s[j].peer,
                forall|j: int| 0 <= j < i ==> (#[trigger] self.records@[j]).state == ConnectionState::Disconnected,
                unique_peers(s),
            decreases s.len() - i,
        {
            let r = self.records[i];
            self.records.set(i, ConnectionRecord { peer: r.peer, address: r.address, state: ConnectionState::Disconnected });
            i += 1;
        }
        proof {
            let t = self.records@;
            assert forall|a: int, b: int| 0 <= a < t.len() && 0 <= b < t.len() && a != b implies
                (#[trigger] t[a]).peer != (#[trigger] t[b]).peer by {
                assert(s[a].peer != s[b].peer);
            }
            assert forall|p: PeerId| #[trigger] self.state_of(p) == ConnectionState::Disconnected by {
                if exists|i: int| 0 <= i < t.len() && (#[trigger] t[i]).peer == p {
                    let k = choose|i: int| 0 <= i < t.len() && (#[trigger] t[i]).peer == p;
                    assert(t[k].state == ConnectionState::Disconnected);
                }
            }
        }
    }
}

/// Changing the record of `p` alone leaves every other peer's state as it was.
proof fn lemma_others_unchanged(s: Seq<ConnectionRecord>, t: Seq<ConnectionRecord>, p: PeerId)
    requires
        unique_peers(s),
        unique_peers(t),
        s.len() <= t.len(),
        forall|i: int| 0 <= i < s.len() && (#[trigger] s[i]).peer != p ==> t[i] == s[i],
        forall|i: int| s.len() <= i < t.len() ==> (#[trigger] t[i]).peer == p,
        forall|i: int| 0 <= i < s.len() ==> (#[trigger] t[i]).peer == s[i].peer,
    ensures
        forall|q: PeerId| q != p ==> #[trigger] state_in(t, q) == state_in(s, q),
{
    assert forall|q: PeerId| q != p implies #[trigger] state_in(t, q) == state_in(s, q) by {
        if exists|i: int| 0 <= i < s.len() && (#[trigger] s[i]).peer == q {
            let k = choose|i: int| 0 <= i < s.len() && (#[trigger] s[i]).peer == q;
            assert(t[k] == s[k]);
            let m = choose|i: int| 0 <= i < t.len() && (#[trigger] t[i]).peer == q;
            if m != k {
                assert(t[m].peer != t[k].peer);
            }
        } else if exists|i: int| 0 <= i < t.len() && (#[trigger] t[i]).peer == q {
            let m = choose|i: int| 0 <= i < t.len() && (#[trigger] t[i]).peer == q;
            if m < s.len() {
                assert(t[m].peer == s[m].peer);
            }
        }
    }
}

} // verus!
