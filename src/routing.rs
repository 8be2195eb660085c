//! The routing table: one bucket of at most `K` peers for each length of the
//! bit prefix that a peer shares with the local identifier.
use vstd::prelude::*;
use crate::addr::Address;
use crate::closest::{covers, insert_closest, sorted_by_distance};
use crate::id::{common_prefix_len, prefix_len, PeerId, ID_BITS};

verus! {

/// Capacity of a bucket.
pub const K: usize = 20;

/// A peer known to the routing table.
#[derive(Clone, Copy, Debug)]
pub struct Entry {
    pub peer: PeerId,
    pub address: Address,
    /// Whether the last attempt to reach the peer succeeded.
    pub reachable: bool,
}

/// What an insertion did.
#[derive(Clone, Copy, Debug, PartialEq, Eq, Structural)]
pub enum InsertOutcome {
    /// The peer is new to the table.
    Added,
    /// The peer was known; its address was refreshed and it is now the most
    /// recently seen of its bucket.
    Updated,
    /// The peer's bucket is full of reachable peers; nothing changed.
    Full,
    /// The peer is the local node; nothing changed.
    Rejected,
}

#[derive(Debug)]
pub struct RoutingTable {
    local: PeerId,
    buckets: Vec<Vec<Entry>>,
}

/// Some entry of `b` is for peer `p`.
pub open spec fn bucket_has(b: Seq<Entry>, p: PeerId) -> bool {
    exists|i: int| 0 <= i < b.len() && (#[trigger] b[i]).peer == p
}

/// A bucket for prefix length `b`: at most `K` entries, each for a peer whose
/// common prefix with `local` is `b` bits long (so never `local` itself), no
/// peer twice.
pub open spec fn good_bucket(s: Seq<Entry>, b: int, local: PeerId) -> bool {
    &&& s.len() <= K
    &&& entries_in_bucket(s, b, local)
}

/// Every entry of `s` belongs in bucket `b`, and no peer has two entries.
pub open spec fn entries_in_bucket(s: Seq<Entry>, b: int, local: PeerId) -> bool {
    &&& forall|i: int| 0 <= i < s.len() ==> prefix_len((#[trigger] s[i]).peer, local) == b
    &&& forall|i: int, j: int| 0 <= i < s.len() && 0 <= j < s.len() && i != j ==>
        (#[trigger] s[i]).peer != (#[trigger] s[j]).peer
}

proof fn lemma_entries_remove(s: Seq<Entry>, b: int, local: PeerId, i: int)
    requires
        entries_in_bucket(s, b, local),
        0 <= i < s.len(),
    ensures
        entries_in_bucket(s.remove(i), b, local),
        !bucket_has(s.remove(i), s[i].peer),
        forall|p: PeerId| bucket_has(s.remove(i), p) ==> #[trigger] bucket_has(s, p),
{
    let r = s.remove(i);
    assert forall|k: int| 0 <= k < r.len() implies (#[trigger] r[k]) == s[if k < i { k } else { k + 1 }] by {
    }
    assert forall|p: PeerId| bucket_has(r, p) implies #[trigger] bucket_has(s, p) by {
        let k = choose|k: int| 0 <= k < r.len() && (#[trigger] r[k]).peer == p;
        assert(s[if k < i { k } else { k + 1 }].peer == p);
    }
    assert forall|k: int, j: int| 0 <= k < r.len() && 0 <= j < r.len() && k != j implies
        (#[trigger] r[k]).peer != (#[trigger] r[j]).peer by {
        assert(r[k] == s[if k < i { k } else { k + 1 }]);
        assert(r[j] == s[if j < i { j } else { j + 1 }]);
    }
    if bucket_has(r, s[i].peer) {
        let k = choose|k: int| 0 <= k < r.len() && (#[trigger] r[k]).peer == s[i].peer;
        assert(r[k] == s[if k < i { k } else { k + 1 }]);
    }
}

proof fn lemma_entries_push(s: Seq<Entry>, b: int, local: PeerId, e: Entry)
    requires
        entries_in_bucket(s, b, local),
        !bucket_has(s, e.peer),
        prefix_len(e.peer, local) == b,
    ensures
        entries_in_bucket(s.push(e), b, local),
        forall|p: PeerId| #[trigger] bucket_has(s.push(e), p) <==> bucket_has(s, p) || p == e.peer,
{
    let r = s.push(e);
    assert forall|k: int, j: int| 0 <= k < r.len() && 0 <= j < r.len() && k != j implies
        (#[trigger] r[k]).peer != (#[trigger] r[j]).peer by {
        if k < s.len() && j < s.len() {
            assert(r[k] == s[k] && r[j] == s[j]);
        } else if k < s.len() {
            assert(r[k] == s[k]);
        } else {
            assert(r[j] == s[j]);
        }
    }
    assert forall|p: PeerId| #[trigger] bucket_has(r, p) <==> bucket_has(s, p) || p == e.peer by {
        if bucket_has(s, p) {
            let k = choose|k: int| 0 <= k < s.len() && (#[trigger] s[k]).peer == p;
            assert(r[k] == s[k]);
        }
        if p == e.peer {
            assert(r[s.len() as int] == e);
        }
        if bucket_has(r, p) && p != e.peer {
            let k = choose|k: int| 0 <= k < r.len() && (#[trigger] r[k]).peer == p;
            assert(r[k] == s[k]);
        }
    }
}

/// What `insert` of `peer` at `address` does to a table `t0`, leaving `t1`
/// and answering `r`. The local node is rejected. A known peer moves to the
/// end of its bucket, as the most recently seen, with its new address. A new
/// peer is appended where its bucket has room, or in place of the bucket's
/// least recently seen entry when that one is unreachable; else the bucket is
/// full and nothing changes. Other buckets never change.
pub open spec fn insert_result(t0: RoutingTable, t1: RoutingTable, peer: PeerId, address: Address, r: InsertOutcome) -> bool {
    &&& peer == t0.local_id() ==> r == InsertOutcome::Rejected && t1 == t0
    &&& peer != t0.local_id() ==> {
        let b = prefix_len(peer, t0.local_id()) as int;
        let ob = t0.bucket(b);
        let e = fresh_entry(peer, address);
        &&& b < ID_BITS
        &&& forall|c: int| 0 <= c < ID_BITS && c != b ==> #[trigger] t1.bucket(c) == t0.bucket(c)
        &&& bucket_has(ob, peer) ==> r == InsertOutcome::Updated && exists|i: int|
            0 <= i < ob.len() && ob[i].peer == peer && t1.bucket(b) == ob.remove(i).push(e)
        &&& !bucket_has(ob, peer) && ob.len() < K ==>
            r == InsertOutcome::Added && t1.bucket(b) == ob.push(e)
        &&& !bucket_has(ob, peer) && ob.len() == K && !ob[0].reachable ==>
            r == InsertOutcome::Added && t1.bucket(b) == ob.subrange(1, ob.len() as int).push(e)
        &&& !bucket_has(ob, peer) && ob.len() == K && ob[0].reachable ==>
            r == InsertOutcome::Full && t1 == t0
    }
}

/// What `set_reachable` of `peer` does to a table `t0`, leaving `t1`: the
/// peer's entry, if any, gets the flag `reachable`; nothing else changes.
pub open spec fn reachability_result(t0: RoutingTable, t1: RoutingTable, peer: PeerId, reachable: bool) -> bool {
    &&& forall|c: int| 0 <= c < ID_BITS && c != prefix_len(peer, t0.local_id()) ==>
        #[trigger] t1.bucket(c) == t0.bucket(c)
    &&& peer == t0.local_id() ==> t1 == t0
    &&& peer != t0.local_id() ==> ({
        let b = prefix_len(peer, t0.local_id()) as int;
        let ob = t0.bucket(b);
        &&& bucket_has(ob, peer) ==> exists|i: int|
            0 <= i < ob.len() && ob[i].peer == peer && t1.bucket(b) == ob.update(
                i,
                Entry { peer: ob[i].peer, address: ob[i].address, reachable },
            )
        &&& !bucket_has(ob, peer) ==> t1 == t0
    })
}

/// The entry that an insertion of `p` at `a` stores.
pub open spec fn fresh_entry(p: PeerId, a: Address) -> Entry {
    Entry { peer: p, address: a, reachable: true }
}

impl RoutingTable {
    /// The local identifier.
    pub closed spec fn local_id(&self) -> PeerId {
        self.local
    }

    /// The buckets, least recently seen entry first in each.
    pub closed spec fn bucket_seqs(&self) -> Seq<Seq<Entry>> {
        Seq::new(self.buckets@.len(), |i: int| self.buckets@[i]@)
    }

    pub open spec fn bucket(&self, b: int) -> Seq<Entry> {
        self.bucket_seqs()[b]
    }

    /// `p` is stored in the table.
    pub open spec fn has_peer(&self, p: PeerId) -> bool {
        exists|b: int| 0 <= b < ID_BITS && #[trigger] bucket_has(self.bucket(b), p)
    }

    /// The table's invariant: one bucket per prefix length, each of them
    /// well formed for its index (see `good_bucket`).
    pub open spec fn wf(&self) -> bool {
        &&& self.bucket_seqs().len() == ID_BITS
        &&& forall|b: int| 0 <= b < ID_BITS ==> good_bucket(#[trigger] self.bucket(b), b, self.local_id())
    }

    /// An empty table for the node `local`.
    pub fn new(local: PeerId) -> (r: RoutingTable)
        ensures
            r.wf(),
            r.local_id() == local,
            forall|b: int| 0 <= b < ID_BITS ==> (#[trigger] r.bucket(b)).len() == 0,
    {
        let mut buckets: Vec<Vec<Entry>> = Vec::new();
        let mut i: usize = 0;
        while i < ID_BITS
            invariant
                i <= ID_BITS,
                buckets@.len() == i,
                forall|b: int| 0 <= b < i ==> (#[trigger] buckets@[b])@.len() == 0,
            decreases ID_BITS - i,
        {
            buckets.push(Vec::new());
            i += 1;
        }
        let r = RoutingTable { local, buckets };
        assert forall|b: int| 0 <= b < ID_BITS implies (#[trigger] r.bucket(b)).len() == 0 by {
            assert(r.bucket(b) == r.buckets@[b]@);
        }
        r
    }

    /// The local identifier.
    pub fn local(&self) -> (r: PeerId)
        ensures
            r == self.local_id(),
    {
        self.local
    }

    /// Index of `p` in bucket `b`, if it is there.
    fn find_in_bucket(&self, b: usize, p: &PeerId) -> (r: Option<usize>)
        requires
            self.wf(),
            b < ID_BITS,
        ensures
            match r {
                Some(i) => i < self.bucket(b as int).len() && self.bucket(b as int)[i as int].peer == *p,
                None => !bucket_has(self.bucket(b as int), *p),
            },
    {
        let bucket = &self.buckets[b];
        assert(bucket@ == self.bucket(b as int));
        let mut i: usize = 0;
        while i < bucket.len()
            invariant
                bucket@ == self.bucket(b as int),
                i <= bucket@.len(),
                forall|j: int| 0 <= j < i ==> (#[trigger] bucket@[j]).peer != *p,
            decreases bucket@.len() - i,
        {
            if bucket[i].peer.same_as(p) {
                return Some(i);
            }
            i += 1;
        }
        None
    }
}


impl RoutingTable {
    /// Records that `peer` was seen at `address`. A known peer becomes the most
    /// recently seen of its bucket; a new one is appended where there is room,
    /// or in place of the least recently seen entry when that one is
    /// unreachable; otherwise the bucket is full and the peer is dropped.
    pub fn insert(&mut self, peer: PeerId, address: Address) -> (r: InsertOutcome)
        requires
            old(self).wf(),
        ensures
            final(self).wf(),
            final(self).local_id() == old(self).local_id(),
            insert_result(*old(self), *final(self), peer, address, r),
    {
        let b = common_prefix_len(&peer, &self.local);
        if b == ID_BITS {
            return InsertOutcome::Rejected;
        }
        let ghost ob = self.bucket(b as int);
        let ghost b0 = self.bucket_seqs();
        assert forall|c: int| 0 <= c < ID_BITS implies good_bucket(#[trigger] b0[c], c, self.local_id()) by {
            assert(good_bucket(self.bucket(c), c, self.local_id()));
        }
        let e = Entry { peer, address, reachable: true };
        let r;
        match self.find_in_bucket(b, &peer) {
            Some(i) => {
                proof {
                    lemma_entries_remove(ob, b as int, self.local, i as int);
                    lemma_entries_push(ob.remove(i as int), b as int, self.local, e);
                }
                self.buckets[b].remove(i);
                self.buckets[b].push(e);
                r = InsertOutcome::Updated;
                assert(self.buckets@[b as int]@ == ob.remove(i as int).push(e));
            },
            None => {
                if self.buckets[b].len() < K {
                    proof {
                        lemma_entries_push(ob, b as int, self.local, e);
                    }
                    self.buckets[b].push(e);
                    r = InsertOutcome::Added;
                    assert(self.buckets@[b as int]@ == ob.push(e));
                } else if !self.buckets[b][0].reachable {
                    proof {
                        lemma_entries_remove(ob, b as int, self.local, 0);
                        lemma_entries_push(ob.remove(0), b as int, self.local, e);
                    }
                    self.buckets[b].remove(0);
                    self.buckets[b].push(e);
                    r = InsertOutcome::Added;
                    assert(ob.remove(0) =~= ob.subrange(1, ob.len() as int));
                } else {
                    return InsertOutcome::Full;
                }
            },
        }
        proof {
            let nb = self.bucket(b as int);
            assert forall|c: int| 0 <= c < ID_BITS && c != b implies #[trigger] self.bucket(c) == b0[c] by {
                assert(self.bucket(c) == self.buckets@[c]@);
            }
            assert(nb == self.buckets@[b as int]@);
            assert(nb.len() <= K);
            assert(entries_in_bucket(nb, b as int, self.local));
            assert(self.bucket_seqs().len() == ID_BITS);
            assert forall|c: int| 0 <= c < ID_BITS implies good_bucket(#[trigger] self.bucket(c), c, self.local_id()) by {
                if c != b {
                    assert(good_bucket(b0[c], c, self.local_id()));
                }
            }
        }
        r
    }
}

impl RoutingTable {
    /// Forgets `peer`; nothing happens when it is not in the table.
    pub fn remove(&mut self, peer: &PeerId)
        requires
            old(self).wf(),
        ensures
            final(self).wf(),
            final(self).local_id() == old(self).local_id(),
            !final(self).has_peer(*peer),
            *peer == old(self).local_id() ==> *final(self) == *old(self),
            *peer != old(self).local_id() ==> {
                let b = prefix_len(*peer, old(self).local_id()) as int;
                let ob = old(self).bucket(b);
                &&& forall|c: int| 0 <= c < ID_BITS && c != b ==>
                    #[trigger] final(self).bucket(c) == old(self).bucket(c)
                &&& bucket_has(ob, *peer) ==> exists|i: int|
                    0 <= i < ob.len() && ob[i].peer == *peer && final(self).bucket(b) == ob.remove(i)
                &&& !bucket_has(ob, *peer) ==> *final(self) == *old(self)
            },
    {
        let b = common_prefix_len(peer, &self.local);
        let ghost b0 = self.bucket_seqs();
        assert forall|c: int| 0 <= c < ID_BITS implies good_bucket(#[trigger] b0[c], c, self.local_id()) by {
            assert(good_bucket(self.bucket(c), c, self.local_id()));
        }
        if b == ID_BITS {
            proof { self.lemma_only_in_own_bucket(*peer); }
            return;
        }
        let ghost ob = self.bucket(b as int);
        match self.find_in_bucket(b, peer) {
            Some(i) => {
                proof {
                    lemma_entries_remove(ob, b as int, self.local, i as int);
                }
                self.buckets[b].remove(i);
                proof {
                    assert forall|c: int| 0 <= c < ID_BITS && c != b implies #[trigger] self.bucket(c) == b0[c] by {
                        assert(self.bucket(c) == self.buckets@[c]@);
                    }
                    assert(self.bucket(b as int) == self.buckets@[b as int]@);
                    assert forall|c: int| 0 <= c < ID_BITS implies good_bucket(#[trigger] self.bucket(c), c, self.local_id()) by {
                        if c != b {
                            assert(good_bucket(b0[c], c, self.local_id()));
                        }
                    }
                    self.lemma_only_in_own_bucket(*peer);
                }
            },
            None => {
                proof { self.lemma_only_in_own_bucket(*peer); }
            },
        }
    }

    /// A peer can only be stored in the bucket of its prefix length.
    pub proof fn lemma_only_in_own_bucket(&self, p: PeerId)
        requires
            self.wf(),
        ensures
            forall|c: int| 0 <= c < ID_BITS && c != prefix_len(p, self.local_id()) ==>
                !bucket_has(#[trigger] self.bucket(c), p),
            self.has_peer(p) ==> prefix_len(p, self.local_id()) < ID_BITS
                && bucket_has(self.bucket(prefix_len(p, self.local_id()) as int), p),
    {
        assert forall|c: int| 0 <= c < ID_BITS && c != prefix_len(p, self.local_id()) implies
            !bucket_has(#[trigger] self.bucket(c), p) by {
            if bucket_has(self.bucket(c), p) {
                let i = choose|i: int| 0 <= i < self.bucket(c).len() && (#[trigger] self.bucket(c)[i]).peer == p;
                assert(good_bucket(self.bucket(c), c, self.local_id()));
            }
        }
        if self.has_peer(p) {
            let c = choose|c: int| 0 <= c < ID_BITS && #[trigger] bucket_has(self.bucket(c), p);
        }
    }

    /// Records whether `peer` could be reached, where it is in the table.
    pub fn set_reachable(&mut self, peer: &PeerId, reachable: bool)
        requires
            old(self).wf(),
        ensures
            final(self).wf(),
            final(self).local_id() == old(self).local_id(),
            reachability_result(*old(self), *final(self), *peer, reachable),
    {
        let b = common_prefix_len(peer, &self.local);
        let ghost b0 = self.bucket_seqs();
        proof { self.lemma_only_in_own_bucket(*peer); }
        assert forall|c: int| 0 <= c < ID_BITS implies good_bucket(#[trigger] b0[c], c, self.local_id()) by {
            assert(good_bucket(self.bucket(c), c, self.local_id()));
        }
        if b == ID_BITS {
            return;
        }
        let ghost ob = self.bucket(b as int);
        match self.find_in_bucket(b, peer) {
            Some(i) => {
                let old_e = self.buckets[b][i];
                let e = Entry { peer: old_e.peer, address: old_e.address, reachable };
                self.buckets[b].set(i, e);
                proof {
                    assert forall|c: int| 0 <= c < ID_BITS && c != b implies #[trigger] self.bucket(c) == b0[c] by {
                        assert(self.bucket(c) == self.buckets@[c]@);
                    }
                    let nb = self.bucket(b as int);
                    assert(nb == self.buckets@[b as int]@);
                    assert(nb == ob.update(i as int, e));
                    assert(entries_in_bucket(nb, b as int, self.local)) by {
                        assert forall|k: int| 0 <= k < nb.len() implies (#[trigger] nb[k]).peer == ob[k].peer by {}
                        assert forall|k: int, j: int| 0 <= k < nb.len() && 0 <= j < nb.len() && k != j implies
                            (#[trigger] nb[k]).peer != (#[trigger] nb[j]).peer by {
                            assert(nb[k].peer == ob[k].peer && nb[j].peer == ob[j].peer);
                        }
                    }
                    assert forall|c: int| 0 <= c < ID_BITS implies good_bucket(#[trigger] self.bucket(c), c, self.local_id()) by {
                        if c != b {
                            assert(good_bucket(b0[c], c, self.local_id()));
                        }
                    }
                }
            },
            None => {},
        }
    }

    /// The `n` peers of the table closest to `target` (all of them, when the
    /// table holds fewer), in strictly ascending order of distance.
    pub fn closest_local(&self, target: &PeerId, n: usize) -> (r: Vec<PeerId>)
        requires
            self.wf(),
        ensures
            sorted_by_distance(r@, *target),
            r@.len() <= n,
            forall|i: int| 0 <= i < r@.len() ==> self.has_peer(#[trigger] r@[i]),
            forall|p: PeerId| self.has_peer(p) ==> #[trigger] covers(r@, p, *target, n as nat),
    {
        let mut r: Vec<PeerId> = Vec::new();
        if n == 0 {
            return r;
        }
        let mut b: usize = 0;
        while b < ID_BITS
            invariant
                self.wf(),
                n > 0,
                b <= ID_BITS,
                sorted_by_distance(r@, *target),
                r@.len() <= n,
                forall|i: int| 0 <= i < r@.len() ==> self.has_peer(#[trigger] r@[i]),
                forall|c: int, i: int| 0 <= c < b && 0 <= i < self.bucket(c).len() ==>
                    covers(r@, (#[trigger] self.bucket(c)[i]).peer, *target, n as nat),
            decreases ID_BITS - b,
        {
            let bucket = &self.buckets[b];
            assert(bucket@ == self.bucket(b as int));
            let mut i: usize = 0;
            while i < bucket.len()
                invariant
                    self.wf(),
                    n > 0,
                    b < ID_BITS,
                    bucket@ == self.bucket(b as int),
                    i <= bucket@.len(),
                    sorted_by_distance(r@, *target),
                    r@.len() <= n,
                    forall|k: int| 0 <= k < r@.len() ==> self.has_peer(#[trigger] r@[k]),
                    forall|c: int, k: int| 0 <= c < b && 0 <= k < self.bucket(c).len() ==>
                        covers(r@, (#[trigger] self.bucket(c)[k]).peer, *target, n as nat),
                    forall|k: int| 0 <= k < i ==>
                        covers(r@, (#[trigger] self.bucket(b as int)[k]).peer, *target, n as nat),
                decreases bucket@.len() - i,
            {
                let p = bucket[i].peer;
                let ghost before = r@;
                assert(bucket_has(self.bucket(b as int), p));
                assert(self.has_peer(p));
                insert_closest(&mut r, p, target, n);
                proof {
                    assert forall|c: int, k: int| 0 <= c < b && 0 <= k < self.bucket(c).len() implies
                        covers(r@, (#[trigger] self.bucket(c)[k]).peer, *target, n as nat) by {
                        assert(covers(before, self.bucket(c)[k].peer, *target, n as nat));
                    }
                    assert forall|k: int| 0 <= k <= i implies
                        covers(r@, (#[trigger] self.bucket(b as int)[k]).peer, *target, n as nat) by {
                        if k < i {
                            assert(covers(before, self.bucket(b as int)[k].peer, *target, n as nat));
                        }
                    }
                    assert forall|k: int| 0 <= k < r@.len() implies self.has_peer(#[trigger] r@[k]) by {
                        if r@[k] != p {
                            let j = choose|j: int| 0 <= j < before.len() && before[j] == r@[k];
                            assert(self.has_peer(before[j]));
                        }
                    }
                }
                i += 1;
            }
            b += 1;
        }
        proof {
            assert forall|p: PeerId| self.has_peer(p) implies #[trigger] covers(r@, p, *target, n as nat) by {
                let c = choose|c: int| 0 <= c < ID_BITS && #[trigger] bucket_has(self.bucket(c), p);
                let k = choose|k: int| 0 <= k < self.bucket(c).len() && (#[trigger] self.bucket(c)[k]).peer == p;
                assert(covers(r@, self.bucket(c)[k].peer, *target, n as nat));
            }
        }
        r
    }
}

/// However a table was built by `new`, `insert`, `remove` and
/// `set_reachable`, each of which keeps `wf`: no bucket holds more than `K`
/// entries, and every stored peer sits in the bucket whose index is the length
/// of its common bit prefix with the local identifier.
pub proof fn lemma_bucket_bounds(t: RoutingTable)
    requires
        t.wf(),
    ensures
        forall|b: int| 0 <= b < ID_BITS ==> (#[trigger] t.bucket(b)).len() <= K,
        forall|b: int, i: int| 0 <= b < ID_BITS && 0 <= i < t.bucket(b).len() ==>
            prefix_len((#[trigger] t.bucket(b)[i]).peer, t.local_id()) == b,
        !t.has_peer(t.local_id()),
{
    assert forall|b: int| 0 <= b < ID_BITS implies (#[trigger] t.bucket(b)).len() <= K by {
        assert(good_bucket(t.bucket(b), b, t.local_id()));
    }
    assert forall|b: int, i: int| 0 <= b < ID_BITS && 0 <= i < t.bucket(b).len() implies
        prefix_len((#[trigger] t.bucket(b)[i]).peer, t.local_id()) == b by {
        assert(good_bucket(t.bucket(b), b, t.local_id()));
    }
    t.lemma_only_in_own_bucket(t.local_id());
    crate::id::lemma_prefix_self(t.local_id());
}
/// Asking the same table for the `n` peers closest to `target` twice gives the
/// same list, in the same order: what `closest_local` promises leaves only one
/// possible answer.
pub proof fn lemma_closest_local_deterministic(t: RoutingTable, target: PeerId, n: nat, r1: Seq<PeerId>, r2: Seq<PeerId>)
    requires
        t.wf(),
        sorted_by_distance(r1, target),
        sorted_by_distance(r2, target),
        r1.len() <= n,
        r2.len() <= n,
        forall|i: int| 0 <= i < r1.len() ==> t.has_peer(#[trigger] r1[i]),
        forall|i: int| 0 <= i < r2.len() ==> t.has_peer(#[trigger] r2[i]),
        forall|p: PeerId| t.has_peer(p) ==> #[trigger] covers(r1, p, target, n),
        forall|p: PeerId| t.has_peer(p) ==> #[trigger] covers(r2, p, target, n),
    ensures
        r1 == r2,
{
    let u = Set::new(|p: PeerId| t.has_peer(p));
    assert forall|i: int| 0 <= i < r1.len() implies u.contains(#[trigger] r1[i]) by {}
    assert forall|i: int| 0 <= i < r2.len() implies u.contains(#[trigger] r2[i]) by {}
    assert forall|p: PeerId| u.contains(p) implies #[trigger] covers(r1, p, target, n) by {}
    assert forall|p: PeerId| u.contains(p) implies #[trigger] covers(r2, p, target, n) by {}
    crate::closest::lemma_closest_unique(u, target, n, r1, r2);
}

} // verus!
