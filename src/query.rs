//! The iterative closest-peers lookup, as a state object that the engine
//! advances one round at a time: it hands out the peers to ask, takes in their
//! answers and failures, and says when the lookup is over.
use vstd::prelude::*;
use crate::closest::{
    contains_peer, covers, distinct, insert_closest, remove_peer, sorted_by_distance,
};
use crate::id::{closer, compare_distance, Order, PeerId};
use crate::supplier::{holds_supplier, merge_suppliers, SupplierInfo};

verus! {

/// How many peers a round asks at most.
pub const ALPHA: usize = 3;

/// How many rounds a lookup runs at most.
pub const MAX_ROUNDS: u32 = 10;

/// `frontier` is, of the candidates that were not asked yet, the `alpha`
/// closest to `target` (all of them, where there are fewer), nearest first.
pub open spec fn next_frontier(
    frontier: Seq<PeerId>,
    cand: Seq<PeerId>,
    asked: Seq<PeerId>,
    target: PeerId,
    alpha: nat,
) -> bool {
    &&& sorted_by_distance(frontier, target)
    &&& frontier.len() <= alpha
    &&& forall|i: int| 0 <= i < frontier.len() ==> cand.contains(#[trigger] frontier[i]) && !asked.contains(frontier[i])
    &&& forall|i: int| 0 <= i < cand.len() && !asked.contains(#[trigger] cand[i]) ==> covers(frontier, cand[i], target, alpha)
}

#[derive(Debug)]
pub struct Lookup {
    target: PeerId,
    local: PeerId,
    k: usize,
    candidates: Vec<PeerId>,
    asked: Vec<PeerId>,
    failed: Vec<PeerId>,
    in_flight: Vec<PeerId>,
    round: u32,
    best_before: Option<PeerId>,
}

impl Lookup {
    pub closed spec fn target_id(&self) -> PeerId {
        self.target
    }

    pub closed spec fn local_id(&self) -> PeerId {
        self.local
    }

    /// The number of peers the lookup returns at most.
    pub closed spec fn width(&self) -> nat {
        self.k as nat
    }

    /// The closest peers known so far, nearest first.
    pub closed spec fn candidates(&self) -> Seq<PeerId> {
        self.candidates@
    }

    /// Every peer asked so far, in any round.
    pub closed spec fn asked(&self) -> Seq<PeerId> {
        self.asked@
    }

    /// The peers that did not answer.
    pub closed spec fn failed(&self) -> Seq<PeerId> {
        self.failed@
    }

    /// The peers asked in this round whose answer is still awaited.
    pub closed spec fn in_flight(&self) -> Seq<PeerId> {
        self.in_flight@
    }

    pub closed spec fn rounds(&self) -> nat {
        self.round as nat
    }

    /// The closest candidate when the current round began.
    pub closed spec fn best_before(&self) -> Option<PeerId> {
        self.best_before
    }

    /// The lookup's invariant: the candidates are sorted, at most `width`,
    /// never the local node nor a peer that failed; nobody is asked twice.
    pub open spec fn wf(&self) -> bool {
        &&& self.width() > 0
        &&& sorted_by_distance(self.candidates(), self.target_id())
        &&& self.candidates().len() <= self.width()
        &&& forall|i: int| 0 <= i < self.candidates().len() ==>
            #[trigger] self.candidates()[i] != self.local_id() && !self.failed().contains(self.candidates()[i])
        &&& distinct(self.asked())
        &&& distinct(self.in_flight())
        &&& forall|i: int| 0 <= i < self.in_flight().len() ==> self.asked().contains(#[trigger] self.in_flight()[i])
        &&& self.rounds() <= MAX_ROUNDS
    }

    /// A lookup of `target` for the node `local`, returning at most `k` peers,
    /// seeded with `seeds`: the closest peers known locally, nearest first.
    pub fn new(target: PeerId, local: PeerId, k: usize, seeds: Vec<PeerId>) -> (r: Lookup)
        requires
            k > 0,
            sorted_by_distance(seeds@, target),
            seeds@.len() <= k,
            forall|i: int| 0 <= i < seeds@.len() ==> #[trigger] seeds@[i] != local,
        ensures
            r.wf(),
            r.target_id() == target,
            r.local_id() == local,
            r.width() == k,
            r.candidates() == seeds@,
            r.asked().len() == 0,
            r.in_flight().len() == 0,
            r.failed().len() == 0,
            r.rounds() == 0,
            r.best_before() is None,
    {
        Lookup {
            target,
            local,
            k,
            candidates: seeds,
            asked: Vec::new(),
            failed: Vec::new(),
            in_flight: Vec::new(),
            round: 0,
            best_before: None,
        }
    }

    /// Begins the next round: picks the `ALPHA` closest candidates not asked
    /// yet, marks them asked and awaited, and returns them, nearest first. An
    /// empty result means that there is no round to run: the budget of rounds
    /// is spent, or every candidate was asked.
    pub fn start_round(&mut self) -> (frontier: Vec<PeerId>)
        requires
            old(self).wf(),
            old(self).in_flight().len() == 0,
        ensures
            final(self).wf(),
            final(self).target_id() == old(self).target_id(),
            final(self).local_id() == old(self).local_id(),
            final(self).width() == old(self).width(),
            final(self).candidates() == old(self).candidates(),
            final(self).failed() == old(self).failed(),
            old(self).rounds() >= MAX_ROUNDS ==> frontier@.len() == 0 && *final(self) == *old(self),
            old(self).rounds() < MAX_ROUNDS ==> {
                &&& next_frontier(frontier@, old(self).candidates(), old(self).asked(), old(self).target_id(), ALPHA as nat)
                &&& frontier@.len() == 0 ==> *final(self) == *old(self)
                &&& frontier@.len() > 0 ==> {
                    &&& final(self).asked() == old(self).asked() + frontier@
                    &&& final(self).in_flight() == frontier@
                    &&& final(self).rounds() == old(self).rounds() + 1
                    &&& final(self).best_before() == Some(old(self).candidates()[0])
                }
            },
    {
        if self.round >= MAX_ROUNDS {
            return Vec::new();
        }
        let ghost cand = self.candidates@;
        let ghost asked0 = self.asked@;
        let ghost t = self.target;
        let mut frontier: Vec<PeerId> = Vec::new();
        let mut i: usize = 0;
        while i < self.candidates.len() && frontier.len() < ALPHA
            invariant
                self.candidates@ == cand,
                self.asked@ == asked0,
                self.target == t,
                sorted_by_distance(cand, t),
                i <= cand.len(),
                frontier@.len() <= ALPHA,
                sorted_by_distance(frontier@, t),
                forall|j: int| 0 <= j < frontier@.len() ==> exists|m: int| 0 <= m < i && cand[m] == #[trigger] frontier@[j],
                forall|j: int| 0 <= j < frontier@.len() ==> !asked0.contains(#[trigger] frontier@[j]),
                forall|j: int| 0 <= j < i && !asked0.contains(#[trigger] cand[j]) ==> frontier@.contains(cand[j]),
            decreases cand.len() - i,
        {
            let c = self.candidates[i];
            if !contains_peer(&self.asked, &c) {
                let ghost before = frontier@;
                frontier.push(c);
                proof {
                    assert forall|a: int, b: int| 0 <= a < b < frontier@.len() implies
                        closer(#[trigger] frontier@[a], #[trigger] frontier@[b], t) by {
                        if b == before.len() {
                            assert(frontier@[a] == before[a]);
                            let m = choose|m: int| 0 <= m < i && cand[m] == before[a];
                            assert(closer(cand[m], cand[i as int], t));
                        } else {
                            assert(frontier@[a] == before[a] && frontier@[b] == before[b]);
                        }
                    }
                    assert forall|j: int| 0 <= j < frontier@.len() implies exists|m: int| 0 <= m < i + 1 && cand[m] == #[trigger] frontier@[j] by {
                        if j < before.len() {
                            assert(frontier@[j] == before[j]);
                        } else {
                            assert(cand[i as int] == frontier@[j]);
                        }
                    }
                    assert forall|j: int| 0 <= j < frontier@.len() implies !asked0.contains(#[trigger] frontier@[j]) by {
                        if j < before.len() {
                            assert(frontier@[j] == before[j]);
                        }
                    }
                    assert forall|j: int| 0 <= j < i + 1 && !asked0.contains(#[trigger] cand[j]) implies frontier@.contains(cand[j]) by {
                        if j < i {
                            let a = choose|a: int| 0 <= a < before.len() && before[a] == cand[j];
                            assert(frontier@[a] == cand[j]);
                        } else {
                            assert(frontier@[before.len() as int] == cand[j]);
                        }
                    }
                }
            }
            i += 1;
        }
        proof {
            assert forall|j: int| 0 <= j < cand.len() && !asked0.contains(#[trigger] cand[j]) implies
                covers(frontier@, cand[j], t, ALPHA as nat) by {
                if j >= i {
                    assert(frontier@.len() == ALPHA);
                    assert forall|a: int| 0 <= a < frontier@.len() implies closer(#[trigger] frontier@[a], cand[j], t) by {
                        let m = choose|m: int| 0 <= m < i && cand[m] == frontier@[a];
                        assert(closer(cand[m], cand[j], t));
                    }
                }
            }
            assert forall|j: int| 0 <= j < frontier@.len() implies cand.contains(#[trigger] frontier@[j]) by {
                let m = choose|m: int| 0 <= m < i && cand[m] == frontier@[j];
            }
        }
        if frontier.len() == 0 {
            return frontier;
        }
        let ghost in0 = self.in_flight@;
        let mut j: usize = 0;
        while j < frontier.len()
            invariant
                j <= frontier@.len(),
                self.asked@ == asked0 + frontier@.subrange(0, j as int),
                self.in_flight@ == frontier@.subrange(0, j as int),
                self.candidates@ == cand,
                self.target == t,
                self.local == old(self).local,
                self.k == old(self).k,
                self.failed == old(self).failed,
                self.round == old(self).round,
                self.best_before == old(self).best_before,
                distinct(asked0),
                sorted_by_distance(frontier@, t),
                forall|m: int| 0 <= m < frontier@.len() ==> !asked0.contains(#[trigger] frontier@[m]),
            decreases frontier@.len() - j,
        {
            self.asked.push(frontier[j]);
            self.in_flight.push(frontier[j]);
            proof {
                assert(frontier@.subrange(0, j as int + 1) =~= frontier@.subrange(0, j as int).push(frontier@[j as int]));
                assert(self.asked@ =~= asked0 + frontier@.subrange(0, j as int + 1));
            }
            j += 1;
        }
        assert(cand.contains(frontier@[0]));
        self.round = self.round + 1;
        self.best_before = Some(self.candidates[0]);
        proof {
            assert(frontier@.subrange(0, frontier@.len() as int) =~= frontier@);
            let a = self.asked@;
            assert forall|x: int, y: int| 0 <= x < a.len() && 0 <= y < a.len() && x != y implies a[x] != a[y] by {
                if x >= asked0.len() && y >= asked0.len() {
                    crate::closest::lemma_sorted_distinct(frontier@, t, x - asked0.len(), y - asked0.len());
                } else if x >= asked0.len() {
                    assert(!asked0.contains(frontier@[x - asked0.len()]));
                    assert(a[y] == asked0[y]);
                } else if y >= asked0.len() {
                    assert(!asked0.contains(frontier@[y - asked0.len()]));
                    assert(a[x] == asked0[x]);
                }
            }
            assert forall|x: int, y: int| 0 <= x < frontier@.len() && 0 <= y < frontier@.len() && x != y implies
                frontier@[x] != frontier@[y] by {
                crate::closest::lemma_sorted_distinct(frontier@, t, x, y);
            }
            assert forall|x: int| 0 <= x < self.in_flight@.len() implies a.contains(#[trigger] self.in_flight@[x]) by {
                assert(a[asked0.len() + x] == frontier@[x]);
            }
        }
        frontier
    }
}

impl Lookup {
    /// The current round's best candidate is strictly closer to the target
    /// than the best one when the round began (always so before any round).
    pub open spec fn improved(&self) -> bool {
        match self.best_before() {
            None => true,
            Some(b) => self.candidates().len() > 0 && closer(self.candidates()[0], b, self.target_id()),
        }
    }

    /// Takes in the answer of `from`: the peers it knows closest to the
    /// target. Answers of peers not awaited are ignored; otherwise every
    /// offered peer but the local node and those that failed competes for a
    /// place among the candidates. Returns whether the answer was awaited.
    pub fn on_response(&mut self, from: &PeerId, peers: &Vec<PeerId>) -> (r: bool)
        requires
            old(self).wf(),
        ensures
            final(self).wf(),
            final(self).target_id() == old(self).target_id(),
            final(self).local_id() == old(self).local_id(),
            final(self).width() == old(self).width(),
            final(self).asked() == old(self).asked(),
            final(self).failed() == old(self).failed(),
            final(self).rounds() == old(self).rounds(),
            final(self).best_before() == old(self).best_before(),
            r == old(self).in_flight().contains(*from),
            !r ==> *final(self) == *old(self),
            r ==> {
                &&& !final(self).in_flight().contains(*from)
                &&& forall|x: PeerId| x != *from ==>
                    (old(self).in_flight().contains(x) <==> #[trigger] final(self).in_flight().contains(x))
                &&& forall|i: int| 0 <= i < final(self).candidates().len() ==>
                    old(self).candidates().contains(#[trigger] final(self).candidates()[i])
                    || peers@.contains(final(self).candidates()[i])
                &&& forall|x: PeerId| covers(old(self).candidates(), x, old(self).target_id(), old(self).width()) ==>
                    #[trigger] covers(final(self).candidates(), x, old(self).target_id(), old(self).width())
                &&& forall|i: int| 0 <= i < peers@.len() && #[trigger] peers@[i] != old(self).local_id()
                    && !old(self).failed().contains(peers@[i]) ==>
                    covers(final(self).candidates(), peers@[i], old(self).target_id(), old(self).width())
            },
    {
        if !contains_peer(&self.in_flight, from) {
            return false;
        }
        remove_peer(&mut self.in_flight, from);
        let ghost c0 = self.candidates@;
        let mut i: usize = 0;
        while i < peers.len()
            invariant
                self.wf(),
                self.target == old(self).target,
                self.local == old(self).local,
                self.k == old(self).k,
                self.asked == old(self).asked,
                self.failed == old(self).failed,
                self.round == old(self).round,
                self.best_before == old(self).best_before,
                self.in_flight@.len() <= old(self).in_flight@.len(),
                !self.in_flight@.contains(*from),
                forall|x: PeerId| x != *from ==>
                    (old(self).in_flight@.contains(x) <==> #[trigger] self.in_flight@.contains(x)),
                c0 == old(self).candidates@,
                i <= peers@.len(),
                forall|j: int| 0 <= j < self.candidates@.len() ==>
                    c0.contains(#[trigger] self.candidates@[j]) || peers@.contains(self.candidates@[j]),
                forall|x: PeerId| covers(c0, x, self.target, self.k as nat) ==>
                    #[trigger] covers(self.candidates@, x, self.target, self.k as nat),
                forall|j: int| 0 <= j < i && #[trigger] peers@[j] != self.local && !self.failed@.contains(peers@[j]) ==>
                    covers(self.candidates@, peers@[j], self.target, self.k as nat),
            decreases peers@.len() - i,
        {
            let p = peers[i];
            if !p.same_as(&self.local) && !contains_peer(&self.failed, &p) {
                let ghost before = self.candidates@;
                insert_closest(&mut self.candidates, p, &self.target, self.k);
                proof {
                    let now = self.candidates@;
                    assert forall|j: int| 0 <= j < i + 1 && #[trigger] peers@[j] != self.local && !self.failed@.contains(peers@[j]) implies
                        covers(now, peers@[j], self.target, self.k as nat) by {
                        if j < i {
                            assert(covers(before, peers@[j], self.target, self.k as nat));
                        }
                    }
                    assert forall|j: int| 0 <= j < now.len() implies
                        c0.contains(#[trigger] now[j]) || peers@.contains(now[j]) by {
                        if now[j] == p {
                            assert(peers@[i as int] == p);
                        } else {
                            let m = choose|m: int| 0 <= m < before.len() && before[m] == now[j];
                            assert(c0.contains(before[m]) || peers@.contains(before[m]));
                        }
                    }
                    assert forall|x: PeerId| covers(c0, x, self.target, self.k as nat) implies
                        #[trigger] covers(now, x, self.target, self.k as nat) by {
                        assert(covers(before, x, self.target, self.k as nat));
                    }
                    assert forall|j: int| 0 <= j < now.len() implies
                        #[trigger] now[j] != self.local && !self.failed@.contains(now[j]) by {
                        if now[j] != p {
                            let m = choose|m: int| 0 <= m < before.len() && before[m] == now[j];
                            assert(before[m] != self.local && !self.failed@.contains(before[m]));
                        }
                    }
                    assert forall|j: int| 0 <= j < self.in_flight@.len() implies
                        self.asked@.contains(#[trigger] self.in_flight@[j]) by {
                        assert(self.in_flight@.contains(self.in_flight@[j]));
                        assert(old(self).in_flight@.contains(self.in_flight@[j]));
                        let m = choose|m: int| 0 <= m < old(self).in_flight@.len() && old(self).in_flight@[m] == self.in_flight@[j];
                        assert(old(self).asked@.contains(old(self).in_flight@[m]));
                    }
                }
            }
            i += 1;
        }
        true
    }

    /// Records that `from` did not answer: it leaves the round, the
    /// candidates, and any later round. Returns whether it was awaited.
    pub fn on_failure(&mut self, from: &PeerId) -> (r: bool)
        requires
            old(self).wf(),
        ensures
            final(self).wf(),
            final(self).target_id() == old(self).target_id(),
            final(self).local_id() == old(self).local_id(),
            final(self).width() == old(self).width(),
            final(self).asked() == old(self).asked(),
            final(self).rounds() == old(self).rounds(),
            final(self).best_before() == old(self).best_before(),
            r == old(self).in_flight().contains(*from),
            !r ==> *final(self) == *old(self),
            r ==> {
                &&& !final(self).in_flight().contains(*from)
                &&& forall|x: PeerId| x != *from ==>
                    (old(self).in_flight().contains(x) <==> #[trigger] final(self).in_flight().contains(x))
                &&& final(self).failed() == old(self).failed().push(*from)
                &&& !final(self).candidates().contains(*from)
                &&& forall|x: PeerId| x != *from ==>
                    (old(self).candidates().contains(x) <==> #[trigger] final(self).candidates().contains(x))
            },
    {
        if !contains_peer(&self.in_flight, from) {
            return false;
        }
        let ghost t = self.target;
        remove_peer(&mut self.in_flight, from);
        proof {
            crate::closest::lemma_sorted_distinct_all(self.candidates@, t);
        }
        remove_peer(&mut self.candidates, from);
        assert(sorted_by_distance(self.candidates@, t));
        self.failed.push(*from);
        proof {
            let c = self.candidates@;
            assert forall|j: int| 0 <= j < c.len() implies
                #[trigger] c[j] != self.local && !self.failed@.contains(c[j]) by {
                assert(old(self).candidates@.contains(c[j]));
                let m = choose|m: int| 0 <= m < old(self).candidates@.len() && old(self).candidates@[m] == c[j];
                assert(old(self).candidates@[m] != self.local && !old(self).failed@.contains(old(self).candidates@[m]));
                if self.failed@.contains(c[j]) {
                    let q = choose|q: int| 0 <= q < self.failed@.len() && self.failed@[q] == c[j];
                    if q < old(self).failed@.len() {
                        assert(old(self).failed@[q] == c[j]);
                    }
                }
            }
            assert forall|j: int| 0 <= j < self.in_flight@.len() implies
                self.asked@.contains(#[trigger] self.in_flight@[j]) by {
                assert(old(self).in_flight@.contains(self.in_flight@[j]));
                let m = choose|m: int| 0 <= m < old(self).in_flight@.len() && old(self).in_flight@[m] == self.in_flight@[j];
                assert(old(self).asked@.contains(old(self).in_flight@[m]));
            }
        }
        true
    }

    /// Whether every peer asked in this round has answered or failed.
    pub fn round_over(&self) -> (r: bool)
        ensures
            r == (self.in_flight().len() == 0),
    {
        self.in_flight.len() == 0
    }

    /// Whether another round is worth running: the budget is not spent and the
    /// last round brought a peer closer than the best one known before it.
    pub fn should_continue(&self) -> (r: bool)
        requires
            self.wf(),
        ensures
            r == (self.rounds() < MAX_ROUNDS && self.improved()),
    {
        if self.round >= MAX_ROUNDS {
            return false;
        }
        match self.best_before {
            None => true,
            Some(b) => {
                if self.candidates.len() == 0 {
                    false
                } else {
                    compare_distance(&self.candidates[0], &b, &self.target) == Order::Less
                }
            },
        }
    }

    /// The closest peers found, nearest first.
    pub fn result(&self) -> (r: Vec<PeerId>)
        requires
            self.wf(),
        ensures
            r@ == self.candidates(),
            sorted_by_distance(r@, self.target_id()),
            r@.len() <= self.width(),
    {
        let mut out: Vec<PeerId> = Vec::new();
        let mut i: usize = 0;
        while i < self.candidates.len()
            invariant
                i <= self.candidates@.len(),
                out@ == self.candidates@.subrange(0, i as int),
            decreases self.candidates@.len() - i,
        {
            out.push(self.candidates[i]);
            proof {
                assert(self.candidates@.subrange(0, i as int + 1) =~= self.candidates@.subrange(0, i as int).push(self.candidates@[i as int]));
            }
            i += 1;
        }
        assert(self.candidates@.subrange(0, self.candidates@.len() as int) =~= self.candidates@);
        out
    }

    /// The target of the lookup.
    pub fn target(&self) -> (r: PeerId)
        ensures
            r == self.target_id(),
    {
        self.target
    }
}

/// A find-suppliers query: the local suppliers first, then what the asked
/// peers answer, each supplier once.
#[derive(Debug)]
pub struct SupplierSearch {
    pending: Vec<PeerId>,
    found: Vec<SupplierInfo>,
}

impl SupplierSearch {
    /// The peers whose answer is awaited.
    pub closed spec fn pending(&self) -> Seq<PeerId> {
        self.pending@
    }

    /// The suppliers found so far.
    pub closed spec fn found(&self) -> Seq<SupplierInfo> {
        self.found@
    }

    /// A search that starts from the locally registered suppliers `local` and
    /// asks `peers`.
    pub fn new(local: Vec<SupplierInfo>, peers: Vec<PeerId>) -> (r: SupplierSearch)
        ensures
            r.found() == local@,
            r.pending() == peers@,
    {
        SupplierSearch { pending: peers, found: local }
    }

    /// Takes in the suppliers that `from` knows. An answer that is not
    /// awaited is ignored; otherwise each supplier not found yet is added.
    pub fn on_reply(&mut self, from: &PeerId, suppliers: &Vec<SupplierInfo>) -> (r: bool)
        ensures
            r == old(self).pending().contains(*from),
            !r ==> *final(self) == *old(self),
            r ==> {
                &&& forall|x: PeerId| x != *from ==>
                    (old(self).pending().contains(x) <==> #[trigger] final(self).pending().contains(x))
                &&& final(self).found().subrange(0, old(self).found().len() as int) == old(self).found()
                &&& forall|i: int| 0 <= i < suppliers@.len() ==> holds_supplier(final(self).found(), #[trigger] suppliers@[i])
                &&& forall|j: int| old(self).found().len() <= j < final(self).found().len() ==>
                    suppliers@.contains(#[trigger] final(self).found()[j])
            },
            distinct(old(self).pending()) && r ==> distinct(final(self).pending()) && !final(self).pending().contains(*from),
    {
        if !contains_peer(&self.pending, from) {
            return false;
        }
        remove_peer(&mut self.pending, from);
        merge_suppliers(&mut self.found, suppliers);
        true
    }

    /// Records that `from` did not answer.
    pub fn on_failure(&mut self, from: &PeerId) -> (r: bool)
        ensures
            r == old(self).pending().contains(*from),
            final(self).found() == old(self).found(),
            forall|x: PeerId| x != *from ==>
                (old(self).pending().contains(x) <==> #[trigger] final(self).pending().contains(x)),
            distinct(old(self).pending()) ==> distinct(final(self).pending()) && !final(self).pending().contains(*from),
    {
        let r = contains_peer(&self.pending, from);
        remove_peer(&mut self.pending, from);
        r
    }

    /// Whether no answer is awaited any more.
    pub fn is_done(&self) -> (r: bool)
        ensures
            r == (self.pending().len() == 0),
    {
        self.pending.len() == 0
    }

    /// Ends the search and hands out the suppliers found.
    pub fn into_found(self) -> (r: Vec<SupplierInfo>)
        ensures
            r@ == self.found(),
    {
        self.found
    }
}

} // verus!
