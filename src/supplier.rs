//! The supplier registry: who offers which content, at what price, until when.
use vstd::prelude::*;
use crate::id::ContentKey;

verus! {

/// A supplier of some content: where to fetch it, its price per unit, and the
/// name it goes by.
#[derive(Clone, Debug)]
pub struct SupplierInfo {
    pub ip: [u8; 4],
    pub port: u16,
    pub price: u64,
    pub username: String,
}

/// Two supplier descriptions are of the same supplier when they name the same
/// host and port.
pub open spec fn same_supplier(a: SupplierInfo, b: SupplierInfo) -> bool {
    a.ip@ == b.ip@ && a.port == b.port
}

impl SupplierInfo {
    pub fn new(ip: [u8; 4], port: u16, price: u64, username: String) -> (r: SupplierInfo)
        ensures
            r == (SupplierInfo { ip, port, price, username }),
    {
        SupplierInfo { ip, port, price, username }
    }

    /// A copy of the description.
    pub fn duplicate(&self) -> (r: SupplierInfo)
        ensures
            r == *self,
    {
        SupplierInfo { ip: self.ip, port: self.port, price: self.price, username: self.username.clone() }
    }

    /// Whether `self` and `other` describe the same supplier.
    pub fn same_supplier_as(&self, other: &SupplierInfo) -> (r: bool)
        ensures
            r == same_supplier(*self, *other),
    {
        let r = self.ip[0] == other.ip[0] && self.ip[1] == other.ip[1] && self.ip[2] == other.ip[2]
            && self.ip[3] == other.ip[3] && self.port == other.port;
        proof {
            if r {
                assert(self.ip@ =~= other.ip@);
            }
        }
        r
    }
}

/// A registration: `info` supplies the content `key` until `expires_at`.
#[derive(Clone, Debug)]
pub struct SupplierRecord {
    pub key: ContentKey,
    pub info: SupplierInfo,
    pub expires_at: u64,
}

/// The moment that lies `ttl` after `now`, saturating at the largest time.
pub open spec fn expiry(now: u64, ttl: u64) -> u64 {
    if now + ttl > u64::MAX { u64::MAX } else { (now + ttl) as u64 }
}

/// The registration that replaces or extends `s` when `info` registers for
/// `key` until `exp`: a record of the same supplier for the same key is
/// refreshed in place, otherwise a new record is appended.
pub open spec fn after_register(s: Seq<SupplierRecord>, key: ContentKey, info: SupplierInfo, exp: u64) -> Seq<SupplierRecord> {
    let rec = SupplierRecord { key, info, expires_at: exp };
    if exists|i: int| 0 <= i < s.len() && #[trigger] s[i].key == key && same_supplier(s[i].info, info) {
        let i = choose|i: int| 0 <= i < s.len() && #[trigger] s[i].key == key && same_supplier(s[i].info, info);
        s.update(i, rec)
    } else {
        s.push(rec)
    }
}

/// The suppliers of `key` whose registration is still running at `now`, in
/// order of first registration.
pub open spec fn live_for(s: Seq<SupplierRecord>, key: ContentKey, now: u64) -> Seq<SupplierInfo>
    decreases s.len(),
{
    if s.len() == 0 {
        Seq::empty()
    } else {
        let prev = live_for(s.drop_last(), key, now);
        let r = s.last();
        if r.key == key && r.expires_at > now {
            prev.push(r.info)
        } else {
            prev
        }
    }
}

/// No supplier is registered twice for one key.
pub open spec fn unique_suppliers(s: Seq<SupplierRecord>) -> bool {
    forall|i: int, j: int| 0 <= i < s.len() && 0 <= j < s.len() && i != j && (#[trigger] s[i]).key == (#[trigger] s[j]).key
        ==> !same_supplier(s[i].info, s[j].info)
}

#[derive(Debug)]
pub struct SupplierRegistry {
    records: Vec<SupplierRecord>,
}

impl View for SupplierRegistry {
    type V = Seq<SupplierRecord>;

    closed spec fn view(&self) -> Seq<SupplierRecord> {
        self.records@
    }
}

impl SupplierRegistry {
    pub open spec fn wf(&self) -> bool {
        unique_suppliers(self@)
    }

    pub fn new() -> (r: SupplierRegistry)
        ensures
            r.wf(),
            r@ == Seq::<SupplierRecord>::empty(),
    {
        SupplierRegistry { records: Vec::new() }
    }

    /// Registers `info` as a supplier of `key` for `ttl` from `now`, and hands
    /// the key back.
    pub fn register(&mut self, key: ContentKey, info: SupplierInfo, ttl: u64, now: u64) -> (r: ContentKey)
        requires
            old(self).wf(),
        ensures
            final(self).wf(),
            r == key,
            final(self)@ == after_register(old(self)@, key, info, expiry(now, ttl)),
    {
        let exp: u64 = now.saturating_add(ttl);
        let ghost s = self@;
        let mut i: usize = 0;
        while i < self.records.len()
            invariant
                self@ == s,
                s == old(self)@,
                exp == expiry(now, ttl),
                unique_suppliers(s),
                i <= s.len(),
                forall|j: int| 0 <= j < i ==> !((#[trigger] s[j]).key == key && same_supplier(s[j].info, info)),
            decreases s.len() - i,
        {
            if self.records[i].key.same_as(&key) && self.records[i].info.same_supplier_as(&info) {
                let rec = SupplierRecord { key, info, expires_at: exp };
                self.records.set(i, rec);
                proof {
                    assert(s[i as int].key == key && same_supplier(s[i as int].info, info));
                    assert(exists|w: int| 0 <= w < s.len() && #[trigger] s[w].key == key && same_supplier(s[w].info, info));
                    let w = choose|w: int| 0 <= w < s.len() && #[trigger] s[w].key == key && same_supplier(s[w].info, info);
                    if w != i {
                        assert(s[w].key == s[i as int].key);
                    }
                    assert(self@ == s.update(i as int, rec));
                    assert(w == i);
                    assert(after_register(s, key, info, exp) == s.update(w, rec));
                    assert forall|a: int, b: int| 0 <= a < self@.len() && 0 <= b < self@.len() && a != b
                        && (#[trigger] self@[a]).key == (#[trigger] self@[b]).key
                        implies !same_supplier(self@[a].info, self@[b].info) by {
                        if a == i {
                            assert(s[b].key == s[i as int].key);
                        } else if b == i {
                            assert(s[a].key == s[i as int].key);
                        }
                    }
                }
                return key;
            }
            i += 1;
        }
        let rec = SupplierRecord { key, info, expires_at: exp };
        self.records.push(rec);
        proof {
            assert(self@ == s.push(rec));
            assert forall|a: int, b: int| 0 <= a < self@.len() && 0 <= b < self@.len() && a != b
                && (#[trigger] self@[a]).key == (#[trigger] self@[b]).key
                implies !same_supplier(self@[a].info, self@[b].info) by {
                if a == s.len() {
                    assert(!(s[b].key == key && same_supplier(s[b].info, info)));
                } else if b == s.len() {
                    assert(!(s[a].key == key && same_supplier(s[a].info, info)));
                }
            }
        }
        key
    }

    /// The suppliers of `key` whose registration is still running at `now`.
    pub fn suppliers_for(&self, key: &ContentKey, now: u64) -> (r: Vec<SupplierInfo>)
        ensures
            r@ == live_for(self@, *key, now),
    {
        let ghost s = self@;
        let mut out: Vec<SupplierInfo> = Vec::new();
        let mut i: usize = 0;
        while i < self.records.len()
            invariant
                self@ == s,
                i <= s.len(),
                out@ == live_for(s.subrange(0, i as int), *key, now),
            decreases s.len() - i,
        {
            proof {
                assert(s.subrange(0, i as int + 1).drop_last() =~= s.subrange(0, i as int));
            }
            let rec = &self.records[i];
            if rec.key.same_as(key) && rec.expires_at > now {
                out.push(rec.info.duplicate());
            }
            i += 1;
        }
        assert(s.subrange(0, s.len() as int) =~= s);
        out
    }

    /// Drops the registrations that have run out at `now`.
    pub fn evict_expired(&mut self, now: u64)
        requires
            old(self).wf(),
        ensures
            final(self).wf(),
            forall|k: ContentKey| #[trigger] live_for(final(self)@, k, now) == live_for(old(self)@, k, now),
            forall|i: int| 0 <= i < final(self)@.len() ==> (#[trigger] final(self)@[i]).expires_at > now,
    {
        let ghost s = self@;
        let mut old_records: Vec<SupplierRecord> = Vec::new();
        std::mem::swap(&mut self.records, &mut old_records);
        assert(old_records@ == s);
        let mut kept: Vec<SupplierRecord> = Vec::new();
        let mut i: usize = 0;
        while i < old_records.len()
            invariant
                old_records@ == s,
                unique_suppliers(s),
                i <= s.len(),
                forall|k: ContentKey| #[trigger] live_for(kept@, k, now) == live_for(s.subrange(0, i as int), k, now),
                forall|j: int| 0 <= j < kept@.len() ==> (#[trigger] kept@[j]).expires_at > now,
                forall|j: int| 0 <= j < kept@.len() ==> exists|m: int| 0 <= m < i && s[m] == #[trigger] kept@[j],
                unique_suppliers(kept@),
            decreases s.len() - i,
        {
            let rec = &old_records[i];
            let ghost before = kept@;
            proof {
                assert(s.subrange(0, i as int + 1).drop_last() =~= s.subrange(0, i as int));
            }
            if rec.expires_at > now {
                kept.push(SupplierRecord { key: rec.key, info: rec.info.duplicate(), expires_at: rec.expires_at });
                proof {
                    assert(kept@.last() == s[i as int]);
                    assert forall|k: ContentKey| #[trigger] live_for(kept@, k, now) == live_for(s.subrange(0, i as int + 1), k, now) by {
                        assert(kept@.drop_last() =~= before);
                        assert(live_for(before, k, now) == live_for(s.subrange(0, i as int), k, now));
                    }
                    assert(kept@.drop_last() =~= before);
                    assert forall|j: int| 0 <= j < kept@.len() implies exists|m: int| 0 <= m < i + 1 && s[m] == #[trigger] kept@[j] by {
                        if j < before.len() {
                            assert(kept@[j] == before[j]);
                        } else {
                            assert(s[i as int] == kept@[j]);
                        }
                    }
                    assert forall|a: int, b: int| 0 <= a < kept@.len() && 0 <= b < kept@.len() && a != b
                        && (#[trigger] kept@[a]).key == (#[trigger] kept@[b]).key
                        implies !same_supplier(kept@[a].info, kept@[b].info) by {
                        if a == before.len() {
                            assert(kept@[b] == before[b]);
                            let m = choose|m: int| 0 <= m < i && s[m] == before[b];
                            assert(s[m] == kept@[b]);
                        } else if b == before.len() {
                            assert(kept@[a] == before[a]);
                            let m = choose|m: int| 0 <= m < i && s[m] == before[a];
                            assert(s[m] == kept@[a]);
                        } else {
                            assert(kept@[a] == before[a]);
                            assert(kept@[b] == before[b]);
                        }
                    }
                }
            } else {
                proof {
                    assert forall|k: ContentKey| #[trigger] live_for(kept@, k, now) == live_for(s.subrange(0, i as int + 1), k, now) by {
                        assert(live_for(before, k, now) == live_for(s.subrange(0, i as int), k, now));
                    }
                }
            }
            i += 1;
        }
        assert(s.subrange(0, s.len() as int) =~= s);
        self.records = kept;
    }
}

/// Registering `info` for `key` in a registry where nobody supplies `key` at
/// `now` makes `info` its one supplier, as long as the registration runs past
/// `now`; registering again as the same supplier refreshes the record and
/// adds none.
pub proof fn lemma_register_then_lookup(
    s: Seq<SupplierRecord>,
    key: ContentKey,
    info: SupplierInfo,
    again: SupplierInfo,
    now: u64,
    exp: u64,
    exp2: u64,
)
    requires
        unique_suppliers(s),
        live_for(s, key, now).len() == 0,
        exp > now,
        exp2 > now,
        same_supplier(info, again),
    ensures
        live_for(after_register(s, key, info, exp), key, now) == seq![info],
        after_register(after_register(s, key, info, exp), key, again, exp2).len()
            == after_register(s, key, info, exp).len(),
        live_for(after_register(after_register(s, key, info, exp), key, again, exp2), key, now) == seq![again],
{
    lemma_register_live(s, key, info, now, exp);
    let s1 = after_register(s, key, info, exp);
    let rec = SupplierRecord { key, info, expires_at: exp };
    let k = if exists|i: int| 0 <= i < s.len() && #[trigger] s[i].key == key && same_supplier(s[i].info, info) {
        choose|i: int| 0 <= i < s.len() && #[trigger] s[i].key == key && same_supplier(s[i].info, info)
    } else {
        s.len() as int
    };
    assert(s1[k] == rec);
    assert(s1[k].key == key && same_supplier(s1[k].info, again));
    lemma_after_register_unique(s, key, info, exp);
    lemma_live_empty(s, key, now);
    assert forall|j: int| 0 <= j < s1.len() && j != k && (#[trigger] s1[j]).key == key implies s1[j].expires_at <= now by {
        assert(s1[j] == s[j]);
    }
    lemma_live_single(s1, key, now, k);
    lemma_register_live_replace(s1, key, again, now, exp2, k);
}

/// In a registry without duplicates, `k` holds the only live record for `key`.
proof fn lemma_live_single(s: Seq<SupplierRecord>, key: ContentKey, now: u64, k: int)
    requires
        0 <= k < s.len(),
        s[k].key == key,
        s[k].expires_at > now,
        forall|j: int| 0 <= j < s.len() && j != k && (#[trigger] s[j]).key == key ==> s[j].expires_at <= now,
    ensures
        live_for(s, key, now) == seq![s[k].info],
    decreases s.len(),
{
    if s.len() - 1 == k {
        lemma_live_none(s.drop_last(), key, now);
    } else {
        let t = s.drop_last();
        assert forall|j: int| 0 <= j < t.len() && j != k && (#[trigger] t[j]).key == key implies t[j].expires_at <= now by {
            assert(t[j] == s[j]);
        }
        lemma_live_single(t, key, now, k);
    }
}

proof fn lemma_live_none(s: Seq<SupplierRecord>, key: ContentKey, now: u64)
    requires
        forall|j: int| 0 <= j < s.len() && (#[trigger] s[j]).key == key ==> s[j].expires_at <= now,
    ensures
        live_for(s, key, now) == Seq::<SupplierInfo>::empty(),
    decreases s.len(),
{
    if s.len() > 0 {
        let t = s.drop_last();
        assert forall|j: int| 0 <= j < t.len() && (#[trigger] t[j]).key == key implies t[j].expires_at <= now by {
            assert(t[j] == s[j]);
        }
        lemma_live_none(t, key, now);
    }
}

/// No live record for `key` means every record for `key` has run out.
proof fn lemma_live_empty(s: Seq<SupplierRecord>, key: ContentKey, now: u64)
    requires
        live_for(s, key, now).len() == 0,
    ensures
        forall|j: int| 0 <= j < s.len() && (#[trigger] s[j]).key == key ==> s[j].expires_at <= now,
    decreases s.len(),
{
    if s.len() > 0 {
        let t = s.drop_last();
        lemma_live_len(t, key, now);
        lemma_live_empty(t, key, now);
        assert forall|j: int| 0 <= j < s.len() && (#[trigger] s[j]).key == key implies s[j].expires_at <= now by {
            if j < t.len() {
                assert(t[j] == s[j]);
            }
        }
    }
}

proof fn lemma_live_len(s: Seq<SupplierRecord>, key: ContentKey, now: u64)
    ensures
        live_for(s, key, now).len() <= s.len(),
    decreases s.len(),
{
    if s.len() > 0 {
        lemma_live_len(s.drop_last(), key, now);
    }
}

proof fn lemma_register_live(s: Seq<SupplierRecord>, key: ContentKey, info: SupplierInfo, now: u64, exp: u64)
    requires
        live_for(s, key, now).len() == 0,
        exp > now,
    ensures
        live_for(after_register(s, key, info, exp), key, now) == seq![info],
{
    lemma_live_empty(s, key, now);
    let s1 = after_register(s, key, info, exp);
    let rec = SupplierRecord { key, info, expires_at: exp };
    if exists|i: int| 0 <= i < s.len() && #[trigger] s[i].key == key && same_supplier(s[i].info, info) {
        let k = choose|i: int| 0 <= i < s.len() && #[trigger] s[i].key == key && same_supplier(s[i].info, info);
        assert(s1 == s.update(k, rec));
        assert forall|j: int| 0 <= j < s1.len() && j != k && (#[trigger] s1[j]).key == key implies s1[j].expires_at <= now by {
            assert(s1[j] == s[j]);
        }
        lemma_live_single(s1, key, now, k);
    } else {
        let k = s.len() as int;
        assert(s1 == s.push(rec));
        assert forall|j: int| 0 <= j < s1.len() && j != k && (#[trigger] s1[j]).key == key implies s1[j].expires_at <= now by {
            assert(s1[j] == s[j]);
        }
        lemma_live_single(s1, key, now, k);
    }
}

/// Registering as the supplier already recorded at `k`, the only live one,
/// refreshes that record in place.
proof fn lemma_register_live_replace(s: Seq<SupplierRecord>, key: ContentKey, info: SupplierInfo, now: u64, exp: u64, k: int)
    requires
        unique_suppliers(s),
        0 <= k < s.len(),
        s[k].key == key,
        same_supplier(s[k].info, info),
        exp > now,
        forall|j: int| 0 <= j < s.len() && j != k && (#[trigger] s[j]).key == key ==> s[j].expires_at <= now,
    ensures
        after_register(s, key, info, exp).len() == s.len(),
        live_for(after_register(s, key, info, exp), key, now) == seq![info],
{
    let rec = SupplierRecord { key, info, expires_at: exp };
    let w = choose|i: int| 0 <= i < s.len() && #[trigger] s[i].key == key && same_supplier(s[i].info, info);
    if w != k {
        assert(s[w].key == s[k].key);
    }
    let s1 = after_register(s, key, info, exp);
    assert(s1 == s.update(k, rec));
    assert forall|j: int| 0 <= j < s1.len() && j != k && (#[trigger] s1[j]).key == key implies s1[j].expires_at <= now by {
        assert(s1[j] == s[j]);
    }
    lemma_live_single(s1, key, now, k);
}

proof fn lemma_after_register_unique(s: Seq<SupplierRecord>, key: ContentKey, info: SupplierInfo, exp: u64)
    requires
        unique_suppliers(s),
    ensures
        unique_suppliers(after_register(s, key, info, exp)),
{
    let s1 = after_register(s, key, info, exp);
    let rec = SupplierRecord { key, info, expires_at: exp };
    if exists|i: int| 0 <= i < s.len() && #[trigger] s[i].key == key && same_supplier(s[i].info, info) {
        let k = choose|i: int| 0 <= i < s.len() && #[trigger] s[i].key == key && same_supplier(s[i].info, info);
        assert forall|a: int, b: int| 0 <= a < s1.len() && 0 <= b < s1.len() && a != b
            && (#[trigger] s1[a]).key == (#[trigger] s1[b]).key
            implies !same_supplier(s1[a].info, s1[b].info) by {
            if a == k {
                assert(s[b].key == s[k].key);
            } else if b == k {
                assert(s[a].key == s[k].key);
            }
        }
    } else {
        assert forall|a: int, b: int| 0 <= a < s1.len() && 0 <= b < s1.len() && a != b
            && (#[trigger] s1[a]).key == (#[trigger] s1[b]).key
            implies !same_supplier(s1[a].info, s1[b].info) by {
            if a == s.len() {
                assert(s1[b] == s[b]);
            } else if b == s.len() {
                assert(s1[a] == s[a]);
            }
        }
    }
}

/// Some description in `acc` is of the same supplier as `x`.
pub open spec fn holds_supplier(acc: Seq<SupplierInfo>, x: SupplierInfo) -> bool {
    exists|j: int| 0 <= j < acc.len() && same_supplier(x, #[trigger] acc[j])
}

/// Adds to `acc` each supplier of `incoming` that `acc` does not hold yet.
pub fn merge_suppliers(acc: &mut Vec<SupplierInfo>, incoming: &Vec<SupplierInfo>)
    ensures
        final(acc)@.len() >= old(acc)@.len(),
        final(acc)@.subrange(0, old(acc)@.len() as int) == old(acc)@,
        forall|i: int| 0 <= i < incoming@.len() ==> holds_supplier(final(acc)@, #[trigger] incoming@[i]),
        forall|j: int| old(acc)@.len() <= j < final(acc)@.len() ==>
            incoming@.contains(#[trigger] final(acc)@[j]),
        forall|m: int, j: int| 0 <= m < j && old(acc)@.len() <= j < final(acc)@.len() ==>
            !same_supplier(#[trigger] final(acc)@[m], #[trigger] final(acc)@[j]),
{
    let ghost a0 = acc@;
    let mut i: usize = 0;
    while i < incoming.len()
        invariant
            a0 == old(acc)@,
            i <= incoming@.len(),
            acc@.len() >= a0.len(),
            acc@.subrange(0, a0.len() as int) == a0,
            forall|k: int| 0 <= k < i ==> holds_supplier(acc@, #[trigger] incoming@[k]),
            forall|j: int| a0.len() <= j < acc@.len() ==> incoming@.contains(#[trigger] acc@[j]),
            forall|m: int, j: int| 0 <= m < j && a0.len() <= j < acc@.len() ==>
                !same_supplier(#[trigger] acc@[m], #[trigger] acc@[j]),
        decreases incoming@.len() - i,
    {
        let ghost before = acc@;
        let mut j: usize = 0;
        let mut found = false;
        while j < acc.len() && !found
            invariant
                acc@ == before,
                j <= before.len(),
                found ==> j < before.len() && same_supplier(incoming@[i as int], before[j as int]),
                !found ==> forall|m: int| 0 <= m < j ==> !same_supplier(#[trigger] before[m], incoming@[i as int]),
                i < incoming@.len(),
            decreases before.len() - j + (if found { 0int } else { 1int }),
        {
            if acc[j].same_supplier_as(&incoming[i]) {
                found = true;
            } else {
                j += 1;
            }
        }
        assert(!found ==> j == before.len());
        if !found {
            acc.push(incoming[i].duplicate());
            proof {
                assert(acc@.subrange(0, a0.len() as int) =~= before.subrange(0, a0.len() as int));
                assert forall|k: int| 0 <= k <= i implies holds_supplier(acc@, #[trigger] incoming@[k]) by {
                    if k < i {
                        let q = choose|q: int| 0 <= q < before.len() && same_supplier(incoming@[k], before[q]);
                        assert(acc@[q] == before[q]);
                    } else {
                        assert(acc@[before.len() as int] == incoming@[i as int]);
                        assert(incoming@[i as int].ip@ == acc@[before.len() as int].ip@);
                    }
                }
                assert forall|q: int| a0.len() <= q < acc@.len() implies incoming@.contains(#[trigger] acc@[q]) by {
                    if q < before.len() {
                        assert(acc@[q] == before[q]);
                    } else {
                        assert(acc@[q] == incoming@[i as int]);
                    }
                }
                assert forall|m: int, q: int| 0 <= m < q && a0.len() <= q < acc@.len() implies
                    !same_supplier(#[trigger] acc@[m], #[trigger] acc@[q]) by {
                    assert(acc@[m] == before[m]);
                    if q < before.len() {
                        assert(acc@[q] == before[q]);
                    } else {
                        assert(!same_supplier(before[m], incoming@[i as int]));
                    }
                }
            }
        } else {
            proof {
                assert forall|k: int| 0 <= k <= i implies holds_supplier(acc@, #[trigger] incoming@[k]) by {
                    if k == i {
                        assert(same_supplier(incoming@[i as int], acc@[j as int]));
                    }
                }
            }
        }
        i += 1;
    }
}

} // verus!
