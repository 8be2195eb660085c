//! Lists of peers kept in ascending order of distance to a target, bounded in
//! length: the closest-peers sets of local and iterative lookups.
use vstd::prelude::*;
use crate::id::{closer, compare_distance, lemma_lt_trans, Order, PeerId, dist};

verus! {

/// Every peer of `s` is strictly closer to `t` than every peer after it.
pub open spec fn sorted_by_distance(s: Seq<PeerId>, t: PeerId) -> bool {
    forall|i: int, j: int| 0 <= i < j < s.len() ==> closer(#[trigger] s[i], #[trigger] s[j], t)
}

/// `x` is accounted for by `kept`: either it is kept, or `kept` is full at `cap`
/// peers, each of them strictly closer to `t` than `x`.
pub open spec fn covers(kept: Seq<PeerId>, x: PeerId, t: PeerId, cap: nat) -> bool {
    kept.contains(x) || (kept.len() == cap && forall|i: int|
        0 <= i < kept.len() ==> closer(#[trigger] kept[i], x, t))
}

/// `kept` is the list of the `cap` peers closest to `t` among `all` (all of
/// them, where there are fewer), in ascending order of distance.
pub open spec fn closest_of(kept: Seq<PeerId>, all: Seq<PeerId>, t: PeerId, cap: nat) -> bool {
    &&& sorted_by_distance(kept, t)
    &&& kept.len() <= cap
    &&& forall|i: int| 0 <= i < kept.len() ==> all.contains(#[trigger] kept[i])
    &&& forall|i: int| 0 <= i < all.len() ==> covers(kept, #[trigger] all[i], t, cap)
}

pub proof fn lemma_sorted_distinct(s: Seq<PeerId>, t: PeerId, i: int, j: int)
    requires
        sorted_by_distance(s, t),
        0 <= i < s.len(),
        0 <= j < s.len(),
        i != j,
    ensures
        s[i] != s[j],
{
    if i < j {
        assert(closer(s[i], s[j], t));
    } else {
        assert(closer(s[j], s[i], t));
    }
}

/// Adds `p` to the list `list` of peers closest to `target`, keeping it sorted
/// and at most `cap` long: the farthest peer drops out when it overflows.
pub fn insert_closest(list: &mut Vec<PeerId>, p: PeerId, target: &PeerId, cap: usize)
    requires
        cap > 0,
        sorted_by_distance(old(list)@, *target),
        old(list)@.len() <= cap,
    ensures
        sorted_by_distance(final(list)@, *target),
        final(list)@.len() <= cap,
        final(list)@.len() >= old(list)@.len(),
        forall|i: int| 0 <= i < final(list)@.len() ==>
            old(list)@.contains(#[trigger] final(list)@[i]) || final(list)@[i] == p,
        forall|i: int| 0 <= i < old(list)@.len() ==>
            covers(final(list)@, #[trigger] old(list)@[i], *target, cap as nat),
        covers(final(list)@, p, *target, cap as nat),
        old(list)@.contains(p) ==> final(list)@ == old(list)@,
        forall|x: PeerId| covers(old(list)@, x, *target, cap as nat) ==>
            #[trigger] covers(final(list)@, x, *target, cap as nat),
{
    let ghost t = *target;
    let ghost s0 = list@;
    let mut pos: usize = 0;
    let mut farther: bool = false;
    while pos < list.len() && !farther
        invariant
            sorted_by_distance(s0, t),
            s0.len() <= cap,
            list@ == s0,
            t == *target,
            pos <= list.len(),
            forall|i: int| 0 <= i < pos ==> closer(#[trigger] s0[i], p, t),
            farther ==> pos < list.len() && closer(p, s0[pos as int], t),
        decreases list.len() - pos + (if farther { 0int } else { 1int }),
    {
        let q = list[pos];
        assert(q == s0[pos as int]);
        match compare_distance(&q, &p, target) {
            Order::Less => {
                assert(closer(s0[pos as int], p, t));
                pos += 1;
            },
            Order::Equal => {
                assert(s0[pos as int] == p);
                assert(s0.contains(p));
                proof {
                    assert forall|i: int| 0 <= i < s0.len() implies covers(s0, #[trigger] s0[i], t, cap as nat) by {
                        assert(s0.contains(s0[i]));
                    }
                }
                return;
            },
            Order::Greater => {
                assert(closer(p, s0[pos as int], t));
                farther = true;
            },
        }
    }
    proof {
        assert forall|i: int| 0 <= i < s0.len() implies p != #[trigger] s0[i] by {
            if i < pos {
                crate::id::lemma_lt_irrefl(dist(p, t));
            } else {
                assert(farther);
                if i > pos {
                    assert(closer(s0[pos as int], s0[i], t));
                    lemma_lt_trans(dist(p, t), dist(s0[pos as int], t), dist(s0[i], t));
                }
                crate::id::lemma_lt_irrefl(dist(p, t));
            }
        }
    }
    if pos >= cap {
        proof {
            assert forall|i: int| 0 <= i < s0.len() implies covers(s0, #[trigger] s0[i], t, cap as nat) by {
                assert(s0.contains(s0[i]));
            }
        }
        return;
    }
    list.insert(pos, p);
    let ghost s1 = list@;
    assert(s1 == s0.insert(pos as int, p));
    proof {
        assert forall|i: int, j: int| 0 <= i < j < s1.len() implies closer(#[trigger] s1[i], #[trigger] s1[j], t) by {
            if j < pos {
            } else if j == pos {
            } else if i < pos {
                assert(s1[j] == s0[j - 1]);
                assert(closer(s0[i], s0[j - 1], t));
            } else if i == pos {
                assert(s1[j] == s0[j - 1]);
                if j - 1 > pos {
                    assert(closer(s0[pos as int], s0[j - 1], t));
                    lemma_lt_trans(dist(p, t), dist(s0[pos as int], t), dist(s0[j - 1], t));
                }
            } else {
                assert(s1[i] == s0[i - 1]);
                assert(s1[j] == s0[j - 1]);
            }
        }
        assert forall|i: int| 0 <= i < s0.len() implies s1.contains(#[trigger] s0[i]) by {
            if i < pos {
                assert(s1[i] == s0[i]);
            } else {
                assert(s1[i + 1] == s0[i]);
            }
        }
        assert(s1[pos as int] == p);
    }
    if list.len() > cap {
        list.pop();
        proof {
            let s2 = list@;
            assert(s2 =~= s1.subrange(0, cap as int));
            assert forall|i: int| 0 <= i < s1.len() implies covers(s2, #[trigger] s1[i], t, cap as nat) by {
                if i < cap {
                    assert(s2[i] == s1[i]);
                } else {
                    assert forall|k: int| 0 <= k < s2.len() implies closer(#[trigger] s2[k], s1[i], t) by {
                        assert(s2[k] == s1[k]);
                    }
                }
            }
            assert forall|i: int| 0 <= i < s0.len() implies covers(s2, #[trigger] s0[i], t, cap as nat) by {
                let k = choose|k: int| 0 <= k < s1.len() && s1[k] == s0[i];
                assert(covers(s2, s1[k], t, cap as nat));
            }
            assert(covers(s2, s1[pos as int], t, cap as nat));
            assert forall|x: PeerId| covers(s0, x, t, cap as nat) implies #[trigger] covers(s2, x, t, cap as nat) by {
                if s0.contains(x) {
                    let k = choose|k: int| 0 <= k < s0.len() && s0[k] == x;
                    assert(covers(s2, s0[k], t, cap as nat));
                } else {
                    assert forall|k: int| 0 <= k < s2.len() implies closer(#[trigger] s2[k], x, t) by {
                        assert(s2[k] == s1[k]);
                        if k < pos {
                            assert(s1[k] == s0[k]);
                        } else if k > pos {
                            assert(s1[k] == s0[k - 1]);
                        } else {
                            assert(closer(s0[pos as int], x, t));
                            lemma_lt_trans(dist(p, t), dist(s0[pos as int], t), dist(x, t));
                        }
                    }
                }
            }
            assert forall|i: int| 0 <= i < s2.len() implies
                s0.contains(#[trigger] s2[i]) || s2[i] == p by {
                assert(s2[i] == s1[i]);
                if i < pos {
                    assert(s1[i] == s0[i]);
                } else if i > pos {
                    assert(s1[i] == s0[i - 1]);
                }
            }
        }
    } else {
        proof {
            assert forall|i: int| 0 <= i < s0.len() implies covers(s1, #[trigger] s0[i], t, cap as nat) by {
            }
            assert(s1.contains(p));
            assert forall|x: PeerId| covers(s0, x, t, cap as nat) implies #[trigger] covers(s1, x, t, cap as nat) by {
                if s0.contains(x) {
                    let k = choose|k: int| 0 <= k < s0.len() && s0[k] == x;
                    assert(covers(s1, s0[k], t, cap as nat));
                }
            }
            assert forall|i: int| 0 <= i < s1.len() implies
                s0.contains(#[trigger] s1[i]) || s1[i] == p by {
                if i < pos {
                    assert(s1[i] == s0[i]);
                } else if i > pos {
                    assert(s1[i] == s0[i - 1]);
                }
            }
        }
    }
}

/// No peer occurs twice in `s`.
pub open spec fn distinct(s: Seq<PeerId>) -> bool {
    forall|i: int, j: int| 0 <= i < s.len() && 0 <= j < s.len() && i != j ==> s[i] != s[j]
}

/// Whether `p` occurs in `v`.
pub fn contains_peer(v: &Vec<PeerId>, p: &PeerId) -> (r: bool)
    ensures
        r == v@.contains(*p),
{
    let mut i: usize = 0;
    while i < v.len()
        invariant
            i <= v@.len(),
            forall|j: int| 0 <= j < i ==> v@[j] != *p,
        decreases v@.len() - i,
    {
        if v[i].same_as(p) {
            assert(v@[i as int] == *p);
            return true;
        }
        i += 1;
    }
    false
}

/// Takes the first occurrence of `p` out of `v`, if there is one.
pub fn remove_peer(v: &mut Vec<PeerId>, p: &PeerId)
    ensures
        !old(v)@.contains(*p) ==> final(v)@ == old(v)@,
        old(v)@.contains(*p) ==> exists|i: int| 0 <= i < old(v)@.len() && old(v)@[i] == *p
            && final(v)@ == old(v)@.remove(i),
        distinct(old(v)@) ==> distinct(final(v)@) && !final(v)@.contains(*p),
        forall|x: PeerId| x != *p ==> (old(v)@.contains(x) <==> #[trigger] final(v)@.contains(x)),
        forall|t: PeerId| sorted_by_distance(old(v)@, t) ==> #[trigger] sorted_by_distance(final(v)@, t),
{
    let ghost s = v@;
    let mut i: usize = 0;
    while i < v.len()
        invariant
            v@ == s,
            s == old(v)@,
            i <= s.len(),
            forall|j: int| 0 <= j < i ==> s[j] != *p,
        decreases s.len() - i,
    {
        if v[i].same_as(p) {
            v.remove(i);
            proof {
                let r = v@;
                assert(r == s.remove(i as int));
                assert forall|k: int| 0 <= k < r.len() implies #[trigger] r[k] == s[if k < i { k } else { k + 1 }] by {}
                if distinct(s) {
                    assert forall|a: int, b: int| 0 <= a < r.len() && 0 <= b < r.len() && a != b implies r[a] != r[b] by {
                        assert(r[a] == s[if a < i { a } else { a + 1 }]);
                        assert(r[b] == s[if b < i { b } else { b + 1 }]);
                    }
                    if r.contains(*p) {
                        let k = choose|k: int| 0 <= k < r.len() && r[k] == *p;
                        assert(r[k] == s[if k < i { k } else { k + 1 }]);
                    }
                }
                assert forall|x: PeerId| x != *p implies (s.contains(x) <==> #[trigger] r.contains(x)) by {
                    if s.contains(x) {
                        let k = choose|k: int| 0 <= k < s.len() && s[k] == x;
                        if k < i {
                            assert(r[k] == x);
                        } else {
                            assert(k != i);
                            assert(r[k - 1] == x);
                        }
                    }
                    if r.contains(x) {
                        let k = choose|k: int| 0 <= k < r.len() && r[k] == x;
                        assert(s[if k < i { k } else { k + 1 }] == x);
                    }
                }
                assert forall|t: PeerId| sorted_by_distance(s, t) implies #[trigger] sorted_by_distance(r, t) by {
                    assert forall|a: int, b: int| 0 <= a < b < r.len() implies closer(#[trigger] r[a], #[trigger] r[b], t) by {
                        assert(r[a] == s[if a < i { a } else { a + 1 }]);
                        assert(r[b] == s[if b < i { b } else { b + 1 }]);
                    }
                }
            }
            return;
        }
        i += 1;
    }
}

/// A list sorted strictly by distance holds no peer twice.
pub proof fn lemma_sorted_distinct_all(s: Seq<PeerId>, t: PeerId)
    requires
        sorted_by_distance(s, t),
    ensures
        distinct(s),
{
    assert forall|i: int, j: int| 0 <= i < s.len() && 0 <= j < s.len() && i != j implies s[i] != s[j] by {
        lemma_sorted_distinct(s, t, i, j);
    }
}

/// Two lists, each sorted by distance to `t`, with the same peers, are equal.
pub proof fn lemma_sorted_same_members(a: Seq<PeerId>, b: Seq<PeerId>, t: PeerId)
    requires
        sorted_by_distance(a, t),
        sorted_by_distance(b, t),
        forall|x: PeerId| a.contains(x) <==> b.contains(x),
    ensures
        a == b,
    decreases a.len(),
{
    if a.len() == 0 {
        if b.len() > 0 {
            assert(b.contains(b[0]));
        }
        assert(a =~= b);
    } else {
        assert(a.contains(a[0]));
        assert(b.len() > 0);
        assert(b.contains(b[0]));
        if a[0] != b[0] {
            let j = choose|j: int| 0 <= j < b.len() && b[j] == a[0];
            let i = choose|i: int| 0 <= i < a.len() && a[i] == b[0];
            assert(j != 0 && i != 0);
            assert(closer(b[0], b[j], t));
            assert(closer(a[0], a[i], t));
            crate::id::lemma_lt_asym(crate::id::dist(a[0], t), crate::id::dist(b[0], t));
        }
        let ra = a.drop_first();
        let rb = b.drop_first();
        assert forall|i: int, j: int| 0 <= i < j < ra.len() implies closer(#[trigger] ra[i], #[trigger] ra[j], t) by {
            assert(ra[i] == a[i + 1] && ra[j] == a[j + 1]);
        }
        assert forall|i: int, j: int| 0 <= i < j < rb.len() implies closer(#[trigger] rb[i], #[trigger] rb[j], t) by {
            assert(rb[i] == b[i + 1] && rb[j] == b[j + 1]);
        }
        assert forall|x: PeerId| ra.contains(x) <==> rb.contains(x) by {
            if ra.contains(x) {
                let i = choose|i: int| 0 <= i < ra.len() && ra[i] == x;
                lemma_sorted_distinct(a, t, 0, i + 1);
                assert(a.contains(x));
                let j = choose|j: int| 0 <= j < b.len() && b[j] == x;
                assert(j != 0);
                assert(rb[j - 1] == x);
            }
            if rb.contains(x) {
                let i = choose|i: int| 0 <= i < rb.len() && rb[i] == x;
                lemma_sorted_distinct(b, t, 0, i + 1);
                assert(b.contains(x));
                let j = choose|j: int| 0 <= j < a.len() && a[j] == x;
                assert(j != 0);
                assert(ra[j - 1] == x);
            }
        }
        lemma_sorted_same_members(ra, rb, t);
        assert(a =~= b) by {
            assert forall|i: int| 0 <= i < a.len() implies a[i] == b[i] by {
                if i > 0 {
                    assert(ra[i - 1] == rb[i - 1]);
                }
            }
        }
    }
}

/// The `n` closest peers of a set are a single list: any two lists that are
/// sorted by distance to `t`, at most `n` long, drawn from `u`, and that
/// account for every peer of `u`, are the same.
pub proof fn lemma_closest_unique(u: Set<PeerId>, t: PeerId, n: nat, r1: Seq<PeerId>, r2: Seq<PeerId>)
    requires
        sorted_by_distance(r1, t),
        sorted_by_distance(r2, t),
        r1.len() <= n,
        r2.len() <= n,
        forall|i: int| 0 <= i < r1.len() ==> u.contains(#[trigger] r1[i]),
        forall|i: int| 0 <= i < r2.len() ==> u.contains(#[trigger] r2[i]),
        forall|p: PeerId| u.contains(p) ==> #[trigger] covers(r1, p, t, n),
        forall|p: PeerId| u.contains(p) ==> #[trigger] covers(r2, p, t, n),
    ensures
        r1 == r2,
{
    assert forall|x: PeerId| r1.contains(x) implies r2.contains(x) by {
        lemma_closest_contained(u, t, n, r1, r2, x);
    }
    assert forall|x: PeerId| r2.contains(x) implies r1.contains(x) by {
        lemma_closest_contained(u, t, n, r2, r1, x);
    }
    lemma_sorted_same_members(r1, r2, t);
}

proof fn lemma_closest_contained(u: Set<PeerId>, t: PeerId, n: nat, r1: Seq<PeerId>, r2: Seq<PeerId>, x: PeerId)
    requires
        sorted_by_distance(r1, t),
        sorted_by_distance(r2, t),
        r1.len() <= n,
        forall|i: int| 0 <= i < r1.len() ==> u.contains(#[trigger] r1[i]),
        forall|i: int| 0 <= i < r2.len() ==> u.contains(#[trigger] r2[i]),
        forall|p: PeerId| u.contains(p) ==> #[trigger] covers(r1, p, t, n),
        forall|p: PeerId| u.contains(p) ==> #[trigger] covers(r2, p, t, n),
        r1.contains(x),
    ensures
        r2.contains(x),
{
    if !r2.contains(x) {
        let xi = choose|i: int| 0 <= i < r1.len() && r1[i] == x;
        assert(u.contains(r1[xi]));
        assert(covers(r2, x, t, n));
        assert(r2.len() == n);
        assert forall|y: PeerId| r2.contains(y) implies r1.contains(y) by {
            let j = choose|j: int| 0 <= j < r2.len() && r2[j] == y;
            assert(u.contains(r2[j]));
            assert(covers(r1, y, t, n));
            assert(closer(r2[j], x, t));
            if !r1.contains(y) {
                assert(closer(r1[xi], y, t));
                crate::id::lemma_lt_asym(crate::id::dist(y, t), crate::id::dist(x, t));
            }
        }
        lemma_sorted_distinct_all(r2, t);
        assert(r2.no_duplicates());
        r2.unique_seq_to_set();
        r1.lemma_cardinality_of_set();
        let big = r2.to_set().insert(x);
        assert(!r2.to_set().contains(x));
        assert(big.subset_of(r1.to_set())) by {
            assert forall|y: PeerId| big.contains(y) implies r1.to_set().contains(y) by {
                if y != x {
                    assert(r2.contains(y));
                }
            }
        }
        vstd::seq_lib::seq_to_set_is_finite(r1);
        vstd::seq_lib::seq_to_set_is_finite(r2);
        vstd::set_lib::lemma_len_subset(big, r1.to_set());
    }
}

} // verus!
