//! Laws of the ring that relate its operations.
use vstd::prelude::*;

use crate::ring::{
    RingView, owned_with, owner_with, owner_without, without,
};
use crate::search::{
    first_above, is_strictly_sorted, lemma_first_above_at, lemma_first_above_bounds,
    successor_index,
};

verus! {

/// Two strictly sorted sequences with the same elements are equal.
pub proof fn lemma_strictly_sorted_equal(a: Seq<u32>, b: Seq<u32>)
    requires
        is_strictly_sorted(a),
        is_strictly_sorted(b),
        forall|x: u32| a.contains(x) <==> b.contains(x),
    ensures
        a == b,
    decreases a.len(),
{
    if a.len() == 0 {
        if b.len() > 0 {
            assert(b.contains(b[0]));
        }
        assert(a =~= b);
    } else {
        assert(a.contains(a[0]));
        assert(b.len() > 0);
        assert(b.contains(b[0]));
        assert(a[0] == b[0]);
        let a1 = a.drop_first();
        let b1 = b.drop_first();
        assert forall|x: u32| a1.contains(x) <==> b1.contains(x) by {
            if a1.contains(x) {
                let i = choose|i: int| 0 <= i < a1.len() && a1[i] == x;
                assert(a[i + 1] == x);
                assert(b.contains(x));
                let j = choose|j: int| 0 <= j < b.len() && b[j] == x;
                assert(j != 0);
                assert(b1[j - 1] == x);
            }
            if b1.contains(x) {
                let j = choose|j: int| 0 <= j < b1.len() && b1[j] == x;
                assert(b[j + 1] == x);
                assert(a.contains(x));
                let i = choose|i: int| 0 <= i < a.len() && a[i] == x;
                assert(i != 0);
                assert(a1[i - 1] == x);
            }
        }
        lemma_strictly_sorted_equal(a1, b1);
        assert forall|i: int| 0 <= i < a.len() implies a[i] == b[i] by {
            if i > 0 {
                assert(a[i] == a1[i - 1]);
                assert(b[i] == b1[i - 1]);
            }
        }
        assert(a =~= b);
    }
}

/// Taking out an element that a sequence does not hold leaves it unchanged, and so does
/// appending it first.
pub proof fn lemma_without_absent(s: Seq<u32>, p: u32)
    requires
        !s.contains(p),
    ensures
        without(s, p) == s,
        without(s.push(p), p) == s,
    decreases s.len(),
{
    if s.len() > 0 {
        assert(!s.drop_last().contains(p)) by {
            if s.drop_last().contains(p) {
                let i = choose|i: int| 0 <= i < s.len() - 1 && s.drop_last()[i] == p;
                assert(s[i] == p);
            }
        }
        lemma_without_absent(s.drop_last(), p);
        assert(s.drop_last().push(s.last()) =~= s);
    }
    assert(s.push(p).drop_last() =~= s);
}

/// A lookup depends on the ring positions and their owners alone: the hit counters that a
/// lookup updates do not change where the same key goes next time.
pub proof fn lemma_lookup_deterministic(a: RingView, b: RingView, key_hash: u32)
    requires
        a.ring == b.ring,
        a.owner == b.owner,
    ensures
        a.lookup(key_hash) == b.lookup(key_hash),
{
}

/// A key whose hash is at least every virtual id is served by the owner of the smallest
/// virtual id, the first in the ring.
pub proof fn lemma_wraparound(v: RingView, key_hash: u32)
    requires
        v.wf(),
        v.ring.len() > 0,
        forall|i: int| 0 <= i < v.ring.len() ==> v.ring[i] <= key_hash,
    ensures
        successor_index(v.ring, key_hash) == 0,
        v.lookup(key_hash) == v.owner[v.ring[0]],
        forall|i: int| 0 <= i < v.ring.len() ==> v.ring[0] <= #[trigger] v.ring[i],
{
    lemma_first_above_at(v.ring, key_hash, v.ring.len() as int);
    assert(first_above(v.ring, key_hash) == v.ring.len());
}

/// In a well-formed ring the forward map has one entry per virtual id, and the inverse map's
/// lists together hold every virtual id of the ring exactly once.
pub proof fn lemma_coverage(v: RingView)
    requires
        v.wf(),
    ensures
        v.owner.len() == v.ring.len(),
        forall|x: u32|
            v.ring.contains(x) <==> exists|p: u32|
                v.owned.contains_key(p) && #[trigger] v.owned[p].contains(x),
        forall|p: u32, q: u32, x: u32|
            v.owned.contains_key(p) && v.owned.contains_key(q) && #[trigger] v.owned[p].contains(
                x,
            ) && #[trigger] v.owned[q].contains(x) ==> p == q,
        forall|p: u32| #[trigger] v.owned.contains_key(p) ==> v.owned[p].no_duplicates(),
{
    assert forall|x: u32|
        v.ring.contains(x) <==> exists|p: u32|
            v.owned.contains_key(p) && #[trigger] v.owned[p].contains(x) by {
        if v.ring.contains(x) {
            assert(v.owner.contains_key(x));
            assert(v.owned.contains_key(v.owner[x]) && v.owned[v.owner[x]].contains(x));
        }
    }
}

/// Adding a physical node that the ring does not know and then removing it restores the
/// ring exactly, so every key is served by the node it was served by before.
pub proof fn lemma_add_then_remove(
    v0: RingView,
    v1: RingView,
    v2: RingView,
    server_id: u32,
)
    requires
        v0.wf(),
        v1.wf(),
        v2.wf(),
        !v0.physical.contains(server_id),
        !v0.owned.contains_key(server_id),
        v1.physical == v0.physical.push(server_id),
        v1.owner == owner_with(v0.owner, server_id),
        v1.owned == owned_with(v0.owned, v0.owner, server_id),
        v2.physical == without(v1.physical, server_id),
        v2.owner == owner_without(v1.owner, server_id),
        v2.owned == v1.owned.remove(server_id),
    ensures
        v2.physical == v0.physical,
        v2.ring == v0.ring,
        v2.owner == v0.owner,
        v2.owned == v0.owned,
        forall|key_hash: u32| #[trigger] v2.lookup(key_hash) == v0.lookup(key_hash),
{
    lemma_without_absent(v0.physical, server_id);
    assert forall|x: u32| v0.owner.contains_key(x) implies v0.owner[x] != server_id
        && v1.owner.contains_key(x) && v1.owner[x] == v0.owner[x] by {
        let q = v0.owner[x];
        assert(v0.owned.contains_key(q) && v0.owned[q].contains(x));
        assert(q != server_id);
        assert(v1.owned.contains_key(q) && v1.owned[q] == v0.owned[q]);
        assert(v1.owned[q].contains(x));
    }
    assert forall|x: u32| v1.owner.contains_key(x) && v1.owner[x] != server_id implies v0.owner.contains_key(
        x,
    ) by {
    }
    assert(v2.owner =~= v0.owner);
    assert(v2.owned =~= v0.owned);
    assert forall|x: u32| v2.ring.contains(x) <==> v0.ring.contains(x) by {
        assert(v2.owner.contains_key(x) <==> v2.ring.contains(x));
        assert(v0.owner.contains_key(x) <==> v0.ring.contains(x));
    }
    lemma_strictly_sorted_equal(v2.ring, v0.ring);
}

/// Removing a physical node other than the one a key is served by leaves that key where it
/// was: the virtual node it lands on stays, and nothing new comes between.
pub proof fn lemma_remove_other_keeps_lookup(
    v0: RingView,
    v2: RingView,
    server_id: u32,
    key_hash: u32,
)
    requires
        v0.wf(),
        v2.wf(),
        v0.ring.len() > 0,
        v2.owner == owner_without(v0.owner, server_id),
        v0.lookup(key_hash) != server_id,
    ensures
        v2.ring.len() > 0,
        v2.lookup(key_hash) == v0.lookup(key_hash),
{
    let r0 = v0.ring;
    let r2 = v2.ring;
    lemma_first_above_bounds(r0, key_hash);
    let i0 = successor_index(r0, key_hash) as int;
    let x = r0[i0];
    assert(r0.contains(x));
    assert(v0.owner.contains_key(x));
    assert(v2.owner.contains_key(x));
    assert(r2.contains(x));
    let j = choose|j: int| 0 <= j < r2.len() && r2[j] == x;
    assert(forall|y: u32| r2.contains(y) ==> r0.contains(y)) by {
        assert forall|y: u32| r2.contains(y) implies r0.contains(y) by {
            assert(v2.owner.contains_key(y));
            assert(v0.owner.contains_key(y));
        }
    }
    if first_above(r0, key_hash) < r0.len() {
        assert forall|k: int| 0 <= k < j implies r2[k] <= key_hash by {
            assert(r2[k] < x);
            assert(r2.contains(r2[k]));
            assert(r0.contains(r2[k]));
            let m = choose|m: int| 0 <= m < r0.len() && r0[m] == r2[k];
            if m >= i0 {
                assert(r0[i0] <= r0[m]);
            }
        }
        lemma_first_above_at(r2, key_hash, j);
    } else {
        assert forall|k: int| 0 <= k < r2.len() implies r2[k] <= key_hash by {
            assert(r2.contains(r2[k]));
            assert(r0.contains(r2[k]));
        }
        lemma_first_above_at(r2, key_hash, r2.len() as int);
        assert(r2.contains(r2[0]));
        assert(r0.contains(r2[0]));
        let m = choose|m: int| 0 <= m < r0.len() && r0[m] == r2[0];
        if m > 0 {
            assert(r0[0] < r0[m]);
        }
        if j > 0 {
            assert(r2[0] < r2[j]);
        }
    }
}

} // verus!
