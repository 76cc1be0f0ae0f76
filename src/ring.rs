//! The ring: physical nodes, their virtual nodes, and clockwise lookup.
use std::collections::HashMap;
use vstd::prelude::*;

use crate::hashing::{create_hash, crc32_of, vnode_candidate, vnode_key_bytes};
use crate::search::{
    binary_search_next_greatest, is_sorted, is_strictly_sorted, successor_index,
};

verus! {

broadcast use vstd::std_specs::hash::group_hash_axioms;

/// Number of virtual nodes that each physical node owns.
pub const VNODES_PER_SERVER: u32 = 100;

/// Number of distinct 32-bit ring positions.
pub const ID_SPACE: u64 = 0x1_0000_0000;

/// A consistent-hashing ring.
pub struct HashRing {
    physical_nodes: Vec<u32>,
    virtual_nodes: Vec<u32>,
    virtual_to_physical: HashMap<u32, u32>,
    physical_to_virtual: HashMap<u32, Vec<u32>>,
    server_counter: HashMap<u32, u32>,
}

/// The abstract state of a ring.
pub struct RingView {
    /// Physical node ids, in the order they joined.
    pub physical: Seq<u32>,
    /// Virtual node ids, in ascending order once the ring is well formed.
    pub ring: Seq<u32>,
    /// Each virtual node's physical node.
    pub owner: Map<u32, u32>,
    /// Each physical node's virtual nodes, in the order they were created.
    pub owned: Map<u32, Seq<u32>>,
    /// Lookups served by each physical node since the counters were last cleared.
    pub hits: Map<u32, u32>,
}

impl View for HashRing {
    type V = RingView;

    closed spec fn view(&self) -> RingView {
        RingView {
            physical: self.physical_nodes@,
            ring: self.virtual_nodes@,
            owner: self.virtual_to_physical@,
            owned: self.physical_to_virtual@.map_values(|l: Vec<u32>| l@),
            hits: self.server_counter@,
        }
    }
}

impl RingView {
    /// The virtual nodes, the forward map and the inverse map describe the same nodes: every
    /// virtual id is listed once, has an owner, and appears in its owner's list only.
    pub open spec fn vnodes_consistent(self) -> bool {
        &&& self.ring.no_duplicates()
        &&& forall|x: u32| #[trigger] self.owner.contains_key(x) <==> self.ring.contains(x)
        &&& self.owner.dom().finite()
        &&& self.owner.len() == self.ring.len()
        &&& forall|p: u32| #[trigger] self.owned.contains_key(p) ==> self.owned[p].no_duplicates()
        &&& forall|p: u32, x: u32|
            self.owned.contains_key(p) && #[trigger] self.owned[p].contains(x) ==> (
            self.owner.contains_key(x) && self.owner[x] == p)
        &&& forall|x: u32| #[trigger]
            self.owner.contains_key(x) ==> self.owned.contains_key(self.owner[x])
                && self.owned[self.owner[x]].contains(x)
    }

    /// The ring is consistent and its virtual ids are in ascending order.
    pub open spec fn wf(self) -> bool {
        &&& self.vnodes_consistent()
        &&& is_strictly_sorted(self.ring)
    }

    /// The physical node that a key hashing to `key_hash` is served by.
    pub open spec fn lookup(self, key_hash: u32) -> u32 {
        self.owner[self.ring[successor_index(self.ring, key_hash) as int]]
    }
}

/// How far clockwise `x` lies from `start`.
pub open spec fn gap(start: u32, x: u32) -> int {
    if x >= start {
        x - start
    } else {
        x + ID_SPACE - start
    }
}

/// `x` is free in `taken`, and every position from `start` clockwise up to `x` is taken.
pub open spec fn is_first_free(taken: Set<u32>, start: u32, x: u32) -> bool {
    &&& !taken.contains(x)
    &&& forall|y: u32| gap(start, y) < gap(start, x) ==> #[trigger] taken.contains(y)
}

/// The first position clockwise from `start`, `start` included, that `taken` leaves free.
pub open spec fn first_free(taken: Set<u32>, start: u32) -> u32 {
    choose|x: u32| is_first_free(taken, start, x)
}

/// A finite set with fewer elements than there are 32-bit values leaves one free.
pub proof fn lemma_free_id_exists(taken: Set<u32>)
    requires
        taken.finite(),
        taken.len() < ID_SPACE,
    ensures
        exists|x: u32| !taken.contains(x),
{
    if forall|x: u32| taken.contains(x) {
        let below = Set::<u32>::range(0, 0xffff_ffff);
        <u32 as vstd::set_lib::FiniteRange>::range_properties(0, 0xffff_ffff);
        let all = below.insert(0xffff_ffff);
        assert(all.subset_of(taken));
        vstd::set_lib::lemma_len_subset(all, taken);
    }
}

/// Only one position is the first free one clockwise from `start`.
pub proof fn lemma_first_free_unique(taken: Set<u32>, start: u32, x: u32)
    requires
        is_first_free(taken, start, x),
    ensures
        first_free(taken, start) == x,
{
    let y = first_free(taken, start);
    assert(is_first_free(taken, start, y));
    if gap(start, y) < gap(start, x) {
        assert(taken.contains(y));
    } else if gap(start, x) < gap(start, y) {
        assert(taken.contains(x));
    }
}

/// The virtual node ids created for the first `k` indices of `server_id`: each is the first
/// free position clockwise from its candidate, given the ids `taken` before and those created
/// for the earlier indices.
pub open spec fn placed(taken: Set<u32>, server_id: u32, k: nat) -> Seq<u32>
    decreases k,
{
    if k == 0 {
        Seq::empty()
    } else {
        let s = placed(taken, server_id, (k - 1) as nat);
        s.push(first_free(taken + s.to_set(), vnode_candidate(server_id, (k - 1) as nat)))
    }
}

/// The virtual node ids that `server_id` is given when it joins a ring whose forward map is
/// `owner`.
pub open spec fn new_vnodes(owner: Map<u32, u32>, server_id: u32) -> Seq<u32> {
    placed(owner.dom(), server_id, VNODES_PER_SERVER as nat)
}

/// The virtual ids listed for `server_id` in `owned`, or none.
pub open spec fn owned_list(owned: Map<u32, Seq<u32>>, server_id: u32) -> Seq<u32> {
    if owned.contains_key(server_id) {
        owned[server_id]
    } else {
        Seq::empty()
    }
}

/// The forward map once `server_id`'s virtual nodes have been generated.
pub open spec fn owner_with(owner: Map<u32, u32>, server_id: u32) -> Map<u32, u32> {
    owner.union_prefer_right(
        Map::new(|x: u32| new_vnodes(owner, server_id).contains(x), |x: u32| server_id),
    )
}

/// The inverse map once `server_id`'s virtual nodes have been generated.
pub open spec fn owned_with(
    owned: Map<u32, Seq<u32>>,
    owner: Map<u32, u32>,
    server_id: u32,
) -> Map<u32, Seq<u32>> {
    owned.insert(server_id, owned_list(owned, server_id) + new_vnodes(owner, server_id))
}

/// The forward map once the virtual nodes of each of `servers` have been generated, in order.
pub open spec fn materialized_owner(owner: Map<u32, u32>, servers: Seq<u32>) -> Map<u32, u32>
    decreases servers.len(),
{
    if servers.len() == 0 {
        owner
    } else {
        owner_with(materialized_owner(owner, servers.drop_last()), servers.last())
    }
}

/// The inverse map once the virtual nodes of each of `servers` have been generated, in order.
pub open spec fn materialized_owned(
    owned: Map<u32, Seq<u32>>,
    owner: Map<u32, u32>,
    servers: Seq<u32>,
) -> Map<u32, Seq<u32>>
    decreases servers.len(),
{
    if servers.len() == 0 {
        owned
    } else {
        owned_with(
            materialized_owned(owned, owner, servers.drop_last()),
            materialized_owner(owner, servers.drop_last()),
            servers.last(),
        )
    }
}

/// `v` with one more virtual node `id` owned by `server_id`, appended to the ring unsorted.
pub open spec fn with_vnode(v: RingView, id: u32, server_id: u32) -> RingView {
    RingView {
        ring: v.ring.push(id),
        owner: v.owner.insert(id, server_id),
        owned: v.owned.insert(server_id, owned_list(v.owned, server_id).push(id)),
        ..v
    }
}

/// Adding a virtual node at a free position keeps the ring consistent.
pub proof fn lemma_with_vnode(v: RingView, id: u32, server_id: u32)
    requires
        v.vnodes_consistent(),
        !v.owner.contains_key(id),
    ensures
        with_vnode(v, id, server_id).vnodes_consistent(),
{
    let w = with_vnode(v, id, server_id);
    assert(!v.ring.contains(id));
    assert forall|x: u32| #[trigger] w.owner.contains_key(x) <==> w.ring.contains(x) by {
        if w.ring.contains(x) && x != id {
            let i = choose|i: int| 0 <= i < w.ring.len() && w.ring[i] == x;
            assert(v.ring[i] == x);
        }
        if x != id && v.ring.contains(x) {
            let i = choose|i: int| 0 <= i < v.ring.len() && v.ring[i] == x;
            assert(w.ring[i] == x);
        }
        assert(w.ring[v.ring.len() as int] == id);
    }
    assert(w.owner.dom() == v.owner.dom().insert(id));
    let l = owned_list(v.owned, server_id);
    if v.owned.contains_key(server_id) && l.contains(id) {
        assert(v.owned[server_id].contains(id));
        assert(v.owner.contains_key(id));
    }
    assert(l.push(id)[l.len() as int] == id);
    assert forall|p: u32, x: u32|
        w.owned.contains_key(p) && #[trigger] w.owned[p].contains(x) implies w.owner.contains_key(
        x) && w.owner[x] == p by {
        if p == server_id && x != id {
            let i = choose|i: int| 0 <= i < l.len() + 1 && l.push(id)[i] == x;
            assert(l[i] == x);
            assert(v.owned[p].contains(x));
        }
    }
    assert forall|x: u32| #[trigger]
        w.owner.contains_key(x) implies w.owned.contains_key(w.owner[x])
            && w.owned[w.owner[x]].contains(x) by {
        if x != id {
            let p = v.owner[x];
            assert(v.owned.contains_key(p) && v.owned[p].contains(x));
            if p == server_id {
                let i = choose|i: int| 0 <= i < l.len() && l[i] == x;
                assert(l.push(id)[i] == x);
            }
        }
    }
}

/// A sorted permutation of a sequence without duplicates is strictly sorted and holds the
/// same elements.
pub proof fn lemma_sorted_permutation(a: Seq<u32>, b: Seq<u32>)
    requires
        a.no_duplicates(),
        a.to_multiset() == b.to_multiset(),
        is_sorted(b),
    ensures
        b.no_duplicates(),
        is_strictly_sorted(b),
        b.len() == a.len(),
        forall|x: u32| a.contains(x) <==> b.contains(x),
{
    broadcast use vstd::seq_lib::group_to_multiset_ensures;
    broadcast use vstd::seq_lib::to_multiset_len, vstd::seq_lib::to_multiset_contains;

    a.lemma_multiset_has_no_duplicates();
    b.lemma_multiset_has_no_duplicates_conv();
    vstd::seq_lib::to_multiset_len(a);
    vstd::seq_lib::to_multiset_len(b);
    assert forall|x: u32| a.contains(x) <==> b.contains(x) by {
        vstd::seq_lib::to_multiset_contains(a, x);
        vstd::seq_lib::to_multiset_contains(b, x);
    }
}

/// Relies on slice::sort: the elements end in ascending order, the same elements as before.
#[verifier::external_body]
fn sort_ids(v: &mut Vec<u32>)
    ensures
        final(v)@.to_multiset() == old(v)@.to_multiset(),
        is_sorted(final(v)@),
{
    v.sort();
}

/// `s` with every occurrence of `p` taken out, the rest in order.
pub open spec fn without(s: Seq<u32>, p: u32) -> Seq<u32>
    decreases s.len(),
{
    if s.len() == 0 {
        s
    } else if s.last() == p {
        without(s.drop_last(), p)
    } else {
        without(s.drop_last(), p).push(s.last())
    }
}

/// The forward map without the virtual nodes of `server_id`.
pub open spec fn owner_without(owner: Map<u32, u32>, server_id: u32) -> Map<u32, u32> {
    Map::new(|x: u32| owner.contains_key(x) && owner[x] != server_id, |x: u32| owner[x])
}

/// The hit counters after one more lookup served by `server_id`; a count stops at its
/// largest value.
pub open spec fn count_hit(hits: Map<u32, u32>, server_id: u32) -> Map<u32, u32> {
    hits.insert(
        server_id,
        if !hits.contains_key(server_id) {
            1
        } else if hits[server_id] == u32::MAX {
            u32::MAX
        } else {
            (hits[server_id] + 1) as u32
        },
    )
}

/// The lookups served by `server_id`, or `None` where it has served none since the counters
/// were last cleared.
pub open spec fn hit_count(hits: Map<u32, u32>, server_id: u32) -> Option<u32> {
    if hits.contains_key(server_id) {
        Some(hits[server_id])
    } else {
        None
    }
}

/// A sequence without duplicates has as many elements as the map whose keys are exactly
/// its elements.
pub proof fn lemma_consistent_len(ring: Seq<u32>, owner: Map<u32, u32>)
    requires
        ring.no_duplicates(),
        forall|x: u32| #[trigger] owner.contains_key(x) <==> ring.contains(x),
    ensures
        owner.dom().finite(),
        owner.len() == ring.len(),
{
    ring.unique_seq_to_set();
    assert(owner.dom() =~= ring.to_set());
}

/// Relies on uuid::Uuid::new_v4 and Uuid::as_u64_pair: a random version-4 UUID, of which the
/// id keeps the low 32 bits of the most significant 64. Nothing is known of the value.
#[verifier::external_body]
fn fresh_server_id() -> (r: u32) {
    uuid::Uuid::new_v4().as_u64_pair().0 as u32
}

impl HashRing {
    /// An empty ring: no physical or virtual nodes.
    pub fn new() -> (r: Self)
        ensures
            r@.wf(),
            r@.physical == Seq::<u32>::empty(),
            r@.ring == Seq::<u32>::empty(),
            r@.owner == Map::<u32, u32>::empty(),
            r@.owned == Map::<u32, Seq<u32>>::empty(),
            r@.hits == Map::<u32, u32>::empty(),
    {
        let r = HashRing {
            physical_nodes: Vec::new(),
            virtual_nodes: Vec::new(),
            virtual_to_physical: HashMap::new(),
            physical_to_virtual: HashMap::new(),
            server_counter: HashMap::new(),
        };
        assert(r@.owned =~= Map::<u32, Seq<u32>>::empty());
        r
    }

    /// A ring with `n` physical nodes, each given a fresh random id, and no virtual nodes yet.
    pub fn new_with_servers(n: u8) -> (r: Self)
        ensures
            r@.wf(),
            r@.physical.len() == n,
            r@.ring == Seq::<u32>::empty(),
            r@.owner == Map::<u32, u32>::empty(),
            r@.owned == Map::<u32, Seq<u32>>::empty(),
            r@.hits == Map::<u32, u32>::empty(),
    {
        let mut r = HashRing::new();
        let mut k: u8 = 0;
        while k < n
            invariant
                k <= n,
                r@.wf(),
                r@.physical.len() == k,
                r@.ring == Seq::<u32>::empty(),
                r@.owner == Map::<u32, u32>::empty(),
                r@.owned == Map::<u32, Seq<u32>>::empty(),
                r@.hits == Map::<u32, u32>::empty(),
            decreases n - k,
        {
            let server_id = fresh_server_id();
            r.physical_nodes.push(server_id);
            k = k + 1;
        }
        r
    }

    /// The id for virtual node `index` of `server_id`: the checksum of `s:<server>:v:<index>`,
    /// moved clockwise past every position already in use.
    pub fn generate_vnode_id(&self, server_id: u32, index: u32) -> (r: u32)
        requires
            self@.vnodes_consistent(),
            self@.ring.len() < ID_SPACE,
        ensures
            is_first_free(self@.owner.dom(), vnode_candidate(server_id, index as nat), r),
            r == first_free(self@.owner.dom(), vnode_candidate(server_id, index as nat)),
    {
        let key = vnode_key_bytes(server_id, index);
        let start = create_hash(key.as_slice());
        let ghost taken = self@.owner.dom();
        let mut virtual_id = start;
        let mut probes: u64 = 0;
        while self.virtual_to_physical.contains_key(&virtual_id)
            invariant
                self@.vnodes_consistent(),
                self@.ring.len() < ID_SPACE,
                taken == self@.owner.dom(),
                probes < ID_SPACE,
                gap(start, virtual_id) == probes,
                forall|y: u32| gap(start, y) < probes ==> #[trigger] taken.contains(y),
            decreases ID_SPACE - probes,
        {
            proof {
                if probes + 1 == ID_SPACE {
                    lemma_free_id_exists(taken);
                    let x = choose|x: u32| !taken.contains(x);
                    assert(gap(start, x) < probes + 1);
                    if gap(start, x) < probes {
                    } else {
                        assert(x == virtual_id);
                    }
                }
            }
            virtual_id = if virtual_id == 0xffff_ffff {
                0
            } else {
                virtual_id + 1
            };
            probes = probes + 1;
        }
        proof {
            lemma_first_free_unique(taken, start, virtual_id);
        }
        virtual_id
    }

    /// Generates the virtual nodes of `server_id` and records them in both maps, appending
    /// them to the ring unsorted.
    fn generate_virtual_nodes(&mut self, server_id: u32)
        requires
            old(self)@.vnodes_consistent(),
            old(self)@.ring.len() + VNODES_PER_SERVER <= ID_SPACE,
        ensures
            final(self)@.vnodes_consistent(),
            final(self)@.ring.len() == old(self)@.ring.len() + VNODES_PER_SERVER,
            final(self)@.owner == owner_with(old(self)@.owner, server_id),
            final(self)@.owned == owned_with(old(self)@.owned, old(self)@.owner, server_id),
            final(self)@.physical == old(self)@.physical,
            final(self)@.hits == old(self)@.hits,
    {
        let ghost v0 = self@;
        let ghost taken = v0.owner.dom();
        let mut i: u32 = 0;
        while i < VNODES_PER_SERVER
            invariant
                i <= VNODES_PER_SERVER,
                v0.ring.len() + VNODES_PER_SERVER <= ID_SPACE,
                taken == v0.owner.dom(),
                self@.vnodes_consistent(),
                self@.ring.len() == v0.ring.len() + i,
                self@.owner.dom() == taken + placed(taken, server_id, i as nat).to_set(),
                self@.owner == v0.owner.union_prefer_right(
                    Map::new(
                        |x: u32| placed(taken, server_id, i as nat).contains(x),
                        |x: u32| server_id,
                    ),
                ),
                i == 0 ==> self@.owned == v0.owned,
                i > 0 ==> self@.owned == v0.owned.insert(
                    server_id,
                    owned_list(v0.owned, server_id) + placed(taken, server_id, i as nat),
                ),
                self@.physical == v0.physical,
                self@.hits == v0.hits,
            decreases VNODES_PER_SERVER - i,
        {
            let ghost before = self@;
            let ghost s = placed(taken, server_id, i as nat);
            let vnode_id = self.generate_vnode_id(server_id, i);
            proof {
                lemma_with_vnode(before, vnode_id, server_id);
                assert(placed(taken, server_id, (i + 1) as nat) == s.push(vnode_id));
                s.lemma_push_to_set_commute(vnode_id);
                assert(owned_list(before.owned, server_id) =~= owned_list(v0.owned, server_id)
                    + s);
            }
            self.virtual_nodes.push(vnode_id);
            self.virtual_to_physical.insert(vnode_id, server_id);
            let mut list: Vec<u32> = match self.physical_to_virtual.remove(&server_id) {
                Some(l) => l,
                None => Vec::new(),
            };
            list.push(vnode_id);
            self.physical_to_virtual.insert(server_id, list);
            i = i + 1;
            proof {
                assert(self@.owned =~= with_vnode(before, vnode_id, server_id).owned);
                assert(self@ == with_vnode(before, vnode_id, server_id));
                let t = placed(taken, server_id, i as nat);
                assert(self@.owner.dom() =~= taken + t.to_set());
                assert(self@.owner =~= v0.owner.union_prefer_right(
                    Map::new(|x: u32| t.contains(x), |x: u32| server_id),
                ));
                assert(owned_list(v0.owned, server_id) + t =~= (owned_list(v0.owned, server_id)
                    + s).push(vnode_id));
                assert(self@.owned =~= v0.owned.insert(
                    server_id,
                    owned_list(v0.owned, server_id) + t,
                ));
            }
        }
    }

    /// Adds the physical node `server_id`, generates its virtual nodes and restores the
    /// ring's order.
    pub fn add_server_with_id(&mut self, server_id: u32)
        requires
            old(self)@.wf(),
            old(self)@.ring.len() + VNODES_PER_SERVER <= ID_SPACE,
        ensures
            final(self)@.wf(),
            final(self)@.physical == old(self)@.physical.push(server_id),
            final(self)@.owner == owner_with(old(self)@.owner, server_id),
            final(self)@.owned == owned_with(old(self)@.owned, old(self)@.owner, server_id),
            final(self)@.hits == old(self)@.hits,
    {
        let ghost v0 = self@;
        self.physical_nodes.push(server_id);
        assert(self@.owned == v0.owned);
        self.generate_virtual_nodes(server_id);
        self.sort_ring();
    }

    /// Adds a physical node with a fresh random id, generates its virtual nodes and restores
    /// the ring's order. Returns the new id.
    pub fn add_server(&mut self) -> (r: u32)
        requires
            old(self)@.wf(),
            old(self)@.ring.len() + VNODES_PER_SERVER <= ID_SPACE,
        ensures
            final(self)@.wf(),
            final(self)@.physical == old(self)@.physical.push(r),
            final(self)@.owner == owner_with(old(self)@.owner, r),
            final(self)@.owned == owned_with(old(self)@.owned, old(self)@.owner, r),
            final(self)@.hits == old(self)@.hits,
    {
        let server_id = fresh_server_id();
        self.add_server_with_id(server_id);
        server_id
    }

    /// Sorts the virtual ids of a consistent ring.
    fn sort_ring(&mut self)
        requires
            old(self)@.vnodes_consistent(),
        ensures
            final(self)@.wf(),
            final(self)@.ring.len() == old(self)@.ring.len(),
            final(self)@.physical == old(self)@.physical,
            final(self)@.owner == old(self)@.owner,
            final(self)@.owned == old(self)@.owned,
            final(self)@.hits == old(self)@.hits,
    {
        let ghost v0 = self@;
        let ghost before = self@.ring;
        sort_ids(&mut self.virtual_nodes);
        proof {
            assert(self@.owned == v0.owned);
            assert(self@.owner == v0.owner);
            lemma_sorted_permutation(before, self@.ring);
            assert forall|x: u32| #[trigger]
                self@.owner.contains_key(x) <==> self@.ring.contains(x) by {
                assert(before.contains(x) <==> self@.ring.contains(x));
            }
        }
    }

    /// Generates the virtual nodes of every known physical node, in order, then sorts the
    /// ring once.
    pub fn init_all_servers(&mut self)
        requires
            old(self)@.wf(),
            old(self)@.ring.len() + VNODES_PER_SERVER * old(self)@.physical.len() <= ID_SPACE,
        ensures
            final(self)@.wf(),
            final(self)@.owner.len() == old(self)@.owner.len() + VNODES_PER_SERVER
                * old(self)@.physical.len(),
            final(self)@.owner == materialized_owner(old(self)@.owner, old(self)@.physical),
            final(self)@.owned == materialized_owned(
                old(self)@.owned,
                old(self)@.owner,
                old(self)@.physical,
            ),
            final(self)@.physical == old(self)@.physical,
            final(self)@.hits == old(self)@.hits,
    {
        let ghost v0 = self@;
        let n = self.physical_nodes.len();
        let mut k: usize = 0;
        while k < n
            invariant
                k <= n == v0.physical.len(),
                v0.ring.len() + VNODES_PER_SERVER * v0.physical.len() <= ID_SPACE,
                self@.vnodes_consistent(),
                self@.ring.len() == v0.ring.len() + VNODES_PER_SERVER * k,
                self@.owner == materialized_owner(v0.owner, v0.physical.take(k as int)),
                self@.owned == materialized_owned(
                    v0.owned,
                    v0.owner,
                    v0.physical.take(k as int),
                ),
                self@.physical == v0.physical,
                self@.hits == v0.hits,
            decreases n - k,
        {
            let server_id = self.physical_nodes[k];
            proof {
                assert(VNODES_PER_SERVER * k + VNODES_PER_SERVER <= VNODES_PER_SERVER
                    * v0.physical.len()) by (nonlinear_arith)
                    requires
                        k < v0.physical.len(),
                ;
                let t = v0.physical.take(k as int + 1);
                assert(t.drop_last() =~= v0.physical.take(k as int));
                assert(t.last() == server_id);
            }
            self.generate_virtual_nodes(server_id);
            k = k + 1;
        }
        proof {
            assert(v0.physical.take(n as int) =~= v0.physical);
        }
        self.sort_ring();
    }

    /// Removes the physical node `server_id`, if present, with all of its virtual nodes.
    pub fn remove_server(&mut self, server_id: u32)
        requires
            old(self)@.wf(),
        ensures
            final(self)@.wf(),
            final(self)@.physical == without(old(self)@.physical, server_id),
            final(self)@.owner == owner_without(old(self)@.owner, server_id),
            final(self)@.owned == old(self)@.owned.remove(server_id),
            final(self)@.hits == old(self)@.hits,
    {
        let ghost v0 = self@;
        let mut kept: Vec<u32> = Vec::new();
        let mut k: usize = 0;
        while k < self.physical_nodes.len()
            invariant
                self@ == v0,
                k <= v0.physical.len(),
                kept@ == without(v0.physical.take(k as int), server_id),
            decreases v0.physical.len() - k,
        {
            let id = self.physical_nodes[k];
            proof {
                let t = v0.physical.take(k as int + 1);
                assert(t.drop_last() =~= v0.physical.take(k as int));
            }
            if id != server_id {
                kept.push(id);
            }
            k = k + 1;
        }
        proof {
            assert(v0.physical.take(k as int) =~= v0.physical);
        }
        self.physical_nodes = kept;
        assert(self@.owned == v0.owned);
        self.remove_virtual_nodes(server_id);
    }

    /// Removes the virtual nodes of `server_id` from the ring and both maps.
    fn remove_virtual_nodes(&mut self, server_id: u32)
        requires
            old(self)@.wf(),
        ensures
            final(self)@.wf(),
            final(self)@.physical == old(self)@.physical,
            final(self)@.owner == owner_without(old(self)@.owner, server_id),
            final(self)@.owned == old(self)@.owned.remove(server_id),
            final(self)@.hits == old(self)@.hits,
    {
        let ghost v0 = self@;
        let ghost target = owner_without(v0.owner, server_id);
        match self.physical_to_virtual.remove(&server_id) {
            Some(vnodes) => {
                let ghost l = vnodes@;
                assert(v0.owned.contains_key(server_id) && v0.owned[server_id] == l);
                let mut j: usize = 0;
                while j < vnodes.len()
                    invariant
                        j <= l.len(),
                        l == vnodes@,
                        v0.wf(),
                        v0.owned.contains_key(server_id) && v0.owned[server_id] == l,
                        self@.ring == v0.ring,
                        self@.physical == v0.physical,
                        self@.hits == v0.hits,
                        self@.owned == v0.owned.remove(server_id),
                        forall|x: u32| #[trigger]
                            self@.owner.contains_key(x) <==> (v0.owner.contains_key(x)
                                && !l.take(j as int).contains(x)),
                        forall|x: u32| #[trigger]
                            self@.owner.contains_key(x) ==> self@.owner[x] == v0.owner[x],
                    decreases l.len() - j,
                {
                    let vnode = vnodes[j];
                    let ghost before = self@.owner;
                    self.virtual_to_physical.remove(&vnode);
                    j = j + 1;
                    proof {
                        assert(self@.owner == before.remove(vnode));
                        assert(l.take(j as int) =~= l.take(j - 1).push(vnode));
                        assert forall|x: u32| #[trigger]
                            self@.owner.contains_key(x) <==> (v0.owner.contains_key(x)
                                && !l.take(j as int).contains(x)) by {
                            assert(self@.owner.contains_key(x) <==> (before.contains_key(x) && x
                                != vnode));
                            if l.take(j as int).contains(x) && x != vnode {
                                let i = choose|i: int|
                                    0 <= i < j && l.take(j as int)[i] == x;
                                assert(l.take(j - 1)[i] == x);
                            }
                            assert(l.take(j as int)[j - 1] == vnode);
                        }
                    }
                }
                proof {
                    assert(l.take(j as int) =~= l);
                    assert forall|x: u32| #[trigger]
                        self@.owner.contains_key(x) <==> target.contains_key(x) by {
                        if v0.owner.contains_key(x) && v0.owner[x] == server_id {
                            assert(v0.owned[v0.owner[x]].contains(x));
                        }
                        if l.contains(x) {
                            assert(v0.owned[server_id].contains(x));
                        }
                    }
                    assert(self@.owner =~= target);
                }
                self.retain_owned_vnodes();
            },
            None => {
                proof {
                    assert forall|x: u32| #[trigger]
                        v0.owner.contains_key(x) implies v0.owner[x] != server_id by {
                        assert(v0.owned.contains_key(v0.owner[x]));
                    }
                    assert(v0.owner =~= target);
                    assert(self@.owned =~= v0.owned.remove(server_id));
                }
            },
        }
    }

    /// Keeps, in order, the virtual ids that still have an owner.
    fn retain_owned_vnodes(&mut self)
        requires
            is_strictly_sorted(old(self)@.ring),
            forall|x: u32| #[trigger]
                old(self)@.owner.contains_key(x) ==> old(self)@.ring.contains(x),
            forall|p: u32, x: u32|
                old(self)@.owned.contains_key(p) && #[trigger] old(self)@.owned[p].contains(x)
                    ==> (old(self)@.owner.contains_key(x) && old(self)@.owner[x] == p),
            forall|x: u32| #[trigger]
                old(self)@.owner.contains_key(x) ==> old(self)@.owned.contains_key(
                    old(self)@.owner[x],
                ) && old(self)@.owned[old(self)@.owner[x]].contains(x),
            forall|p: u32| #[trigger]
                old(self)@.owned.contains_key(p) ==> old(self)@.owned[p].no_duplicates(),
        ensures
            final(self)@.wf(),
            final(self)@.physical == old(self)@.physical,
            final(self)@.owner == old(self)@.owner,
            final(self)@.owned == old(self)@.owned,
            final(self)@.hits == old(self)@.hits,
    {
        let ghost v0 = self@;
        let ghost ring = v0.ring;
        let mut kept: Vec<u32> = Vec::new();
        let mut i: usize = 0;
        while i < self.virtual_nodes.len()
            invariant
                self@ == v0,
                ring == v0.ring,
                is_strictly_sorted(ring),
                i <= ring.len(),
                is_strictly_sorted(kept@),
                i < ring.len() ==> forall|a: int| 0 <= a < kept@.len() ==> kept@[a] < ring[i as int],
                forall|x: u32|
                    #[trigger] kept@.contains(x) <==> (ring.take(i as int).contains(x)
                        && v0.owner.contains_key(x)),
            decreases ring.len() - i,
        {
            let x = self.virtual_nodes[i];
            let keep = self.virtual_to_physical.contains_key(&x);
            let ghost before = kept@;
            if keep {
                kept.push(x);
            }
            i = i + 1;
            proof {
                assert(ring.take(i as int) =~= ring.take(i - 1).push(x));
                assert forall|y: u32|
                    #[trigger] kept@.contains(y) <==> (ring.take(i as int).contains(y)
                        && v0.owner.contains_key(y)) by {
                    if ring.take(i as int).contains(y) && y != x {
                        let a = choose|a: int| 0 <= a < i && ring.take(i as int)[a] == y;
                        assert(ring.take(i - 1)[a] == y);
                    }
                    if keep && kept@.contains(y) && y != x {
                        let a = choose|a: int| 0 <= a < kept@.len() && kept@[a] == y;
                        assert(before[a] == y);
                    }
                    if keep && before.contains(y) {
                        let a = choose|a: int| 0 <= a < before.len() && before[a] == y;
                        assert(kept@[a] == y);
                    }
                    assert(ring.take(i as int)[i - 1] == x);
                    if keep {
                        assert(kept@[before.len() as int] == x);
                    }
                }
            }
        }
        proof {
            assert(ring.take(i as int) =~= ring);
        }
        self.virtual_nodes = kept;
        proof {
            assert(self@.owner == v0.owner);
            assert(self@.owned == v0.owned);
            assert forall|x: u32| #[trigger]
                self@.owner.contains_key(x) <==> self@.ring.contains(x) by {
                assert(self@.ring.contains(x) <==> (ring.contains(x) && v0.owner.contains_key(x)));
            }
            lemma_consistent_len(self@.ring, self@.owner);
        }
    }

    /// The physical node that a key hashing to `key_hash` is served by: the owner of the first
    /// virtual node clockwise from it. Counts the lookup for that node.
    pub fn pick_server_for_hash(&mut self, key_hash: u32) -> (r: u32)
        requires
            old(self)@.wf(),
            old(self)@.ring.len() > 0,
        ensures
            r == old(self)@.lookup(key_hash),
            final(self)@.hits == count_hit(old(self)@.hits, r),
            final(self)@.wf(),
            final(self)@.physical == old(self)@.physical,
            final(self)@.ring == old(self)@.ring,
            final(self)@.owner == old(self)@.owner,
            final(self)@.owned == old(self)@.owned,
    {
        let idx = binary_search_next_greatest(&self.virtual_nodes, key_hash);
        let vnode_id = self.virtual_nodes[idx];
        assert(self@.ring.contains(vnode_id));
        let server_id: u32 = match self.virtual_to_physical.get(&vnode_id) {
            Some(s) => *s,
            None => {
                proof {
                    assert(false);
                }
                0
            },
        };
        let count: u32 = match self.server_counter.get(&server_id) {
            Some(c) => if *c == u32::MAX {
                *c
            } else {
                *c + 1
            },
            None => 1,
        };
        self.server_counter.insert(server_id, count);
        server_id
    }

    /// The physical node that `data` is served by: the owner of the first virtual node
    /// clockwise from the key's checksum. Counts the lookup for that node. The ring must hold
    /// at least one virtual node.
    pub fn pick_server_on_ring(&mut self, data: &[u8]) -> (r: u32)
        requires
            old(self)@.wf(),
            old(self)@.ring.len() > 0,
        ensures
            r == old(self)@.lookup(crc32_of(data@)),
            final(self)@.hits == count_hit(old(self)@.hits, r),
            final(self)@.wf(),
            final(self)@.physical == old(self)@.physical,
            final(self)@.ring == old(self)@.ring,
            final(self)@.owner == old(self)@.owner,
            final(self)@.owned == old(self)@.owned,
    {
        let key_hash = create_hash(data);
        self.pick_server_for_hash(key_hash)
    }

    /// Each physical node with the number of lookups it has served since the counters were
    /// last cleared, or `None` where it has served none.
    pub fn distribution(&self) -> (r: Vec<(u32, Option<u32>)>)
        ensures
            r@.len() == self@.physical.len(),
            forall|i: int|
                0 <= i < r@.len() ==> #[trigger] r@[i] == (
                self@.physical[i],
                hit_count(self@.hits, self@.physical[i]),
                ),
    {
        let mut out: Vec<(u32, Option<u32>)> = Vec::new();
        let mut k: usize = 0;
        while k < self.physical_nodes.len()
            invariant
                k <= self@.physical.len(),
                out@.len() == k,
                forall|i: int|
                    0 <= i < k ==> #[trigger] out@[i] == (
                    self@.physical[i],
                    hit_count(self@.hits, self@.physical[i]),
                    ),
            decreases self@.physical.len() - k,
        {
            let server_id = self.physical_nodes[k];
            let count: Option<u32> = match self.server_counter.get(&server_id) {
                Some(c) => Some(*c),
                None => None,
            };
            out.push((server_id, count));
            k = k + 1;
        }
        out
    }

    /// Forgets every hit count.
    pub fn clear_counters(&mut self)
        requires
            old(self)@.wf(),
        ensures
            final(self)@.wf(),
            final(self)@.hits == Map::<u32, u32>::empty(),
            final(self)@.physical == old(self)@.physical,
            final(self)@.ring == old(self)@.ring,
            final(self)@.owner == old(self)@.owner,
            final(self)@.owned == old(self)@.owned,
    {
        let ghost v0 = self@;
        self.server_counter.clear();
        assert(self@.owned == v0.owned);
    }

    /// The physical node ids, in the order they joined.
    pub fn physical_ids(&self) -> (r: &Vec<u32>)
        ensures
            r@ == self@.physical,
    {
        &self.physical_nodes
    }

    /// The virtual node ids, in ascending order in a well-formed ring.
    pub fn virtual_ids(&self) -> (r: &Vec<u32>)
        ensures
            r@ == self@.ring,
    {
        &self.virtual_nodes
    }

    /// The physical node that owns the virtual node `vnode_id`, if there is one.
    pub fn owner_of(&self, vnode_id: u32) -> (r: Option<u32>)
        ensures
            r == (if self@.owner.contains_key(vnode_id) {
                Some(self@.owner[vnode_id])
            } else {
                None
            }),
    {
        match self.virtual_to_physical.get(&vnode_id) {
            Some(p) => Some(*p),
            None => None,
        }
    }
}

} // verus!
