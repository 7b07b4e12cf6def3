//! The bounded routing table.
//!
//! Peers live in a slot arena (indices stay stable across removals) and are
//! indexed by 256 level buckets: bucket `L` holds the slots of the peers
//! whose XOR distance to the local node has bucket level `L`. Invariants:
//! the local identity is never present, every bucket entry points at a live
//! slot of the matching level, every live slot is listed in exactly one
//! bucket position, keys are unique, and no bucket exceeds its capacity.

use vstd::prelude::*;

use crate::identity::PublicId;
use crate::tag::{lex_lt, level_of, xor_bytes, Tag};

verus! {

/// Maximum number of peers kept per distance level.
pub const MAX_LEVEL_PEERS: usize = 2;

/// Number of distance levels.
pub const LEVEL_COUNT: usize = 256;

/// An opaque address at which a peer's transport can be reached. The bytes
/// are whatever the transport understands (a URL, a registry key).
#[derive(Debug)]
pub struct NodeAddr {
    pub bytes: Vec<u8>,
}

impl View for NodeAddr {
    type V = Seq<u8>;

    open spec fn view(&self) -> Seq<u8> {
        self.bytes@
    }
}

impl NodeAddr {
    /// Wrap transport address bytes.
    pub fn new(bytes: Vec<u8>) -> (r: NodeAddr)
        ensures
            r@ == bytes@,
    {
        NodeAddr { bytes }
    }

    /// A copy of the address with the same bytes.
    pub fn duplicate(&self) -> (r: NodeAddr)
        ensures
            r@ == self@,
    {
        NodeAddr { bytes: crate::identity::copy_bytes(&self.bytes) }
    }
}

/// A known peer: its identity, its transport address, and the last observed
/// round-trip time of a liveness probe, in milliseconds.
pub struct Peer {
    pub id: PublicId,
    pub addr: NodeAddr,
    pub ping_ms: u64,
}

impl Peer {
    /// A copy of the peer with the same identity, address and probe time.
    pub fn duplicate(&self) -> (r: Peer)
        ensures
            r.id.tag@ == self.id.tag@,
            r.id.key@ == self.id.key@,
            r.addr@ == self.addr@,
            r.ping_ms == self.ping_ms,
    {
        Peer { id: self.id.duplicate(), addr: self.addr.duplicate(), ping_ms: self.ping_ms }
    }
}

/// The bucket level of a peer as seen from a local tag.
pub open spec fn peer_level(local_tag: Seq<u8>, peer_tag: Seq<u8>) -> int {
    level_of(xor_bytes(local_tag, peer_tag))
}

/// The bounded routing table of one node.
pub struct RoutingTable {
    pub local_id: PublicId,
    pub slots: Vec<Option<Peer>>,
    pub by_level: Vec<Vec<usize>>,
}

impl RoutingTable {
    /// Whether slot `i` holds a peer.
    pub open spec fn live(&self, i: int) -> bool {
        0 <= i < self.slots@.len() && self.slots@[i] is Some
    }

    /// The peer in slot `i`.
    pub open spec fn peer_at(&self, i: int) -> Peer {
        self.slots@[i].unwrap()
    }

    /// The bucket level of the peer in slot `i`.
    pub open spec fn peer_level_at(&self, i: int) -> int {
        peer_level(self.local_id.tag@, self.peer_at(i).id.tag@)
    }

    /// Whether some peer holds this key.
    pub open spec fn contains_key(&self, key: (Seq<u8>, Seq<u8>)) -> bool {
        exists|i: int| self.live(i) && (#[trigger] self.peer_at(i)).id.key@ == key
    }

    /// Whether some live peer has exactly this key and tag.
    pub open spec fn has_id(&self, key: (Seq<u8>, Seq<u8>), tag: Seq<u8>) -> bool {
        exists|i: int|
            self.live(i) && (#[trigger] self.peer_at(i)).id.key@ == key && self.peer_at(i).id.tag@
                == tag
    }

    /// Whether some live peer in a slot below `bound` holds this key.
    pub open spec fn has_id_below(&self, bound: int, key: (Seq<u8>, Seq<u8>)) -> bool {
        exists|i: int|
            i < bound && self.live(i) && (#[trigger] self.peer_at(i)).id.key@ == key
    }

    /// Whether some peer has exactly this key, tag and address.
    pub open spec fn has_peer_with(&self, key: (Seq<u8>, Seq<u8>), tag: Seq<u8>, addr: Seq<u8>) -> bool {
        exists|i: int|
            self.live(i) && (#[trigger] self.peer_at(i)).id.key@ == key && self.peer_at(i).id.tag@
                == tag && self.peer_at(i).addr@ == addr
    }

    /// Every bucket entry points at a live slot of the matching level.
    pub open spec fn buckets_point_right(&self) -> bool {
        forall|l: int, k: int|
            0 <= l < LEVEL_COUNT && 0 <= k < self.by_level@[l]@.len() ==> self.live(
                #[trigger] self.by_level@[l]@[k] as int,
            ) && self.peer_level_at(self.by_level@[l]@[k] as int) == l
    }

    /// No bucket exceeds its capacity.
    pub open spec fn buckets_bounded(&self) -> bool {
        forall|l: int|
            0 <= l < LEVEL_COUNT ==> (#[trigger] self.by_level@[l])@.len() <= MAX_LEVEL_PEERS
    }

    /// No slot index appears twice over all bucket positions.
    pub open spec fn buckets_distinct(&self) -> bool {
        forall|l1: int, k1: int, l2: int, k2: int|
            0 <= l1 < LEVEL_COUNT && 0 <= k1 < self.by_level@[l1]@.len() && 0 <= l2 < LEVEL_COUNT
                && 0 <= k2 < self.by_level@[l2]@.len() && (l1 != l2 || k1 != k2) ==> (
            #[trigger] self.by_level@[l1]@[k1]) != (#[trigger] self.by_level@[l2]@[k2])
    }

    /// Every live peer is well formed, is not the local identity, and is
    /// listed in the bucket of its level.
    pub open spec fn peers_ok(&self) -> bool {
        forall|i: int|
            #[trigger] self.live(i) ==> self.peer_at(i).id.wf() && self.peer_at(i).id.key@
                != self.local_id.key@ && self.by_level@[self.peer_level_at(i)]@.contains(i as usize)
    }

    /// No two live peers hold the same key.
    pub open spec fn keys_unique(&self) -> bool {
        forall|i: int, j: int|
            #[trigger] self.live(i) && #[trigger] self.live(j) && i != j ==> self.peer_at(
                i,
            ).id.key@ != self.peer_at(j).id.key@
    }

    /// The routing table invariant.
    pub open spec fn wf(&self) -> bool {
        &&& self.local_id.wf()
        &&& self.by_level@.len() == LEVEL_COUNT
        &&& self.buckets_point_right()
        &&& self.buckets_bounded()
        &&& self.buckets_distinct()
        &&& self.peers_ok()
        &&& self.keys_unique()
    }

    /// An empty table for a local identity.
    pub fn new(local_id: PublicId) -> (r: RoutingTable)
        requires
            local_id.wf(),
        ensures
            r.wf(),
            r.local_id == local_id,
            r.slots@.len() == 0,
    {
        let mut by_level: Vec<Vec<usize>> = Vec::new();
        let mut l: usize = 0;
        while l < LEVEL_COUNT
            invariant
                l <= LEVEL_COUNT,
                by_level@.len() == l,
                forall|m: int| 0 <= m < l ==> (#[trigger] by_level@[m])@.len() == 0,
            decreases LEVEL_COUNT - l,
        {
            by_level.push(Vec::new());
            l = l + 1;
        }
        RoutingTable { local_id, slots: Vec::new(), by_level }
    }

    /// The slot of the peer holding this key, if any.
    fn find_by_key(&self, id: &PublicId) -> (r: Option<usize>)
        ensures
            match r {
                Some(i) => self.live(i as int) && self.peer_at(i as int).id.key@ == id.key@,
                None => !self.contains_key(id.key@),
            },
    {
        let mut i: usize = 0;
        while i < self.slots.len()
            invariant
                i <= self.slots@.len(),
                forall|j: int|
                    0 <= j < i && #[trigger] self.live(j) ==> self.peer_at(j).id.key@ != id.key@,
            decreases self.slots@.len() - i,
        {
            match &self.slots[i] {
                Some(peer) => {
                    if peer.id.same_key(id) {
                        return Some(i);
                    }
                },
                None => {},
            }
            i = i + 1;
        }
        None
    }

    /// Whether a peer with this key is already in the table.
    pub fn knows(&self, id: &PublicId) -> (r: bool)
        ensures
            r == self.contains_key(id.key@),
    {
        match self.find_by_key(id) {
            Some(i) => {
                proof {
                    assert(self.live(i as int) && self.peer_at(i as int).id.key@ == id.key@);
                }
                true
            },
            None => false,
        }
    }

    /// Whether a peer with this identity could be accepted now: it is not the
    /// local identity, it is not already known, and the bucket of its level
    /// has room.
    pub fn can_accept(&self, id: &PublicId) -> (r: bool)
        requires
            self.wf(),
            id.wf(),
        ensures
            r == (id.key@ != self.local_id.key@ && !self.contains_key(id.key@) && self.by_level@[
                peer_level(self.local_id.tag@, id.tag@)
            ]@.len() < MAX_LEVEL_PEERS),
    {
        if self.local_id.same_key(id) {
            return false;
        }
        if self.find_by_key(id).is_some() {
            proof {
                assert(self.contains_key(id.key@));
            }
            return false;
        }
        let level = self.local_id.tag.dist_to(&id.tag).level();
        self.by_level[level as usize].len() < MAX_LEVEL_PEERS
    }

    /// Record a peer that answered a liveness probe: update the probe time
    /// when the key is already known, insert a fresh peer when its bucket has
    /// room, and refuse otherwise (also when the identity is the local one).
    pub fn insert_or_update(&mut self, id: PublicId, addr: NodeAddr, ping_ms: u64) -> (r: bool)
        requires
            old(self).wf(),
            id.wf(),
        ensures
            final(self).wf(),
            final(self).local_id == old(self).local_id,
            r == (id.key@ != old(self).local_id.key@ && (old(self).contains_key(id.key@) || old(self).by_level@[peer_level(old(self).local_id.tag@, id.tag@)]@.len() < MAX_LEVEL_PEERS)),
            !r ==> *final(self) == *old(self),
            r ==> final(self).contains_key(id.key@),
            r && !old(self).contains_key(id.key@) ==> final(self).has_peer_with(
                id.key@,
                id.tag@,
                addr@,
            ),
            r ==> exists|i: int|
                #[trigger] final(self).live(i) && final(self).peer_at(i).id.key@ == id.key@
                    && final(self).peer_at(i).ping_ms == ping_ms,
            forall|i: int|
                old(self).live(i) ==> #[trigger] final(self).live(i) && final(self).peer_at(
                    i,
                ).id.key@ == old(self).peer_at(i).id.key@ && final(self).peer_at(i).id.tag@ == old(self).peer_at(i).id.tag@ && final(self).peer_at(i).addr@ == old(self).peer_at(i).addr@,
            forall|i: int|
                #[trigger] final(self).live(i) ==> old(self).live(i) || (final(self).peer_at(
                    i,
                ).id.key@ == id.key@ && final(self).peer_at(i).id.tag@ == id.tag@ && final(self).peer_at(i).addr@ == addr@),
    {
        if self.local_id.same_key(&id) {
            return false;
        }
        match self.find_by_key(&id) {
            Some(i) => {
                let found = self.slots[i].as_ref().unwrap();
                let new_peer = Peer {
                    id: found.id.duplicate(),
                    addr: found.addr.duplicate(),
                    ping_ms,
                };
                self.slots[i] = Some(new_peer);
                proof {
                    let g = *old(self);
                    let f = *self;
                    assert forall|j: int| g.live(j) implies #[trigger] f.live(j) && f.peer_at(
                        j,
                    ).id.key@ == g.peer_at(j).id.key@ && f.peer_at(j).id.tag@ == g.peer_at(
                        j,
                    ).id.tag@ && f.peer_at(j).addr@ == g.peer_at(j).addr@ by {}
                    assert forall|j: int| #[trigger] f.live(j) implies g.live(j) by {}
                    assert(f.buckets_point_right()) by {
                        assert forall|l: int, k: int|
                            0 <= l < LEVEL_COUNT && 0 <= k < f.by_level@[l]@.len() implies f.live(
                            #[trigger] f.by_level@[l]@[k] as int,
                        ) && f.peer_level_at(f.by_level@[l]@[k] as int) == l by {
                            assert(g.live(g.by_level@[l]@[k] as int) && g.peer_level_at(
                                g.by_level@[l]@[k] as int,
                            ) == l);
                        }
                    }
                    assert(f.peers_ok()) by {
                        assert forall|j: int| #[trigger] f.live(j) implies f.peer_at(j).id.wf()
                            && f.peer_at(j).id.key@ != f.local_id.key@ && f.by_level@[f.peer_level_at(
                            j,
                        )]@.contains(j as usize) by {
                            assert(g.live(j));
                            assert(f.peer_at(j).id.tag@ == g.peer_at(j).id.tag@);
                            assert(f.peer_level_at(j) == g.peer_level_at(j));
                        }
                    }
                    assert(f.keys_unique()) by {
                        assert forall|a: int, b: int|
                            #[trigger] f.live(a) && #[trigger] f.live(b) && a != b implies f.peer_at(
                            a,
                        ).id.key@ != f.peer_at(b).id.key@ by {
                            assert(g.live(a) && g.live(b));
                        }
                    }
                    assert(f.live(i as int) && f.peer_at(i as int).id.key@ == id.key@ && f.peer_at(
                        i as int,
                    ).ping_ms == ping_ms);
                }
                true
            },
            None => {
                let level = self.local_id.tag.dist_to(&id.tag).level();
                proof {
                    crate::tag::lemma_level_bounds(xor_bytes(self.local_id.tag@, id.tag@));
                }
                if self.by_level[level as usize].len() >= MAX_LEVEL_PEERS {
                    return false;
                }
                let idx = self.slots.len();
                let ghost id_tag = id.tag@;
                let ghost id_key = id.key@;
                let ghost addr_view = addr@;
                self.slots.push(Some(Peer { id, addr, ping_ms }));
                let mut bucket = copy_indices(&self.by_level[level as usize]);
                bucket.push(idx);
                self.by_level[level as usize] = bucket;
                proof {
                    let g = *old(self);
                    let f = *self;
                    let lv = level as int;
                    assert(f.by_level@ =~= g.by_level@.update(
                        lv,
                        f.by_level@[lv],
                    ));
                    assert(f.by_level@[lv]@ =~= g.by_level@[lv]@.push(idx));
                    assert forall|j: int| g.live(j) implies #[trigger] f.live(j) && f.peer_at(
                        j,
                    ).id.key@ == g.peer_at(j).id.key@ && f.peer_at(j).id.tag@ == g.peer_at(
                        j,
                    ).id.tag@ && f.peer_at(j).addr@ == g.peer_at(j).addr@ by {}
                    assert(f.live(idx as int) && f.peer_at(idx as int).id.key@ == id_key
                        && f.peer_at(idx as int).id.tag@ == id_tag && f.peer_at(idx as int).addr@
                        == addr_view && f.peer_at(idx as int).ping_ms == ping_ms);
                    assert(f.peer_level_at(idx as int) == lv);
                    assert(f.buckets_point_right()) by {
                        assert forall|l: int, k: int|
                            0 <= l < LEVEL_COUNT && 0 <= k < f.by_level@[l]@.len() implies f.live(
                            #[trigger] f.by_level@[l]@[k] as int,
                        ) && f.peer_level_at(f.by_level@[l]@[k] as int) == l by {
                            if l == lv && k == g.by_level@[lv]@.len() {
                            } else {
                                assert(f.by_level@[l]@[k] == g.by_level@[l]@[k]);
                                assert(g.live(g.by_level@[l]@[k] as int) && g.peer_level_at(
                                    g.by_level@[l]@[k] as int,
                                ) == l);
                            }
                        }
                    }
                    assert(f.buckets_distinct()) by {
                        assert forall|l1: int, k1: int, l2: int, k2: int|
                            0 <= l1 < LEVEL_COUNT && 0 <= k1 < f.by_level@[l1]@.len() && 0 <= l2
                                < LEVEL_COUNT && 0 <= k2 < f.by_level@[l2]@.len() && (l1 != l2 || k1
                                != k2) implies (#[trigger] f.by_level@[l1]@[k1]) != (
                            #[trigger] f.by_level@[l2]@[k2]) by {
                            if l1 == lv && k1 == g.by_level@[lv]@.len() {
                                assert(f.by_level@[l1]@[k1] == idx);
                                assert(g.live(g.by_level@[l2]@[k2] as int));
                            } else if l2 == lv && k2 == g.by_level@[lv]@.len() {
                                assert(f.by_level@[l2]@[k2] == idx);
                                assert(g.live(g.by_level@[l1]@[k1] as int));
                            } else {
                                assert(f.by_level@[l1]@[k1] == g.by_level@[l1]@[k1]);
                                assert(f.by_level@[l2]@[k2] == g.by_level@[l2]@[k2]);
                            }
                        }
                    }
                    assert(f.peers_ok()) by {
                        assert forall|j: int| #[trigger] f.live(j) implies f.peer_at(j).id.wf()
                            && f.peer_at(j).id.key@ != f.local_id.key@ && f.by_level@[f.peer_level_at(
                            j,
                        )]@.contains(j as usize) by {
                            if j == idx as int {
                                assert(f.by_level@[lv]@[g.by_level@[lv]@.len() as int] == idx);
                            } else {
                                assert(g.live(j));
                                assert(f.peer_level_at(j) == g.peer_level_at(j));
                                let gb = g.by_level@[g.peer_level_at(j)]@;
                                let kk = choose|kk: int| 0 <= kk < gb.len() && gb[kk] == j as usize;
                                if g.peer_level_at(j) == lv {
                                    assert(f.by_level@[lv]@[kk] == j as usize);
                                } else {
                                    crate::tag::lemma_level_bounds(
                                        xor_bytes(g.local_id.tag@, g.peer_at(j).id.tag@),
                                    );
                                    assert(f.by_level@[g.peer_level_at(j)]@ == gb);
                                }
                            }
                        }
                    }
                    assert(f.keys_unique()) by {
                        assert forall|a: int, b: int|
                            #[trigger] f.live(a) && #[trigger] f.live(b) && a != b implies f.peer_at(
                            a,
                        ).id.key@ != f.peer_at(b).id.key@ by {
                            if a == idx as int {
                                assert(g.live(b));
                            } else if b == idx as int {
                                assert(g.live(a));
                            } else {
                                assert(g.live(a) && g.live(b));
                            }
                        }
                    }
                }
                true
            },
        }
    }
}

impl RoutingTable {
    /// Remove the peer in slot `idx` from the slots and from the bucket of
    /// its level; other slots keep their indices. Returns whether a peer was
    /// there.
    pub fn remove(&mut self, idx: usize) -> (r: bool)
        requires
            old(self).wf(),
        ensures
            final(self).wf(),
            final(self).local_id == old(self).local_id,
            r == old(self).live(idx as int),
            !final(self).live(idx as int),
            !r ==> *final(self) == *old(self),
            final(self).slots@.len() == old(self).slots@.len(),
            forall|i: int|
                0 <= i < old(self).slots@.len() && i != idx ==> final(self).slots@[i] == old(
                    self,
                ).slots@[i],
    {
        if idx >= self.slots.len() {
            return false;
        }
        let level: u16 = match &self.slots[idx] {
            Some(p) => {
                proof {
                    assert(self.live(idx as int));
                }
                self.local_id.tag.dist_to(&p.id.tag).level()
            },
            None => {
                return false;
            },
        };
        let lvl = level as usize;
        proof {
            crate::tag::lemma_level_bounds(
                xor_bytes(self.local_id.tag@, self.peer_at(idx as int).id.tag@),
            );
            assert(level as int == self.peer_level_at(idx as int));
        }
        let oldb = copy_indices(&self.by_level[lvl]);
        proof {
            assert forall|a: int, b: int| 0 <= a < b < oldb@.len() implies oldb@[a] != oldb@[b] by {
                assert(old(self).by_level@[lvl as int]@[a] != old(self).by_level@[lvl as int]@[b]);
            }
        }
        let mut newb: Vec<usize> = Vec::new();
        let mut k: usize = 0;
        while k < oldb.len()
            invariant
                k <= oldb@.len(),
                newb@.len() <= k,
                forall|a: int, b: int| 0 <= a < b < oldb@.len() ==> oldb@[a] != oldb@[b],
                forall|y: usize|
                    #[trigger] newb@.contains(y) ==> y != idx && (exists|k2: int|
                        0 <= k2 < k && oldb@[k2] == y),
                forall|k2: int|
                    0 <= k2 < k && oldb@[k2] != idx ==> newb@.contains(#[trigger] oldb@[k2]),
                forall|a: int, b: int| 0 <= a < b < newb@.len() ==> newb@[a] != newb@[b],
            decreases oldb@.len() - k,
        {
            let e = oldb[k];
            if e != idx {
                let ghost nb0 = newb@;
                proof {
                    if newb@.contains(e) {
                        let k2 = choose|k2: int| 0 <= k2 < k && oldb@[k2] == e;
                        assert(oldb@[k2] == oldb@[k as int]);
                    }
                }
                newb.push(e);
                proof {
                    assert(newb@ == nb0.push(e));
                    assert forall|y: usize| #[trigger] newb@.contains(y) implies y != idx && (
                    exists|k2: int| 0 <= k2 < k + 1 && oldb@[k2] == y) by {
                        let w = choose|w: int| 0 <= w < newb@.len() && newb@[w] == y;
                        if w < newb@.len() - 1 {
                            assert(nb0[w] == y);
                            assert(nb0.contains(y));
                        } else {
                            assert(oldb@[k as int] == y);
                        }
                    }
                    assert forall|k2: int| 0 <= k2 < k + 1 && oldb@[k2] != idx implies newb@.contains(
                        #[trigger] oldb@[k2],
                    ) by {
                        if k2 < k {
                            assert(nb0.contains(oldb@[k2]));
                            let w = choose|w: int| 0 <= w < nb0.len() && nb0[w] == oldb@[k2];
                            assert(newb@[w] == oldb@[k2]);
                        } else {
                            assert(newb@[newb@.len() - 1] == oldb@[k2]);
                        }
                    }
                }
            }
            k = k + 1;
        }
        let ghost g = *old(self);
        self.by_level[lvl] = newb;
        self.slots[idx] = None;
        proof {
            let f = *self;
            let lv = lvl as int;
            assert(g.peer_level_at(idx as int) == lv);
            assert forall|j: int| #[trigger] f.live(j) implies g.live(j) && j != idx && f.peer_at(
                j,
            ) == g.peer_at(j) by {}
            assert(f.buckets_point_right()) by {
                assert forall|l: int, k2: int|
                    0 <= l < LEVEL_COUNT && 0 <= k2 < f.by_level@[l]@.len() implies f.live(
                    #[trigger] f.by_level@[l]@[k2] as int,
                ) && f.peer_level_at(f.by_level@[l]@[k2] as int) == l by {
                    if l == lv {
                        let e = f.by_level@[l]@[k2];
                        assert(f.by_level@[lv]@.contains(e));
                        let k3 = choose|k3: int| 0 <= k3 < oldb@.len() && oldb@[k3] == e;
                        assert(g.live(g.by_level@[lv]@[k3] as int) && g.peer_level_at(
                            g.by_level@[lv]@[k3] as int,
                        ) == lv);
                    } else {
                        let e = f.by_level@[l]@[k2];
                        assert(e == g.by_level@[l]@[k2]);
                        assert(g.live(e as int) && g.peer_level_at(e as int) == l);
                        assert(e != idx);
                    }
                }
            }
            assert(f.buckets_distinct()) by {
                assert forall|l1: int, k1: int, l2: int, k2: int|
                    0 <= l1 < LEVEL_COUNT && 0 <= k1 < f.by_level@[l1]@.len() && 0 <= l2
                        < LEVEL_COUNT && 0 <= k2 < f.by_level@[l2]@.len() && (l1 != l2 || k1 != k2)
                        implies (#[trigger] f.by_level@[l1]@[k1]) != (
                    #[trigger] f.by_level@[l2]@[k2]) by {
                    if l1 == lv && l2 == lv {
                    } else if l1 == lv {
                        let e = f.by_level@[l1]@[k1];
                        assert(f.by_level@[lv]@.contains(e));
                        let k3 = choose|k3: int| 0 <= k3 < oldb@.len() && oldb@[k3] == e;
                        assert(g.by_level@[lv]@[k3] != g.by_level@[l2]@[k2]);
                    } else if l2 == lv {
                        let e = f.by_level@[l2]@[k2];
                        assert(f.by_level@[lv]@.contains(e));
                        let k3 = choose|k3: int| 0 <= k3 < oldb@.len() && oldb@[k3] == e;
                        assert(g.by_level@[lv]@[k3] != g.by_level@[l1]@[k1]);
                    } else {
                        assert(f.by_level@[l1]@[k1] == g.by_level@[l1]@[k1]);
                        assert(f.by_level@[l2]@[k2] == g.by_level@[l2]@[k2]);
                    }
                }
            }
            assert(f.peers_ok()) by {
                assert forall|j: int| #[trigger] f.live(j) implies f.peer_at(j).id.wf()
                    && f.peer_at(j).id.key@ != f.local_id.key@ && f.by_level@[f.peer_level_at(
                    j,
                )]@.contains(j as usize) by {
                    assert(g.live(j) && j != idx);
                    assert(f.peer_level_at(j) == g.peer_level_at(j));
                    crate::tag::lemma_level_bounds(
                        xor_bytes(g.local_id.tag@, g.peer_at(j).id.tag@),
                    );
                    let lvj = g.peer_level_at(j);
                    if lvj == lv {
                        let gb = g.by_level@[lv]@;
                        let kk = choose|kk: int| 0 <= kk < gb.len() && gb[kk] == j as usize;
                        assert(oldb@[kk] == j as usize);
                        assert(newb@.contains(j as usize));
                    } else {
                        assert(f.by_level@[lvj]@ == g.by_level@[lvj]@);
                    }
                }
            }
            assert(f.keys_unique()) by {
                assert forall|a: int, b: int|
                    #[trigger] f.live(a) && #[trigger] f.live(b) && a != b implies f.peer_at(
                    a,
                ).id.key@ != f.peer_at(b).id.key@ by {
                    assert(g.live(a) && g.live(b));
                }
            }
        }
        true
    }

    /// Whether the table holds any peer.
    pub open spec fn has_any_peer(&self) -> bool {
        exists|i: int| self.live(i)
    }

    /// A peer chosen uniformly at random, or `None` when the table is empty.
    pub fn choose_peer(&self) -> (r: Option<(PublicId, NodeAddr)>)
        requires
            self.wf(),
        ensures
            match r {
                Some(c) => c.0.wf() && self.has_peer_with(c.0.key@, c.0.tag@, c.1@),
                None => !self.has_any_peer(),
            },
    {
        let mut live_idx: Vec<usize> = Vec::new();
        let mut i: usize = 0;
        while i < self.slots.len()
            invariant
                i <= self.slots@.len(),
                forall|k: int|
                    0 <= k < live_idx@.len() ==> self.live(#[trigger] live_idx@[k] as int),
                forall|j: int|
                    0 <= j < i && #[trigger] self.live(j) ==> live_idx@.contains(j as usize),
            decreases self.slots@.len() - i,
        {
            if self.slots[i].is_some() {
                let ghost li0 = live_idx@;
                live_idx.push(i);
                proof {
                    assert(live_idx@ == li0.push(i));
                    assert forall|j: int| 0 <= j < i + 1 && #[trigger] self.live(j)
                        implies live_idx@.contains(j as usize) by {
                        if j < i {
                            assert(li0.contains(j as usize));
                            let w = choose|w: int| 0 <= w < li0.len() && li0[w] == j as usize;
                            assert(live_idx@[w] == j as usize);
                        } else {
                            assert(live_idx@[live_idx@.len() - 1] == j as usize);
                        }
                    }
                }
            }
            i = i + 1;
        }
        if live_idx.len() == 0 {
            proof {
                if self.has_any_peer() {
                    let w = choose|w: int| self.live(w);
                    assert(live_idx@.contains(w as usize));
                }
            }
            return None;
        }
        let pick = live_idx[random_below(live_idx.len())];
        proof {
            assert(self.live(pick as int));
        }
        let p = self.slots[pick].as_ref().unwrap();
        Some((p.id.duplicate(), p.addr.duplicate()))
    }

    /// Whether the peer in slot `i` may be offered for a discover request on
    /// `target` bounded by `max_level`: its tag is not the target itself and
    /// its distance to the target is within the level bound.
    pub open spec fn discover_eligible(&self, i: int, target: Seq<u8>, max_level: int) -> bool {
        self.live(i) && self.peer_at(i).id.tag@ != target && level_of(
            xor_bytes(self.peer_at(i).id.tag@, target),
        ) <= max_level
    }

    /// A peer eligible for a discover request, chosen uniformly at random
    /// among the eligible, or `None` when no peer qualifies.
    pub fn choose_discover(&self, target: &Tag, max_level: u16) -> (r: Option<(PublicId, NodeAddr)>)
        requires
            self.wf(),
            target.wf(),
        ensures
            match r {
                Some(c) => c.0.wf() && self.has_peer_with(c.0.key@, c.0.tag@, c.1@) && c.0.tag@
                    != target@ && level_of(xor_bytes(c.0.tag@, target@)) <= max_level,
                None => forall|i: int| !self.discover_eligible(i, target@, max_level as int),
            },
    {
        let mut eligible: Vec<usize> = Vec::new();
        let mut i: usize = 0;
        while i < self.slots.len()
            invariant
                self.wf(),
                target.wf(),
                i <= self.slots@.len(),
                forall|k: int|
                    0 <= k < eligible@.len() ==> self.discover_eligible(
                        #[trigger] eligible@[k] as int,
                        target@,
                        max_level as int,
                    ),
                forall|j: int|
                    0 <= j < i && #[trigger] self.discover_eligible(j, target@, max_level as int)
                        ==> eligible@.contains(j as usize),
            decreases self.slots@.len() - i,
        {
            let is_eligible = match &self.slots[i] {
                Some(p) => {
                    proof {
                        assert(self.live(i as int));
                    }
                    !(p.id.tag == *target) && p.id.tag.dist_to(target).level() <= max_level
                },
                None => false,
            };
            if is_eligible {
                let ghost el0 = eligible@;
                eligible.push(i);
                proof {
                    assert(eligible@ == el0.push(i));
                    assert forall|j: int|
                        0 <= j < i + 1 && #[trigger] self.discover_eligible(
                            j,
                            target@,
                            max_level as int,
                        ) implies eligible@.contains(j as usize) by {
                        if j < i {
                            assert(el0.contains(j as usize));
                            let w = choose|w: int| 0 <= w < el0.len() && el0[w] == j as usize;
                            assert(eligible@[w] == j as usize);
                        } else {
                            assert(eligible@[eligible@.len() - 1] == j as usize);
                        }
                    }
                }
            }
            i = i + 1;
        }
        if eligible.len() == 0 {
            proof {
                assert forall|j: int| !self.discover_eligible(
                    j,
                    target@,
                    max_level as int,
                ) by {
                    if self.discover_eligible(j, target@, max_level as int) {
                        assert(eligible@.contains(j as usize));
                    }
                }
            }
            return None;
        }
        let pick = eligible[random_below(eligible.len())];
        proof {
            assert(self.discover_eligible(pick as int, target@, max_level as int));
        }
        let p = self.slots[pick].as_ref().unwrap();
        Some((p.id.duplicate(), p.addr.duplicate()))
    }

    /// The peer strictly closer to `target` than the local node and with the
    /// smallest XOR distance to it, or `None` when no peer is strictly
    /// closer.
    pub fn closest_to(&self, target: &Tag) -> (r: Option<(PublicId, NodeAddr)>)
        requires
            self.wf(),
            target.wf(),
        ensures
            match r {
                Some(c) => c.0.wf() && self.has_peer_with(c.0.key@, c.0.tag@, c.1@) && lex_lt(
                    xor_bytes(c.0.tag@, target@),
                    xor_bytes(self.local_id.tag@, target@),
                ) && forall|i: int|
                    #[trigger] self.live(i) ==> !lex_lt(
                        xor_bytes(self.peer_at(i).id.tag@, target@),
                        xor_bytes(c.0.tag@, target@),
                    ),
                None => forall|i: int|
                    #[trigger] self.live(i) ==> !lex_lt(
                        xor_bytes(self.peer_at(i).id.tag@, target@),
                        xor_bytes(self.local_id.tag@, target@),
                    ),
            },
    {
        let mut best: Option<(usize, Tag)> = None;
        let mut i: usize = 0;
        while i < self.slots.len()
            invariant
                self.wf(),
                target.wf(),
                i <= self.slots@.len(),
                match best {
                    Some(b) => self.live(b.0 as int) && b.1.wf() && b.1@ == xor_bytes(
                        self.peer_at(b.0 as int).id.tag@,
                        target@,
                    ) && forall|j: int|
                        0 <= j < i && #[trigger] self.live(j) ==> !lex_lt(
                            xor_bytes(self.peer_at(j).id.tag@, target@),
                            b.1@,
                        ),
                    None => forall|j: int| 0 <= j < i ==> !self.live(j),
                },
            decreases self.slots@.len() - i,
        {
            let mut candidate: Option<Tag> = None;
            match &self.slots[i] {
                Some(p) => {
                    proof {
                        assert(self.live(i as int));
                    }
                    let d = p.id.tag.dist_to(target);
                    let better = match &best {
                        Some(b) => d.lt(&b.1),
                        None => true,
                    };
                    if better {
                        candidate = Some(d);
                    }
                },
                None => {},
            }
            match candidate {
                Some(d) => {
                    proof {
                        assert forall|j: int| 0 <= j < i + 1 && #[trigger] self.live(j)
                            implies !lex_lt(
                            xor_bytes(self.peer_at(j).id.tag@, target@),
                            d@,
                        ) by {
                            let dj = xor_bytes(self.peer_at(j).id.tag@, target@);
                            if lex_lt(dj, d@) {
                                crate::tag::lemma_lex_lt_be_nat(dj, d@);
                                if j < i && best is Some {
                                    let b1 = best.unwrap().1;
                                    crate::tag::lemma_lex_lt_be_nat(d@, b1@);
                                    crate::tag::lemma_be_nat_lex_lt(dj, b1@);
                                }
                            }
                        }
                    }
                    best = Some((i, d));
                },
                None => {},
            }
            i = i + 1;
        }
        match best {
            Some((bi, bd)) => {
                let self_dist = self.local_id.tag.dist_to(target);
                if bd.lt(&self_dist) {
                    let p = self.slots[bi].as_ref().unwrap();
                    Some((p.id.duplicate(), p.addr.duplicate()))
                } else {
                    proof {
                        assert forall|i2: int| #[trigger] self.live(i2) implies !lex_lt(
                            xor_bytes(self.peer_at(i2).id.tag@, target@),
                            xor_bytes(self.local_id.tag@, target@),
                        ) by {
                            let di = xor_bytes(self.peer_at(i2).id.tag@, target@);
                            let sd = xor_bytes(self.local_id.tag@, target@);
                            if lex_lt(di, sd) {
                                crate::tag::lemma_lex_trichotomy(di, bd@);
                                if di == bd@ {
                                } else if lex_lt(bd@, di) {
                                    crate::tag::lemma_lex_lt_be_nat(bd@, di);
                                    crate::tag::lemma_lex_lt_be_nat(di, sd);
                                    crate::tag::lemma_be_nat_lex_lt(bd@, sd);
                                }
                            }
                        }
                    }
                    None
                }
            },
            None => None,
        }
    }
}

/// Relies on rand::Rng::gen_range over rand::thread_rng: the result is below
/// the bound; nothing is relied upon about its distribution.
#[verifier::external_body]
fn random_below(n: usize) -> (r: usize)
    requires
        n >= 1,
    ensures
        r < n,
{
    rand::Rng::gen_range(&mut rand::thread_rng(), 0..n)
}

/// Copy a vector of slot indices.
fn copy_indices(v: &Vec<usize>) -> (r: Vec<usize>)
    ensures
        r@ == v@,
{
    let mut r: Vec<usize> = Vec::new();
    let mut i: usize = 0;
    while i < v.len()
        invariant
            i <= v@.len(),
            r@ == v@.subrange(0, i as int),
        decreases v@.len() - i,
    {
        r.push(v[i]);
        i = i + 1;
    }
    proof {
        assert(r@ =~= v@);
    }
    r
}

/// Law: the local identity is never present in the routing table.
pub proof fn lemma_local_id_absent(t: &RoutingTable, i: int)
    requires
        t.wf(),
        t.live(i),
    ensures
        t.peer_at(i).id.key@ != t.local_id.key@,
{
}

/// Law: every live peer is listed in the bucket of its distance level, and
/// no other live peer holds its key.
pub proof fn lemma_peer_indexed(t: &RoutingTable, i: int)
    requires
        t.wf(),
        t.live(i),
    ensures
        t.by_level@[t.peer_level_at(i)]@.contains(i as usize),
        forall|j: int|
            #[trigger] t.live(j) && j != i ==> t.peer_at(j).id.key@ != t.peer_at(i).id.key@,
{
}

/// Law: no bucket ever holds more than its capacity of peers.
pub proof fn lemma_bucket_bounded(t: &RoutingTable, l: int)
    requires
        t.wf(),
        0 <= l < LEVEL_COUNT,
    ensures
        t.by_level@[l]@.len() <= MAX_LEVEL_PEERS,
{
}

} // verus!
