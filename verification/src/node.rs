//! The node: identity, routing table, content store, the five inbound
//! protocol handlers, and the outbound iterative lookup, upload, download,
//! bootstrap and maintenance operations.
//!
//! All outbound traffic goes through the [`Backend`] trait: six send
//! primitives, one per protocol message. A backend delivers a message to the
//! peer at an address and hands back the decoded reply, or a transport
//! error. Identities cross the boundary only as keys that the backend
//! re-fingerprints on decode, so every identity a backend returns is well
//! formed; nothing else is assumed of replies.

use vstd::prelude::*;

use crate::identity::{PrivateId, PublicId};
use crate::routing::{NodeAddr, RoutingTable, MAX_LEVEL_PEERS};
use crate::store::{store_contains, store_lookup, ContentStore};
use crate::tag::{be_nat, digest_of, lex_lt, xor_bytes, Tag};

verus! {

/// A transport failure. Opaque to the node: the only observable is that the
/// send did not produce a reply.
pub struct TransportError {}

/// An error surfaced to callers of the outbound operations.
#[derive(Debug)]
pub enum NodeError {
    /// A peer did not respond to a send.
    NoResponse,
    /// A downloaded blob did not hash to its tag.
    IntegrityFailure,
    /// A peer claimed to hold data but returned none.
    MissingPayload,
}

impl NodeError {
    /// The user-visible description of the error.
    pub fn message(&self) -> (r: &'static str)
        ensures
            match self {
                NodeError::NoResponse => r@ == "peer did not respond"@,
                NodeError::IntegrityFailure => r@ == "integrity check failed"@,
                NodeError::MissingPayload => r@ == "peer reported data but did not provide any"@,
            },
    {
        proof {
            reveal_strlit("peer did not respond");
            reveal_strlit("integrity check failed");
            reveal_strlit("peer reported data but did not provide any");
        }
        match self {
            NodeError::NoResponse => "peer did not respond",
            NodeError::IntegrityFailure => "integrity check failed",
            NodeError::MissingPayload => "peer reported data but did not provide any",
        }
    }
}

/// The abstract transport: six outbound primitives, one per protocol
/// message. Implementations (an HTTP client, an in-process dispatcher, a
/// test double) deliver the message to the peer at `addr` and decode its
/// reply. Decoding rebuilds every identity from its key, recomputing the
/// fingerprint, so returned identities are well formed; nothing more is
/// assumed of any reply.
pub trait Backend {
    /// Deliver a greeting carrying the sender's identity and address; the
    /// reply is the peer's identity on acceptance, or an optional
    /// alternative address on refusal.
    fn send_greet(
        &mut self,
        addr: &NodeAddr,
        sender_id: &PublicId,
        sender_addr: &NodeAddr,
    ) -> (r: Result<Result<PublicId, Option<NodeAddr>>, TransportError>)
        ensures
            (match r {
                Ok(Ok(id)) => id.wf(),
                _ => true,
            }),
    ;

    /// Deliver a liveness probe; the reply is the observed round-trip time
    /// in milliseconds.
    fn send_ping(&mut self, addr: &NodeAddr) -> (r: Result<u64, TransportError>);

    /// Ask the peer for one of its peers within `max_level` of `target`.
    fn send_discover(&mut self, addr: &NodeAddr, target: &Tag, max_level: u16) -> (r: Result<
        Option<(PublicId, NodeAddr)>,
        TransportError,
    >)
        ensures
            (match r {
                Ok(Some(c)) => c.0.wf(),
                _ => true,
            }),
    ;

    /// Ask the peer whether it holds `tag` or knows somebody closer.
    fn send_locate(&mut self, addr: &NodeAddr, tag: &Tag) -> (r: Result<
        Result<bool, (PublicId, NodeAddr)>,
        TransportError,
    >)
        ensures
            (match r {
                Ok(Err(c)) => c.0.wf(),
                _ => true,
            }),
    ;

    /// Hand the peer a blob to store under its digest.
    fn send_upload(&mut self, addr: &NodeAddr, data: &Vec<u8>) -> (r: Result<
        Result<(), ()>,
        TransportError,
    >);

    /// Ask the peer for the blob stored under `tag`.
    fn send_download(&mut self, addr: &NodeAddr, tag: &Tag) -> (r: Result<
        Option<Vec<u8>>,
        TransportError,
    >);
}

/// One node of the overlay: its identity, its address, the addresses it
/// bootstraps from, its routing table and its content store.
pub struct Node {
    pub self_id: PrivateId,
    pub self_addr: NodeAddr,
    pub initial_peers: Vec<NodeAddr>,
    pub table: RoutingTable,
    pub store: ContentStore,
}

impl Node {
    /// The node invariant: the identity is well formed, the routing table
    /// is keyed to this node's identity and satisfies its invariants, and
    /// every stored blob hashes to its tag.
    pub open spec fn wf(&self) -> bool {
        &&& self.self_id.wf()
        &&& self.table.wf()
        &&& self.store.wf()
        &&& self.table.local_id.key@ == self.self_id.pub_id.key@
        &&& self.table.local_id.tag@ == self.self_id.pub_id.tag@
    }

    /// Build a node with an empty routing table and an empty content store.
    pub fn new(self_id: PrivateId, self_addr: NodeAddr, initial_peers: Vec<NodeAddr>) -> (r: Node)
        requires
            self_id.wf(),
        ensures
            r.wf(),
            r.self_id == self_id,
            r.self_addr == self_addr,
            r.initial_peers == initial_peers,
            r.table.slots@.len() == 0,
            r.store@.len() == 0,
    {
        let table = RoutingTable::new(self_id.pub_id.duplicate());
        Node { self_id, self_addr, initial_peers, table, store: ContentStore::new() }
    }

    /// The node's public identity.
    pub fn id(&self) -> (r: &PublicId)
        ensures
            r == &self.self_id.pub_id,
    {
        &self.self_id.pub_id
    }

    /// The node's own address.
    pub fn addr(&self) -> (r: &NodeAddr)
        ensures
            r == &self.self_addr,
    {
        &self.self_addr
    }

    /// The identities of all known peers: every live peer's identity is in
    /// the returned list, every listed identity is a live peer's, no key is
    /// listed twice, and the node's own identity is never listed.
    pub fn get_peers(&self) -> (r: Vec<PublicId>)
        requires
            self.wf(),
        ensures
            forall|i: int|
                #[trigger] self.table.live(i) ==> exists|k: int|
                    0 <= k < r@.len() && (#[trigger] r@[k]).key@ == self.table.peer_at(i).id.key@,
            forall|k: int|
                #![trigger r@[k]]
                0 <= k < r@.len() ==> self.table.has_id(r@[k].key@, r@[k].tag@),
            forall|k: int|
                #![trigger r@[k]]
                0 <= k < r@.len() ==> r@[k].key@ != self.self_id.pub_id.key@,
            forall|k1: int, k2: int|
                0 <= k1 < k2 < r@.len() ==> (#[trigger] r@[k1]).key@ != (#[trigger] r@[k2]).key@,
    {
        let mut r: Vec<PublicId> = Vec::new();
        let mut i: usize = 0;
        while i < self.table.slots.len()
            invariant
                self.wf(),
                i <= self.table.slots@.len(),
                forall|j: int|
                    0 <= j < i && #[trigger] self.table.live(j) ==> exists|k: int|
                        0 <= k < r@.len() && (#[trigger] r@[k]).key@ == self.table.peer_at(j).id.key@,
                forall|k: int|
                    #![trigger r@[k]]
                    0 <= k < r@.len() ==> self.table.has_id(r@[k].key@, r@[k].tag@)
                        && self.table.has_id_below(i as int, r@[k].key@) && r@[k].key@
                        != self.self_id.pub_id.key@,
                forall|k1: int, k2: int|
                    0 <= k1 < k2 < r@.len() ==> (#[trigger] r@[k1]).key@ != (#[trigger] r@[k2]).key@,
            decreases self.table.slots@.len() - i,
        {
            match &self.table.slots[i] {
                Some(p) => {
                    proof {
                        assert(self.table.live(i as int));
                    }
                    let ghost r0 = r@;
                    r.push(p.id.duplicate());
                    proof {
                        let last = r@.len() - 1;
                        assert(r@ == r0.push(r@[last]));
                        assert(r@[last].key@ == self.table.peer_at(i as int).id.key@);
                        assert(r@[last].tag@ == self.table.peer_at(i as int).id.tag@);
                        assert forall|j: int| 0 <= j < i + 1 && #[trigger] self.table.live(j)
                            implies exists|k: int|
                            0 <= k < r@.len() && (#[trigger] r@[k]).key@ == self.table.peer_at(
                            j,
                        ).id.key@ by {
                            if j < i {
                                let k = choose|k: int|
                                    0 <= k < r0.len() && (#[trigger] r0[k]).key@ == self.table.peer_at(
                                        j,
                                    ).id.key@;
                                assert(r@[k].key@ == self.table.peer_at(j).id.key@);
                            } else {
                                assert(r@[last].key@ == self.table.peer_at(j).id.key@);
                            }
                        }
                        assert forall|k: int| #![trigger r@[k]] 0 <= k < r@.len()
                            implies self.table.has_id(r@[k].key@, r@[k].tag@)
                                && self.table.has_id_below(i + 1, r@[k].key@) && r@[k].key@
                                != self.self_id.pub_id.key@ by {
                            if k < last {
                                assert(r@[k] == r0[k]);
                                assert(self.table.has_id_below(i as int, r0[k].key@));
                                let w = choose|w: int|
                                    w < i && self.table.live(w) && (#[trigger] self.table.peer_at(
                                        w,
                                    )).id.key@ == r0[k].key@;
                                assert(w < i + 1 && self.table.live(w) && self.table.peer_at(
                                    w,
                                ).id.key@ == r@[k].key@);
                            } else {
                                assert(self.table.live(i as int) && self.table.peer_at(
                                    i as int,
                                ).id.key@ == r@[k].key@ && self.table.peer_at(i as int).id.tag@
                                    == r@[k].tag@);
                                assert((i as int) < i + 1);
                            }
                        }
                        assert forall|k1: int, k2: int| 0 <= k1 < k2 < r@.len()
                            implies (#[trigger] r@[k1]).key@ != (#[trigger] r@[k2]).key@ by {
                            if k2 == last {
                                assert(r@[k1] == r0[k1]);
                                assert(self.table.has_id_below(i as int, r0[k1].key@));
                                if r@[k1].key@ == r@[last].key@ {
                                    let w = choose|w: int|
                                        w < i && self.table.live(w) && (
                                        #[trigger] self.table.peer_at(w)).id.key@ == r0[k1].key@;
                                    assert(self.table.peer_at(w).id.key@ != self.table.peer_at(
                                        i as int,
                                    ).id.key@);
                                }
                            } else {
                                assert(r@[k1] == r0[k1] && r@[k2] == r0[k2]);
                            }
                        }
                    }
                },
                None => {},
            }
            i = i + 1;
        }
        r
    }

    /// Whether a peer with this identity could be accepted now: it is not
    /// this node, it is not already known, and the bucket of its level has
    /// room.
    pub fn can_accept_peer(&self, id: &PublicId) -> (r: bool)
        requires
            self.wf(),
            id.wf(),
        ensures
            r == (id.key@ != self.self_id.pub_id.key@ && !self.table.contains_key(id.key@)
                && self.table.by_level@[crate::routing::peer_level(
                self.self_id.pub_id.tag@,
                id.tag@,
            )]@.len() < MAX_LEVEL_PEERS),
    {
        self.table.can_accept(id)
    }

    /// Probe a candidate peer and record it on success: the peer is pinged
    /// first; only a peer that answered is inserted (or, if racing callers
    /// already inserted it, its probe time is updated). Refused outright
    /// when the identity is this node's or is already known.
    pub fn accept_peer<T: Backend>(&mut self, t: &mut T, id: PublicId, addr: NodeAddr) -> (r: bool)
        requires
            old(self).wf(),
            id.wf(),
        ensures
            final(self).wf(),
            final(self).self_id == old(self).self_id,
            final(self).self_addr == old(self).self_addr,
            final(self).initial_peers == old(self).initial_peers,
            final(self).store == old(self).store,
            r ==> final(self).table.contains_key(id.key@),
            !r ==> final(self).table == old(self).table,
            id.key@ == old(self).self_id.pub_id.key@ || old(self).table.contains_key(id.key@)
                ==> !r,
            forall|i: int|
                old(self).table.live(i) ==> #[trigger] final(self).table.live(i) && final(self).table.peer_at(i).id.key@ == old(self).table.peer_at(i).id.key@ && final(self).table.peer_at(i).id.tag@ == old(self).table.peer_at(i).id.tag@ && final(self).table.peer_at(i).addr@ == old(self).table.peer_at(i).addr@,
            forall|i: int|
                #[trigger] final(self).table.live(i) ==> old(self).table.live(i) || (final(self).table.peer_at(i).id.key@ == id.key@ && final(self).table.peer_at(i).id.tag@ == id.tag@ && final(self).table.peer_at(i).addr@ == addr@),
    {
        if self.self_id.pub_id.same_key(&id) {
            return false;
        }
        if self.table.knows(&id) {
            return false;
        }
        match t.send_ping(&addr) {
            Ok(ping_ms) => self.table.insert_or_update(id, addr, ping_ms),
            Err(_) => false,
        }
    }

    /// The greet handler: accept the sender as a peer if possible (probing
    /// it first), else point it at one of the existing peers, chosen at
    /// random, as an alternative to try.
    pub fn recv_greet<T: Backend>(
        &mut self,
        t: &mut T,
        sender_id: PublicId,
        sender_addr: NodeAddr,
    ) -> (r: Result<PublicId, Option<NodeAddr>>)
        requires
            old(self).wf(),
            sender_id.wf(),
        ensures
            final(self).wf(),
            final(self).self_id == old(self).self_id,
            final(self).self_addr == old(self).self_addr,
            final(self).store == old(self).store,
            match r {
                Ok(id) => id.key@ == old(self).self_id.pub_id.key@ && id.tag@ == old(self).self_id.pub_id.tag@ && final(self).table.contains_key(sender_id.key@),
                Err(Some(a)) => exists|i: int|
                    #[trigger] final(self).table.live(i) && final(self).table.peer_at(i).addr@
                        == a@,
                Err(None) => !final(self).table.has_any_peer(),
            },
            sender_id.key@ == old(self).self_id.pub_id.key@ || old(self).table.contains_key(
                sender_id.key@,
            ) || old(self).table.by_level@[crate::routing::peer_level(
                old(self).self_id.pub_id.tag@,
                sender_id.tag@,
            )]@.len() >= MAX_LEVEL_PEERS ==> r is Err,
            r is Err ==> final(self).table == old(self).table,
            forall|i: int|
                old(self).table.live(i) ==> #[trigger] final(self).table.live(i) && final(self).table.peer_at(i).id.key@ == old(self).table.peer_at(i).id.key@ && final(self).table.peer_at(i).id.tag@ == old(self).table.peer_at(i).id.tag@ && final(self).table.peer_at(i).addr@ == old(self).table.peer_at(i).addr@,
            forall|i: int|
                #[trigger] final(self).table.live(i) ==> old(self).table.live(i) || (final(self).table.peer_at(i).id.key@ == sender_id.key@ && final(self).table.peer_at(i).addr@ == sender_addr@),
    {
        if self.can_accept_peer(&sender_id) {
            if self.accept_peer(t, sender_id, sender_addr) {
                return Ok(self.self_id.pub_id.duplicate());
            }
        }
        match self.table.choose_peer() {
            Some((_id, a)) => Err(Some(a)),
            None => Err(None),
        }
    }

    /// The ping handler: nothing to do; the caller measures the round trip.
    pub fn recv_ping(&self) {
    }

    /// The discover handler: offer one peer within `max_level` of `target`,
    /// chosen uniformly at random among the eligible; never the target
    /// itself, never this node.
    pub fn recv_discover(&self, target: &Tag, max_level: u16) -> (r: Option<(PublicId, NodeAddr)>)
        requires
            self.wf(),
            target.wf(),
        ensures
            match r {
                Some(c) => c.0.wf() && self.table.has_peer_with(c.0.key@, c.0.tag@, c.1@)
                    && c.0.tag@ != target@ && crate::tag::level_of(xor_bytes(c.0.tag@, target@))
                    <= max_level,
                None => forall|i: int| !self.table.discover_eligible(i, target@, max_level as int),
            },
    {
        self.table.choose_discover(target, max_level)
    }

    /// The bytes stored under `tag`, or `None`.
    pub fn load_data(&self, tag: &Tag) -> (r: Option<Vec<u8>>)
        ensures
            match r {
                Some(d) => store_lookup(self.store@, tag@) == Some(d@),
                None => !store_contains(self.store@, tag@),
            },
    {
        self.store.get(tag)
    }

    /// Whether data is stored under `tag`.
    pub fn has_data(&self, tag: &Tag) -> (r: bool)
        ensures
            r == store_contains(self.store@, tag@),
    {
        self.store.has(tag)
    }

    /// Store `data` under `tag`, write-once: a second blob under the same
    /// tag is silently dropped and the first bytes are kept.
    pub fn save_data(&mut self, tag: Tag, data: Vec<u8>)
        requires
            old(self).wf(),
            tag.wf(),
            tag@ == digest_of(data@),
        ensures
            final(self).wf(),
            final(self).self_id == old(self).self_id,
            final(self).self_addr == old(self).self_addr,
            final(self).table == old(self).table,
            store_contains(final(self).store@, tag@),
            store_contains(old(self).store@, tag@) ==> final(self).store@ == old(self).store@,
            !store_contains(old(self).store@, tag@) ==> final(self).store@ == old(self).store@.push((tag@, data@)) && store_lookup(final(self).store@, tag@) == Some(data@),
            forall|q: Seq<u8>|
                q != tag@ ==> #[trigger] store_lookup(final(self).store@, q) == store_lookup(
                    old(self).store@,
                    q,
                ),
    {
        self.store.insert(tag, data);
    }

    /// The download handler: the stored bytes, or `None`.
    pub fn recv_download(&self, tag: &Tag) -> (r: Option<Vec<u8>>)
        ensures
            match r {
                Some(d) => store_lookup(self.store@, tag@) == Some(d@),
                None => !store_contains(self.store@, tag@),
            },
    {
        self.load_data(tag)
    }

    /// The upload handler: store the blob under its digest, write-once.
    /// Always succeeds; the error is reserved.
    pub fn recv_upload(&mut self, data: Vec<u8>) -> (r: Result<(), ()>)
        requires
            old(self).wf(),
        ensures
            final(self).wf(),
            final(self).self_id == old(self).self_id,
            final(self).self_addr == old(self).self_addr,
            final(self).table == old(self).table,
            r is Ok,
            store_contains(final(self).store@, digest_of(data@)),
            store_contains(old(self).store@, digest_of(data@)) ==> final(self).store@ == old(self).store@,
            !store_contains(old(self).store@, digest_of(data@)) ==> final(self).store@ == old(self).store@.push((digest_of(data@), data@)),
    {
        let tag = Tag::digest(data.as_slice());
        self.save_data(tag, data);
        Ok(())
    }

    /// The locate handler: `Ok(true)` when the data is here, the closest
    /// strictly-closer peer when one exists, and `Ok(false)` when this node
    /// is the local minimum.
    pub fn recv_locate(&self, tag: &Tag) -> (r: Result<bool, (PublicId, NodeAddr)>)
        requires
            self.wf(),
            tag.wf(),
        ensures
            match r {
                Ok(true) => store_contains(self.store@, tag@),
                Ok(false) => !store_contains(self.store@, tag@) && forall|i: int|
                    #[trigger] self.table.live(i) ==> !lex_lt(
                        xor_bytes(self.table.peer_at(i).id.tag@, tag@),
                        xor_bytes(self.self_id.pub_id.tag@, tag@),
                    ),
                Err(c) => !store_contains(self.store@, tag@) && c.0.wf()
                    && self.table.has_peer_with(c.0.key@, c.0.tag@, c.1@) && lex_lt(
                    xor_bytes(c.0.tag@, tag@),
                    xor_bytes(self.self_id.pub_id.tag@, tag@),
                ) && forall|i: int|
                    #[trigger] self.table.live(i) ==> !lex_lt(
                        xor_bytes(self.table.peer_at(i).id.tag@, tag@),
                        xor_bytes(c.0.tag@, tag@),
                    ),
            },
    {
        if self.has_data(tag) {
            Ok(true)
        } else {
            match self.table.closest_to(tag) {
                Some(c) => Err(c),
                None => Ok(false),
            }
        }
    }
}

impl Node {
    /// Probe the node at `addr` with a greeting and, when it accepts, ping
    /// and record it. `Ok` means the greeting was accepted (whether or not
    /// the follow-up probe succeeded); `Err` carries the refusing peer's
    /// suggested alternative address, if it offered one.
    pub fn discover_peer<T: Backend>(
        &mut self,
        t: &mut T,
        supposed_id: Option<&PublicId>,
        addr: NodeAddr,
    ) -> (r: Result<(), Option<NodeAddr>>)
        requires
            old(self).wf(),
            (match supposed_id {
                Some(id) => id.wf(),
                None => true,
            }),
        ensures
            final(self).wf(),
            final(self).self_id == old(self).self_id,
            final(self).self_addr == old(self).self_addr,
            final(self).initial_peers == old(self).initial_peers,
            final(self).store == old(self).store,
            (match supposed_id {
                Some(sid) => !(sid.key@ != old(self).self_id.pub_id.key@ && !old(self).table.contains_key(sid.key@) && old(self).table.by_level@[crate::routing::peer_level(
                    old(self).self_id.pub_id.tag@,
                    sid.tag@,
                )]@.len() < MAX_LEVEL_PEERS) ==> (match r {
                    Err(None) => true,
                    _ => false,
                }) && *final(self) == *old(self),
                None => true,
            }),
            r is Err ==> *final(self) == *old(self),
            forall|i: int|
                old(self).table.live(i) ==> #[trigger] final(self).table.live(i) && final(self).table.peer_at(i).id.key@ == old(self).table.peer_at(i).id.key@ && final(self).table.peer_at(i).id.tag@ == old(self).table.peer_at(i).id.tag@ && final(self).table.peer_at(i).addr@ == old(self).table.peer_at(i).addr@,
            forall|i: int|
                #[trigger] final(self).table.live(i) ==> old(self).table.live(i) || final(self).table.peer_at(i).addr@ == addr@,
    {
        let acceptable = match supposed_id {
            Some(sid) => self.can_accept_peer(sid),
            None => true,
        };
        if !acceptable {
            return Err(None);
        }
        match t.send_greet(&addr, &self.self_id.pub_id, &self.self_addr) {
            Ok(Ok(id)) => {
                let matches_expected = match supposed_id {
                    Some(sid) => sid.same_key(&id),
                    None => true,
                };
                if matches_expected {
                    self.accept_peer(t, id, addr);
                    Ok(())
                } else {
                    Err(None)
                }
            },
            Ok(Err(alt)) => Err(alt),
            Err(_) => Err(None),
        }
    }

    /// The iterative lookup: find who claims to hold `tag`, or report this
    /// node as the effective nearest. The walk starts at the strictly
    /// closest known peer and advances only to nodes strictly closer to the
    /// target, so the XOR distance descends and the walk terminates; a hop
    /// that answers with anything else ends the walk at this node.
    pub fn locate_data<T: Backend>(&self, t: &mut T, tag: &Tag) -> (r: Result<
        (bool, (PublicId, NodeAddr)),
        NodeError,
    >)
        requires
            self.wf(),
            tag.wf(),
        ensures
            match r {
                Ok(found_holder) => {
                    &&& found_holder.1.0.wf()
                    &&& store_contains(self.store@, tag@) ==> found_holder.0
                        && found_holder.1.0.key@ == self.self_id.pub_id.key@
                        && found_holder.1.1@ == self.self_addr@
                    &&& !found_holder.0 ==> found_holder.1.0.key@ == self.self_id.pub_id.key@
                        && found_holder.1.0.tag@ == self.self_id.pub_id.tag@ && found_holder.1.1@
                        == self.self_addr@ && !store_contains(self.store@, tag@)
                },
                Err(e) => e is NoResponse,
            },
            store_contains(self.store@, tag@) ==> r is Ok,
            !store_contains(self.store@, tag@) && (forall|i: int|
                #[trigger] self.table.live(i) ==> !lex_lt(
                    xor_bytes(self.table.peer_at(i).id.tag@, tag@),
                    xor_bytes(self.self_id.pub_id.tag@, tag@),
                )) ==> (match r {
                Ok(fh) => !fh.0,
                Err(_) => false,
            }),
            (match r {
                Ok(fh) => fh.0 && fh.1.0.key@ == self.self_id.pub_id.key@ ==> store_contains(
                    self.store@,
                    tag@,
                ),
                Err(_) => true,
            }),
    {
        if self.has_data(tag) {
            return Ok((true, (self.self_id.pub_id.duplicate(), self.self_addr.duplicate())));
        }
        let mut cur = match self.table.closest_to(tag) {
            Some(c) => c,
            None => {
                return Ok(
                    (false, (self.self_id.pub_id.duplicate(), self.self_addr.duplicate())),
                );
            },
        };
        proof {
            let w = choose|w: int|
                self.table.live(w) && (#[trigger] self.table.peer_at(w)).id.key@ == cur.0.key@
                    && self.table.peer_at(w).id.tag@ == cur.0.tag@ && self.table.peer_at(w).addr@
                    == cur.1@;
            assert(self.table.live(w) && lex_lt(
                xor_bytes(self.table.peer_at(w).id.tag@, tag@),
                xor_bytes(self.self_id.pub_id.tag@, tag@),
            ));
        }
        loop
            invariant
                self.wf(),
                tag.wf(),
                cur.0.wf(),
                !store_contains(self.store@, tag@),
                lex_lt(xor_bytes(cur.0.tag@, tag@), xor_bytes(self.self_id.pub_id.tag@, tag@)),
                exists|i: int|
                    #[trigger] self.table.live(i) && lex_lt(
                        xor_bytes(self.table.peer_at(i).id.tag@, tag@),
                        xor_bytes(self.self_id.pub_id.tag@, tag@),
                    ),
            decreases be_nat(xor_bytes(cur.0.tag@, tag@)),
        {
            match t.send_locate(&cur.1, tag) {
                Ok(Ok(has)) => {
                    if has {
                        proof {
                            if cur.0.key@ == self.self_id.pub_id.key@ {
                                assert(cur.0.tag@ == self.self_id.pub_id.tag@);
                                crate::tag::lemma_lex_lt_be_nat(
                                    xor_bytes(cur.0.tag@, tag@),
                                    xor_bytes(self.self_id.pub_id.tag@, tag@),
                                );
                            }
                        }
                        return Ok((true, cur));
                    } else {
                        return Ok(
                            (false, (self.self_id.pub_id.duplicate(), self.self_addr.duplicate())),
                        );
                    }
                },
                Ok(Err(next)) => {
                    let next_dist = next.0.tag.dist_to(tag);
                    let cur_dist = cur.0.tag.dist_to(tag);
                    if next_dist.lt(&cur_dist) {
                        proof {
                            crate::tag::lemma_lex_lt_be_nat(
                                xor_bytes(next.0.tag@, tag@),
                                xor_bytes(cur.0.tag@, tag@),
                            );
                            crate::tag::lemma_lex_lt_be_nat(
                                xor_bytes(cur.0.tag@, tag@),
                                xor_bytes(self.self_id.pub_id.tag@, tag@),
                            );
                            crate::tag::lemma_be_nat_lex_lt(
                                xor_bytes(next.0.tag@, tag@),
                                xor_bytes(self.self_id.pub_id.tag@, tag@),
                            );
                        }
                        cur = next;
                    } else {
                        return Ok(
                            (false, (self.self_id.pub_id.duplicate(), self.self_addr.duplicate())),
                        );
                    }
                },
                Err(_) => {
                    return Err(NodeError::NoResponse);
                },
            }
        }
    }

    /// Upload a blob to the overlay: locate the nearest node for its
    /// digest; when a node already claims the tag the digest is returned as
    /// is, when this node is the nearest the blob is stored here, and
    /// otherwise the blob is sent to the nearest node.
    pub fn do_upload<T: Backend>(&mut self, t: &mut T, data: Vec<u8>) -> (r: Result<
        Tag,
        NodeError,
    >)
        requires
            old(self).wf(),
        ensures
            final(self).wf(),
            final(self).self_id == old(self).self_id,
            final(self).self_addr == old(self).self_addr,
            final(self).table == old(self).table,
            match r {
                Ok(tg) => tg.wf() && tg@ == digest_of(data@),
                Err(e) => e is NoResponse,
            },
            final(self).store@ == old(self).store@ || final(self).store@ == old(self).store@.push(
                (digest_of(data@), data@),
            ),
            final(self).store@ != old(self).store@ ==> store_contains(
                final(self).store@,
                digest_of(data@),
            ),
            store_contains(old(self).store@, digest_of(data@)) ==> r is Ok && final(self).store@
                == old(self).store@,
            !store_contains(old(self).store@, digest_of(data@)) && (forall|i: int|
                #[trigger] old(self).table.live(i) ==> !lex_lt(
                    xor_bytes(old(self).table.peer_at(i).id.tag@, digest_of(data@)),
                    xor_bytes(old(self).self_id.pub_id.tag@, digest_of(data@)),
                )) ==> r is Ok && store_lookup(final(self).store@, digest_of(data@)) == Some(
                data@,
            ),
            r is Err ==> final(self).store@ == old(self).store@,
    {
        let tag = Tag::digest(data.as_slice());
        match self.locate_data(t, &tag) {
            Ok((true, _)) => Ok(tag),
            Ok((false, closest)) => {
                if closest.0.tag == self.self_id.pub_id.tag {
                    self.save_data(tag.duplicate(), data);
                    Ok(tag)
                } else {
                    match t.send_upload(&closest.1, &data) {
                        Ok(Ok(())) => Ok(tag),
                        Ok(Err(())) => Err(NodeError::NoResponse),
                        Err(_) => Err(NodeError::NoResponse),
                    }
                }
            },
            Err(e) => Err(e),
        }
    }

    /// Download the blob stored under `tag`: locate a holder, fetch the
    /// bytes (locally when this node is the holder), and accept them only
    /// when they hash back to the tag; a mismatch is an integrity failure
    /// and the bytes are discarded.
    pub fn do_download<T: Backend>(&self, t: &mut T, tag: &Tag) -> (r: Result<
        Option<Vec<u8>>,
        NodeError,
    >)
        requires
            self.wf(),
            tag.wf(),
        ensures
            match r {
                Ok(Some(d)) => digest_of(d@) == tag@,
                Ok(None) => !store_contains(self.store@, tag@),
                Err(e) => true,
            },
            store_contains(self.store@, tag@) ==> (match r {
                Ok(Some(d)) => store_lookup(self.store@, tag@) == Some(d@),
                _ => false,
            }),
            !store_contains(self.store@, tag@) && (forall|i: int|
                #[trigger] self.table.live(i) ==> !lex_lt(
                    xor_bytes(self.table.peer_at(i).id.tag@, tag@),
                    xor_bytes(self.self_id.pub_id.tag@, tag@),
                )) ==> (match r {
                Ok(d) => d is None,
                Err(_) => false,
            }),
    {
        match self.locate_data(t, tag) {
            Ok((true, closest)) => {
                if closest.0.same_key(&self.self_id.pub_id) {
                    let local = self.load_data(tag);
                    proof {
                        match &local {
                            Some(d) => {
                                crate::store::lemma_store_integrity(self.store, tag@, d@);
                            },
                            None => {},
                        }
                    }
                    Ok(local)
                } else {
                    check_download_reply(tag, t.send_download(&closest.1, tag))
                }
            },
            Ok((false, _)) => Ok(None),
            Err(e) => Err(e),
        }
    }

    /// One liveness round: snapshot the known peers, probe each one, and
    /// evict every peer whose probe failed. No peer is added.
    pub fn ping_round<T: Backend>(&mut self, t: &mut T)
        requires
            old(self).wf(),
        ensures
            final(self).wf(),
            final(self).self_id == old(self).self_id,
            final(self).self_addr == old(self).self_addr,
            final(self).initial_peers == old(self).initial_peers,
            final(self).store == old(self).store,
            final(self).table.slots@.len() == old(self).table.slots@.len(),
            forall|i: int|
                #[trigger] final(self).table.live(i) ==> old(self).table.live(i) && final(self).table.slots@[i] == old(self).table.slots@[i],
    {
        let mut targets: Vec<(usize, NodeAddr)> = Vec::new();
        let mut i: usize = 0;
        while i < self.table.slots.len()
            invariant
                i <= self.table.slots@.len(),
                forall|k: int|
                    0 <= k < targets@.len() ==> (#[trigger] targets@[k]).0
                        < self.table.slots@.len(),
            decreases self.table.slots@.len() - i,
        {
            match &self.table.slots[i] {
                Some(p) => {
                    targets.push((i, p.addr.duplicate()));
                },
                None => {},
            }
            i = i + 1;
        }
        let mut k: usize = 0;
        while k < targets.len()
            invariant
                self.wf(),
                self.self_id == old(self).self_id,
                self.self_addr == old(self).self_addr,
                self.initial_peers == old(self).initial_peers,
                self.store == old(self).store,
                self.table.slots@.len() == old(self).table.slots@.len(),
                k <= targets@.len(),
                forall|k2: int|
                    0 <= k2 < targets@.len() ==> (#[trigger] targets@[k2]).0
                        < self.table.slots@.len(),
                forall|i2: int|
                    #[trigger] self.table.live(i2) ==> old(self).table.live(i2)
                        && self.table.slots@[i2] == old(self).table.slots@[i2],
            decreases targets@.len() - k,
        {
            let idx = targets[k].0;
            match t.send_ping(&targets[k].1) {
                Ok(_) => {},
                Err(_) => {
                    let ghost tb = self.table;
                    self.table.remove(idx);
                    proof {
                        assert forall|i2: int| #[trigger] self.table.live(i2) implies old(self).table.live(i2) && self.table.slots@[i2] == old(self).table.slots@[i2] by {
                            assert(i2 != idx);
                            assert(self.table.slots@[i2] == tb.slots@[i2]);
                            assert(tb.live(i2));
                        }
                    }
                },
            }
            k = k + 1;
        }
    }

    /// One discovery round: start from a random peer and walk levels 255
    /// down to 0, asking each hop for a peer within the level of this
    /// node's own tag and greeting whatever comes back. A hop with nothing
    /// to offer ends the walk; so does a reply outside the requested level,
    /// without the offender being greeted or evicted.
    pub fn discover_round<T: Backend>(&mut self, t: &mut T)
        requires
            old(self).wf(),
        ensures
            final(self).wf(),
            final(self).self_id == old(self).self_id,
            final(self).self_addr == old(self).self_addr,
            final(self).initial_peers == old(self).initial_peers,
            final(self).store == old(self).store,
            forall|i: int|
                #[trigger] old(self).table.live(i) ==> final(self).table.live(i) && final(self).table.peer_at(i).id.key@ == old(self).table.peer_at(i).id.key@ && final(self).table.peer_at(i).id.tag@ == old(self).table.peer_at(i).id.tag@ && final(self).table.peer_at(i).addr@ == old(self).table.peer_at(i).addr@,
    {
        let mut cur = match self.table.choose_peer() {
            Some(c) => c,
            None => {
                return;
            },
        };
        let mut level: u16 = 255;
        loop
            invariant
                self.wf(),
                self.self_id == old(self).self_id,
                self.self_addr == old(self).self_addr,
                self.initial_peers == old(self).initial_peers,
                self.store == old(self).store,
                level <= 255,
                forall|i: int|
                    #[trigger] old(self).table.live(i) ==> self.table.live(i) && self.table.peer_at(i).id.key@ == old(self).table.peer_at(i).id.key@ && self.table.peer_at(i).id.tag@ == old(self).table.peer_at(i).id.tag@ && self.table.peer_at(i).addr@ == old(self).table.peer_at(i).addr@,
            decreases level,
        {
            let target = self.self_id.pub_id.tag.duplicate();
            match t.send_discover(&cur.1, &target, level) {
                Ok(Some(closest)) => {
                    let offered_level = closest.0.tag.dist_to(&self.self_id.pub_id.tag).level();
                    if offered_level <= level {
                        let _ = self.discover_peer(t, Some(&closest.0), closest.1.duplicate());
                        cur = closest;
                    } else {
                        return;
                    }
                },
                Ok(None) => {
                    return;
                },
                Err(_) => {},
            }
            if level == 0 {
                return;
            }
            level = level - 1;
        }
    }

    /// Walk the configured initial addresses: greet each one, following the
    /// suggested alternatives of refusing peers, until a greeting is
    /// accepted or a dead end is reached.
    pub fn bootstrap<T: Backend>(&mut self, t: &mut T)
        requires
            old(self).wf(),
        ensures
            final(self).wf(),
            final(self).self_id == old(self).self_id,
            final(self).self_addr == old(self).self_addr,
            final(self).initial_peers == old(self).initial_peers,
            final(self).store == old(self).store,
            forall|i: int|
                #[trigger] old(self).table.live(i) ==> final(self).table.live(i) && final(self).table.peer_at(i).id.key@ == old(self).table.peer_at(i).id.key@ && final(self).table.peer_at(i).id.tag@ == old(self).table.peer_at(i).id.tag@ && final(self).table.peer_at(i).addr@ == old(self).table.peer_at(i).addr@,
    {
        let mut pi: usize = 0;
        while pi < self.initial_peers.len()
            invariant
                self.wf(),
                self.self_id == old(self).self_id,
                self.self_addr == old(self).self_addr,
                self.initial_peers == old(self).initial_peers,
                self.store == old(self).store,
                pi <= self.initial_peers@.len(),
                forall|i: int|
                    #[trigger] old(self).table.live(i) ==> self.table.live(i) && self.table.peer_at(i).id.key@ == old(self).table.peer_at(i).id.key@ && self.table.peer_at(i).id.tag@ == old(self).table.peer_at(i).id.tag@ && self.table.peer_at(i).addr@ == old(self).table.peer_at(i).addr@,
            decreases self.initial_peers@.len() - pi,
        {
            let mut a = self.initial_peers[pi].duplicate();
            // A redirect chain longer than the keyspace has levels is going
            // in circles; abandon this initial address then.
            let mut redirects_left: usize = crate::routing::LEVEL_COUNT;
            loop
                invariant
                    self.wf(),
                    self.self_id == old(self).self_id,
                    self.self_addr == old(self).self_addr,
                    self.initial_peers == old(self).initial_peers,
                    self.store == old(self).store,
                    forall|i: int|
                        #[trigger] old(self).table.live(i) ==> self.table.live(i) && self.table.peer_at(i).id.key@ == old(self).table.peer_at(i).id.key@ && self.table.peer_at(i).id.tag@ == old(self).table.peer_at(i).id.tag@ && self.table.peer_at(i).addr@ == old(self).table.peer_at(i).addr@,
                decreases redirects_left,
            {
                let ghost pre = *self;
                let outcome = self.discover_peer(t, None, a);
                proof {
                    assert forall|i: int| #[trigger] old(self).table.live(i)
                        implies self.table.live(i) && self.table.peer_at(i).id.key@ == old(self).table.peer_at(i).id.key@ && self.table.peer_at(i).id.tag@ == old(self).table.peer_at(i).id.tag@ && self.table.peer_at(i).addr@ == old(self).table.peer_at(i).addr@ by {
                        assert(pre.table.live(i));
                        assert(pre.table.peer_at(i).id.key@ == old(self).table.peer_at(i).id.key@);
                        assert(self.table.live(i));
                        assert(self.table.peer_at(i).id.key@ == pre.table.peer_at(i).id.key@);
                        assert(self.table.peer_at(i).id.tag@ == pre.table.peer_at(i).id.tag@);
                        assert(self.table.peer_at(i).addr@ == pre.table.peer_at(i).addr@);
                    }
                }
                match outcome {
                    Ok(()) => {
                        break;
                    },
                    Err(None) => {
                        break;
                    },
                    Err(Some(alt)) => {
                        a = alt;
                    },
                }
                if redirects_left == 0 {
                    break;
                }
                redirects_left = redirects_left - 1;
            }
            pi = pi + 1;
        }
    }
}

/// Judge a holder's download reply for `tag`: the bytes are accepted only
/// when they hash back to the tag; a mismatch is an integrity failure, a
/// claimed hit without bytes is a missing payload, and a transport failure
/// is no response.
pub fn check_download_reply(tag: &Tag, reply: Result<Option<Vec<u8>>, TransportError>) -> (r:
    Result<Option<Vec<u8>>, NodeError>)
    ensures
        match reply {
            Ok(Some(d)) => if digest_of(d@) == tag@ {
                (match r {
                    Ok(Some(d2)) => d2@ == d@,
                    _ => false,
                })
            } else {
                (match r {
                    Err(e) => e is IntegrityFailure,
                    _ => false,
                })
            },
            Ok(None) => (match r {
                Err(e) => e is MissingPayload,
                _ => false,
            }),
            Err(_) => (match r {
                Err(e) => e is NoResponse,
                _ => false,
            }),
        },
{
    match reply {
        Ok(Some(data)) => {
            let check = Tag::digest(data.as_slice());
            if check == *tag {
                Ok(Some(data))
            } else {
                Err(NodeError::IntegrityFailure)
            }
        },
        Ok(None) => Err(NodeError::MissingPayload),
        Err(_) => Err(NodeError::NoResponse),
    }
}

/// Law: uploading the same bytes twice yields the same tag: an upload's tag
/// is the digest of its bytes, and the digest is a function of the bytes
/// alone.
pub proof fn lemma_upload_tag_deterministic(data1: Seq<u8>, data2: Seq<u8>, t1: Tag, t2: Tag)
    requires
        data1 == data2,
        t1@ == digest_of(data1),
        t2@ == digest_of(data2),
    ensures
        t1@ == t2@,
{
}

/// Law: a lookup hop to a strictly closer node strictly lowers the XOR
/// distance to the target read as a 256-bit big-endian integer, so an
/// iterative lookup can only descend and must terminate.
pub proof fn lemma_lookup_descends(cur: Seq<u8>, next: Seq<u8>, target: Seq<u8>)
    requires
        cur.len() == target.len(),
        next.len() == target.len(),
        lex_lt(xor_bytes(next, target), xor_bytes(cur, target)),
    ensures
        be_nat(xor_bytes(next, target)) < be_nat(xor_bytes(cur, target)),
{
    crate::tag::lemma_lex_lt_be_nat(xor_bytes(next, target), xor_bytes(cur, target));
}

} // verus!
