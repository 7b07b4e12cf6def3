use nettle::identity::{PrivateId, PublicId, PublicKey};
use nettle::node::{Backend, Node, NodeError, TransportError};
use nettle::routing::NodeAddr;
use nettle::Tag;

fn key_n(n: u64) -> PublicKey {
    PublicKey {
        modulus_le: n.to_le_bytes().to_vec(),
        exponent_le: vec![1, 0, 1],
    }
}

fn id_n(n: u64) -> PublicId {
    PublicId::from_key(key_n(n))
}

fn addr(name: &str) -> NodeAddr {
    NodeAddr::new(name.as_bytes().to_vec())
}

fn node_n(n: u64, name: &str) -> Node {
    let pid = PrivateId {
        pub_id: id_n(n),
        priv_tag: Tag::digest(&n.to_le_bytes()),
    };
    Node::new(pid, addr(name), Vec::new())
}

fn find_id(start: u64, pred: impl Fn(&PublicId) -> bool) -> PublicId {
    for n in start..start + 500000 {
        let id = id_n(n);
        if pred(&id) {
            return id;
        }
    }
    panic!("no identity matching the predicate was found");
}

fn peers_contain(peers: &Vec<PublicId>, id: &PublicId) -> bool {
    let mut found = false;
    for p in peers {
        if p.same_key(id) {
            found = true;
        }
    }
    found
}

/// A scripted transport: replies are looked up by address (greet, locate,
/// download) or served in call order (discover); every call is recorded.
struct Mock {
    ping_fail: Vec<Vec<u8>>,
    greet: Vec<(Vec<u8>, Result<PublicId, Option<NodeAddr>>)>,
    locate: Vec<(Vec<u8>, Result<bool, (PublicId, NodeAddr)>)>,
    download: Vec<(Vec<u8>, Option<Vec<u8>>)>,
    discover: Vec<Option<(PublicId, NodeAddr)>>,
    discover_calls: usize,
    greet_calls: Vec<Vec<u8>>,
    upload_calls: Vec<(Vec<u8>, Vec<u8>)>,
}

impl Mock {
    fn new() -> Mock {
        Mock {
            ping_fail: Vec::new(),
            greet: Vec::new(),
            locate: Vec::new(),
            download: Vec::new(),
            discover: Vec::new(),
            discover_calls: 0,
            greet_calls: Vec::new(),
            upload_calls: Vec::new(),
        }
    }
}

fn clone_contact(c: &(PublicId, NodeAddr)) -> (PublicId, NodeAddr) {
    (c.0.duplicate(), c.1.duplicate())
}

impl Backend for Mock {
    fn send_greet(
        &mut self,
        addr: &NodeAddr,
        _sender_id: &PublicId,
        _sender_addr: &NodeAddr,
    ) -> Result<Result<PublicId, Option<NodeAddr>>, TransportError> {
        self.greet_calls.push(addr.bytes.clone());
        for (a, reply) in &self.greet {
            if *a == addr.bytes {
                return Ok(match reply {
                    Ok(id) => Ok(id.duplicate()),
                    Err(None) => Err(None),
                    Err(Some(alt)) => Err(Some(alt.duplicate())),
                });
            }
        }
        Err(TransportError {})
    }

    fn send_ping(&mut self, addr: &NodeAddr) -> Result<u64, TransportError> {
        if self.ping_fail.contains(&addr.bytes) {
            Err(TransportError {})
        } else {
            Ok(5)
        }
    }

    fn send_discover(
        &mut self,
        _addr: &NodeAddr,
        _target: &Tag,
        _max_level: u16,
    ) -> Result<Option<(PublicId, NodeAddr)>, TransportError> {
        let k = self.discover_calls;
        self.discover_calls += 1;
        if k < self.discover.len() {
            Ok(self.discover[k].as_ref().map(clone_contact))
        } else {
            Ok(None)
        }
    }

    fn send_locate(
        &mut self,
        addr: &NodeAddr,
        _tag: &Tag,
    ) -> Result<Result<bool, (PublicId, NodeAddr)>, TransportError> {
        for (a, reply) in &self.locate {
            if *a == addr.bytes {
                return Ok(match reply {
                    Ok(b) => Ok(*b),
                    Err(c) => Err(clone_contact(c)),
                });
            }
        }
        Err(TransportError {})
    }

    fn send_upload(
        &mut self,
        addr: &NodeAddr,
        data: &Vec<u8>,
    ) -> Result<Result<(), ()>, TransportError> {
        self.upload_calls.push((addr.bytes.clone(), data.clone()));
        Ok(Ok(()))
    }

    fn send_download(
        &mut self,
        addr: &NodeAddr,
        _tag: &Tag,
    ) -> Result<Option<Vec<u8>>, TransportError> {
        for (a, reply) in &self.download {
            if *a == addr.bytes {
                return Ok(reply.clone());
            }
        }
        Err(TransportError {})
    }
}

#[test]
fn single_node_upload_download_round_trip() {
    let mut node = node_n(1, "a");
    let mut t = Mock::new();
    let tag = node.do_upload(&mut t, b"hello".to_vec()).unwrap();
    assert_eq!(
        tag.to_hex(),
        "3338be694f50c5f338814986cdf0686453a888b84f424d792af4b9202398f392"
    );
    let got = node.do_download(&mut t, &tag).unwrap();
    assert_eq!(got, Some(b"hello".to_vec()));
    let other = Tag::digest(b"other");
    assert_eq!(node.do_download(&mut t, &other).unwrap(), None);
    // A lone node stores locally; nothing was sent out.
    assert!(t.upload_calls.is_empty());
}

#[test]
fn upload_twice_same_bytes_same_tag() {
    let mut node = node_n(2, "a");
    let mut t = Mock::new();
    let t1 = node.do_upload(&mut t, b"payload".to_vec()).unwrap();
    let t2 = node.do_upload(&mut t, b"payload".to_vec()).unwrap();
    assert_eq!(t1.as_bytes(), t2.as_bytes());
    assert_eq!(
        node.do_download(&mut t, &t1).unwrap(),
        Some(b"payload".to_vec())
    );
}

#[test]
fn greet_accepts_and_registers_peer() {
    let mut a = node_n(3, "a");
    let mut t = Mock::new();
    let b = id_n(100);
    let reply = a.recv_greet(&mut t, b.duplicate(), addr("b"));
    let accepted = reply.unwrap();
    assert!(accepted.same_key(a.id()));
    assert!(peers_contain(&a.get_peers(), &b));
    // A known peer is no longer acceptable.
    assert!(!a.can_accept_peer(&b));
}

#[test]
fn greet_refused_when_peer_does_not_answer_ping() {
    let mut a = node_n(4, "a");
    let mut t = Mock::new();
    t.ping_fail.push(b"b".to_vec());
    let b = id_n(101);
    let reply = a.recv_greet(&mut t, b.duplicate(), addr("b"));
    // Table is empty, so no alternative can be offered.
    assert!(matches!(reply, Err(None)));
    assert!(!peers_contain(&a.get_peers(), &b));
}

#[test]
fn greet_redirects_when_bucket_is_full() {
    let mut a = node_n(5, "a");
    let mut t = Mock::new();
    let b = id_n(200);
    let level_of = |id: &PublicId, other: &PublicId| id.tag.dist_to(&other.tag).level();
    let target_level = level_of(&b, a.id());
    let c1 = find_id(300, |id| level_of(id, a.id()) == target_level && !id.same_key(&b));
    let c2 = find_id(10300, |id| {
        level_of(id, a.id()) == target_level && !id.same_key(&b) && !id.same_key(&c1)
    });
    assert!(a.accept_peer(&mut t, c1, addr("c1")));
    assert!(a.accept_peer(&mut t, c2, addr("c2")));
    let reply = a.recv_greet(&mut t, b.duplicate(), addr("b"));
    match reply {
        Err(Some(alt)) => {
            assert!(alt.bytes == b"c1".to_vec() || alt.bytes == b"c2".to_vec());
        },
        _ => panic!("expected a redirect to an existing peer"),
    }
    assert!(!peers_contain(&a.get_peers(), &b));
}

#[test]
fn bucket_capacity_blocks_a_third_same_level_peer() {
    let mut a = node_n(6, "a");
    let mut t = Mock::new();
    let c1 = id_n(400);
    let lvl = c1.tag.dist_to(&a.id().tag).level();
    let c2 = find_id(500, |id| id.tag.dist_to(&a.id().tag).level() == lvl && !id.same_key(&c1));
    let c3 = find_id(20500, |id| {
        id.tag.dist_to(&a.id().tag).level() == lvl && !id.same_key(&c1) && !id.same_key(&c2)
    });
    assert!(a.accept_peer(&mut t, c1, addr("c1")));
    assert!(a.accept_peer(&mut t, c2, addr("c2")));
    assert!(!a.can_accept_peer(&c3));
    assert!(!a.accept_peer(&mut t, c3.duplicate(), addr("c3")));
    assert!(!peers_contain(&a.get_peers(), &c3));
}

#[test]
fn locate_walk_across_three_nodes() {
    // A knows B; B points at C; C claims the data; A downloads from C.
    let data = b"precious bytes".to_vec();
    let tag = Tag::digest(&data);
    let mut a = node_n(7, "a");
    let closer_than = |id: &PublicId, other: &PublicId| {
        id.tag.dist_to(&tag).lt(&other.tag.dist_to(&tag))
    };
    let b = find_id(600, |id| closer_than(id, a.id()));
    let c = find_id(30600, |id| closer_than(id, &b) && !id.same_key(&b));
    let mut t = Mock::new();
    assert!(a.accept_peer(&mut t, b.duplicate(), addr("b")));
    t.locate
        .push((b"b".to_vec(), Err((c.duplicate(), addr("c")))));
    t.locate.push((b"c".to_vec(), Ok(true)));
    t.download.push((b"c".to_vec(), Some(data.clone())));
    let got = a.do_download(&mut t, &tag).unwrap();
    assert_eq!(got, Some(data));
}

#[test]
fn download_rejects_corrupt_bytes() {
    let data = b"the real bytes".to_vec();
    let tag = Tag::digest(&data);
    let mut a = node_n(8, "a");
    let b = find_id(700, |id| {
        id.tag.dist_to(&tag).lt(&a.id().tag.dist_to(&tag))
    });
    let mut t = Mock::new();
    assert!(a.accept_peer(&mut t, b.duplicate(), addr("b")));
    t.locate.push((b"b".to_vec(), Ok(true)));
    t.download.push((b"b".to_vec(), Some(b"forged bytes".to_vec())));
    let got = a.do_download(&mut t, &tag);
    match got {
        Err(e) => assert_eq!(e.message(), "integrity check failed"),
        _ => panic!("expected an integrity failure"),
    }
    assert_eq!(a.load_data(&tag), None);
}

#[test]
fn locate_liar_ends_walk_at_self() {
    // B answers with a node farther from the target; the walk ends and the
    // data is reported absent.
    let data = b"unreachable".to_vec();
    let tag = Tag::digest(&data);
    let mut a = node_n(9, "a");
    let b = find_id(800, |id| {
        id.tag.dist_to(&tag).lt(&a.id().tag.dist_to(&tag))
    });
    let far = find_id(40800, |id| {
        b.tag.dist_to(&tag).lt(&id.tag.dist_to(&tag)) && !id.same_key(&b)
    });
    let mut t = Mock::new();
    assert!(a.accept_peer(&mut t, b.duplicate(), addr("b")));
    t.locate
        .push((b"b".to_vec(), Err((far.duplicate(), addr("far")))));
    assert_eq!(a.do_download(&mut t, &tag).unwrap(), None);
}

#[test]
fn recv_locate_points_at_the_closest_peer() {
    let tag = Tag::digest(b"wanted");
    let mut a = node_n(10, "a");
    let mut t = Mock::new();
    let b = find_id(900, |id| {
        id.tag.dist_to(&tag).lt(&a.id().tag.dist_to(&tag))
    });
    let c = find_id(50900, |id| {
        b.tag.dist_to(&tag).lt(&id.tag.dist_to(&tag))
            && id.tag.dist_to(&tag).lt(&a.id().tag.dist_to(&tag))
            && !id.same_key(&b)
    });
    assert!(a.accept_peer(&mut t, b.duplicate(), addr("b")));
    assert!(a.accept_peer(&mut t, c.duplicate(), addr("c")));
    match a.recv_locate(&tag) {
        Err((id, _)) => assert!(id.same_key(&b)),
        _ => panic!("expected a strictly closer peer"),
    }
}

#[test]
fn recv_locate_reports_data_and_dead_ends() {
    let mut a = node_n(11, "a");
    let data = b"kept here".to_vec();
    let tag = Tag::digest(&data);
    assert!(a.recv_upload(data).is_ok());
    assert!(matches!(a.recv_locate(&tag), Ok(true)));
    // A tag that nobody is closer to than this node, with no peers at all.
    let absent = Tag::digest(b"absent");
    assert!(matches!(a.recv_locate(&absent), Ok(false)));
}

#[test]
fn recv_discover_respects_level_and_target() {
    let mut a = node_n(12, "a");
    let mut t = Mock::new();
    let b = id_n(1000);
    assert!(a.accept_peer(&mut t, b.duplicate(), addr("b")));
    // The peer's own tag is never offered.
    assert!(a.recv_discover(&b.tag, 255).is_none());
    let target = Tag::digest(b"target");
    let lvl = b.tag.dist_to(&target).level();
    let offered = a.recv_discover(&target, 255);
    match offered {
        Some((id, _)) => assert!(id.same_key(&b)),
        None => panic!("the only peer is within level 255"),
    }
    if lvl > 0 {
        assert!(a.recv_discover(&target, lvl - 1).is_none());
    }
}

#[test]
fn ping_round_evicts_silent_peers() {
    let mut a = node_n(13, "a");
    let mut t = Mock::new();
    let b = id_n(1100);
    let c = id_n(1101);
    assert!(a.accept_peer(&mut t, b.duplicate(), addr("b")));
    assert!(a.accept_peer(&mut t, c.duplicate(), addr("c")));
    t.ping_fail.push(b"b".to_vec());
    a.ping_round(&mut t);
    let peers = a.get_peers();
    assert!(!peers_contain(&peers, &b));
    assert!(peers_contain(&peers, &c));
}

#[test]
fn discover_walk_stops_at_out_of_level_reply() {
    let mut a = node_n(14, "a");
    let mut t = Mock::new();
    let b = id_n(1200);
    assert!(a.accept_peer(&mut t, b.duplicate(), addr("b")));
    // First reply (asked at level 255) is fine; the second (asked at level
    // 254) offers a node at level 255, outside the requested bound.
    let c1 = id_n(1300);
    let liar_offer = find_id(60000, |id| id.tag.dist_to(&a.id().tag).level() == 255);
    t.discover.push(Some((c1.duplicate(), addr("c1"))));
    t.discover.push(Some((liar_offer.duplicate(), addr("liar"))));
    t.discover.push(Some((id_n(1400), addr("never"))));
    a.discover_round(&mut t);
    // The walk asked twice, then stopped: the third scripted reply stays
    // unused, the out-of-level node was never greeted, and B stays peered.
    assert_eq!(t.discover_calls, 2);
    assert!(!t.greet_calls.contains(&b"liar".to_vec()));
    assert!(peers_contain(&a.get_peers(), &b));
}

#[test]
fn bootstrap_follows_redirects() {
    let d = id_n(1500);
    let pid = PrivateId {
        pub_id: id_n(15),
        priv_tag: Tag::digest(&15u64.to_le_bytes()),
    };
    let mut a = Node::new(pid, addr("a"), vec![addr("x")]);
    let mut t = Mock::new();
    t.greet.push((b"x".to_vec(), Err(Some(addr("y")))));
    t.greet.push((b"y".to_vec(), Ok(d.duplicate())));
    a.bootstrap(&mut t);
    assert!(peers_contain(&a.get_peers(), &d));
}

#[test]
fn node_error_messages() {
    assert_eq!(NodeError::NoResponse.message(), "peer did not respond");
    assert_eq!(NodeError::IntegrityFailure.message(), "integrity check failed");
    assert_eq!(
        NodeError::MissingPayload.message(),
        "peer reported data but did not provide any"
    );
}

#[test]
fn own_identity_is_never_accepted() {
    let mut a = node_n(16, "a");
    let mut t = Mock::new();
    let own = a.id().duplicate();
    assert!(!a.can_accept_peer(&own));
    assert!(!a.accept_peer(&mut t, own.duplicate(), addr("loop")));
    match a.recv_greet(&mut t, own, addr("loop")) {
        Err(None) => {},
        _ => panic!("a node must not peer with itself"),
    }
    assert!(a.get_peers().is_empty());
}

#[test]
fn greet_from_a_known_sender_is_redirected() {
    let mut a = node_n(17, "a");
    let mut t = Mock::new();
    let b = id_n(1600);
    assert!(a.recv_greet(&mut t, b.duplicate(), addr("b")).is_ok());
    // The sender is already peered: the second greeting is refused and the
    // table keeps exactly its one peer.
    match a.recv_greet(&mut t, b.duplicate(), addr("b")) {
        Err(Some(alt)) => assert_eq!(alt.bytes, b"b".to_vec()),
        _ => panic!("a known sender must be refused with a redirect"),
    }
    let peers = a.get_peers();
    assert_eq!(peers.len(), 1);
    assert!(peers_contain(&peers, &b));
}
