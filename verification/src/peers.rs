//! Peers of a WireGuard interface: a public key with the ranges it may use,
//! and tables of peers in which no key occurs twice.

use crate::net::{ranges_wf, IpRange};
use vstd::prelude::*;

verus! {

/// One peer: its public key and its allowed ranges, in the order reported.
#[derive(Clone, Debug, PartialEq, Eq)]
pub struct Peer {
    pub public_key: String,
    pub allowed_ips: Vec<IpRange>,
}

/// The mathematical value of a peer.
pub struct PeerView {
    pub public_key: Seq<char>,
    pub allowed_ips: Seq<IpRange>,
}

impl View for Peer {
    type V = PeerView;

    open spec fn view(&self) -> PeerView {
        PeerView { public_key: self.public_key@, allowed_ips: self.allowed_ips@ }
    }
}

/// The values of a sequence of peers, in order.
pub open spec fn peer_views(peers: Seq<Peer>) -> Seq<PeerView> {
    peers.map_values(|p: Peer| p@)
}

/// True when some peer of `peers` has the key `key`.
pub open spec fn has_key(peers: Seq<PeerView>, key: Seq<char>) -> bool {
    exists|i: int| 0 <= i < peers.len() && (#[trigger] peers[i]).public_key == key
}

/// The position of the first peer with the key `key`; meaningful only when
/// there is one.
pub open spec fn key_index(peers: Seq<PeerView>, key: Seq<char>) -> int {
    choose|i: int|
        0 <= i < peers.len() && (#[trigger] peers[i]).public_key == key && forall|j: int|
            0 <= j < i ==> (#[trigger] peers[j]).public_key != key
}

/// True when no two peers of `peers` share a key.
pub open spec fn distinct_keys(peers: Seq<PeerView>) -> bool {
    forall|i: int, j: int|
        0 <= i < j < peers.len() ==> (#[trigger] peers[i]).public_key != (
        #[trigger] peers[j]).public_key
}

/// The peers as a mapping from public key to allowed ranges.
pub open spec fn peer_map(peers: Seq<PeerView>) -> Map<Seq<char>, Seq<IpRange>> {
    Map::new(
        |key: Seq<char>| has_key(peers, key),
        |key: Seq<char>| peers[key_index(peers, key)].allowed_ips,
    )
}

/// What a table holds after `peer` is put into it: the entry with the same
/// key is replaced where it stands, and a new key goes to the end.
pub open spec fn with_peer(peers: Seq<PeerView>, peer: PeerView) -> Seq<PeerView> {
    if has_key(peers, peer.public_key) {
        peers.update(key_index(peers, peer.public_key), peer)
    } else {
        peers.push(peer)
    }
}

/// `key_index` finds the first peer with the key whenever there is one.
pub proof fn lemma_key_index(peers: Seq<PeerView>, key: Seq<char>)
    requires
        has_key(peers, key),
    ensures
        0 <= key_index(peers, key) < peers.len(),
        peers[key_index(peers, key)].public_key == key,
        forall|j: int| 0 <= j < key_index(peers, key) ==> (#[trigger] peers[j]).public_key != key,
{
    let some = choose|i: int| 0 <= i < peers.len() && (#[trigger] peers[i]).public_key == key;
    lemma_first_with_key(peers, key, some);
}

/// If the peer at `at` has the key, some peer at or before `at` is the first
/// that has it.
proof fn lemma_first_with_key(peers: Seq<PeerView>, key: Seq<char>, at: int)
    requires
        0 <= at < peers.len(),
        peers[at].public_key == key,
    ensures
        exists|i: int|
            0 <= i < peers.len() && (#[trigger] peers[i]).public_key == key && forall|j: int|
                0 <= j < i ==> (#[trigger] peers[j]).public_key != key,
    decreases at,
{
    if exists|j: int| 0 <= j < at && (#[trigger] peers[j]).public_key == key {
        let earlier = choose|j: int| 0 <= j < at && (#[trigger] peers[j]).public_key == key;
        lemma_first_with_key(peers, key, earlier);
    } else {
        assert(forall|j: int| 0 <= j < at ==> (#[trigger] peers[j]).public_key != key);
    }
}

/// In a table without repeated keys the peer at `at` is the one that its key
/// is looked up to.
pub proof fn lemma_key_index_unique(peers: Seq<PeerView>, at: int)
    requires
        distinct_keys(peers),
        0 <= at < peers.len(),
    ensures
        has_key(peers, peers[at].public_key),
        key_index(peers, peers[at].public_key) == at,
        peer_map(peers)[peers[at].public_key] == peers[at].allowed_ips,
{
    lemma_key_index(peers, peers[at].public_key);
}

/// Putting a peer into a table keeps the keys distinct and changes the
/// mapping at that peer's key alone.
pub proof fn lemma_with_peer(peers: Seq<PeerView>, peer: PeerView)
    requires
        distinct_keys(peers),
    ensures
        distinct_keys(with_peer(peers, peer)),
        peer_map(with_peer(peers, peer)) == peer_map(peers).insert(
            peer.public_key,
            peer.allowed_ips,
        ),
{
    let after = with_peer(peers, peer);
    if has_key(peers, peer.public_key) {
        lemma_key_index(peers, peer.public_key);
    }
    assert(distinct_keys(after));
    assert forall|key: Seq<char>| has_key(after, key) <==> (key == peer.public_key || has_key(
        peers,
        key,
    )) by {
        if has_key(after, key) {
            let i = choose|i: int| 0 <= i < after.len() && (#[trigger] after[i]).public_key == key;
            if key != peer.public_key {
                assert(peers[i].public_key == key);
            }
        }
        if key == peer.public_key {
            if has_key(peers, peer.public_key) {
                assert(after[key_index(peers, peer.public_key)].public_key == key);
            } else {
                assert(after[peers.len() as int].public_key == key);
            }
        } else if has_key(peers, key) {
            let i = choose|i: int| 0 <= i < peers.len() && (#[trigger] peers[i]).public_key == key;
            assert(after[i].public_key == key);
        }
    }
    assert forall|key: Seq<char>| has_key(after, key) implies #[trigger] peer_map(after)[key]
        == peer_map(peers).insert(peer.public_key, peer.allowed_ips)[key] by {
        lemma_key_index(after, key);
        let i = key_index(after, key);
        if key != peer.public_key {
            assert(peers[i].public_key == key);
            lemma_key_index_unique(peers, i);
        }
    }
    assert(peer_map(after) =~= peer_map(peers).insert(peer.public_key, peer.allowed_ips));
}

/// True when the ranges of every peer of the table are well formed.
pub open spec fn peers_have_ranges(peers: Seq<PeerView>) -> bool {
    forall|i: int| 0 <= i < peers.len() ==> ranges_wf((#[trigger] peers[i]).allowed_ips)
}

/// Putting a peer with well-formed ranges into a table of such peers gives a
/// table of such peers.
pub proof fn lemma_with_peer_ranges(peers: Seq<PeerView>, peer: PeerView)
    requires
        peers_have_ranges(peers),
        ranges_wf(peer.allowed_ips),
    ensures
        peers_have_ranges(with_peer(peers, peer)),
{
    let after = with_peer(peers, peer);
    if has_key(peers, peer.public_key) {
        lemma_key_index(peers, peer.public_key);
    }
    assert forall|i: int| 0 <= i < after.len() implies ranges_wf(
        (#[trigger] after[i]).allowed_ips,
    ) by {
        if after[i] != peer {
            assert(after[i] == peers[i]);
        }
    }
}

/// Copies a list of ranges.
pub fn copy_ranges(ranges: &Vec<IpRange>) -> (result: Vec<IpRange>)
    ensures
        result@ == ranges@,
{
    let mut out: Vec<IpRange> = Vec::new();
    let mut i: usize = 0;
    while i < ranges.len()
        invariant
            i <= ranges.len(),
            out@ == ranges@.take(i as int),
        decreases ranges.len() - i,
    {
        out.push(ranges[i]);
        assert(out@ =~= ranges@.take(i + 1));
        i = i + 1;
    }
    assert(ranges@.take(ranges.len() as int) =~= ranges@);
    out
}

/// Tells whether two lists hold the same ranges in the same order.
pub fn same_ranges(left: &Vec<IpRange>, right: &Vec<IpRange>) -> (result: bool)
    ensures
        result == (left@ == right@),
{
    if left.len() != right.len() {
        return false;
    }
    let mut i: usize = 0;
    while i < left.len()
        invariant
            i <= left.len(),
            left.len() == right.len(),
            left@.take(i as int) == right@.take(i as int),
        decreases left.len() - i,
    {
        if left[i] != right[i] {
            return false;
        }
        assert(left@.take(i + 1) =~= left@.take(i as int).push(left@[i as int]));
        assert(right@.take(i + 1) =~= right@.take(i as int).push(right@[i as int]));
        i = i + 1;
    }
    assert(left@.take(left.len() as int) =~= left@);
    assert(right@.take(right.len() as int) =~= right@);
    true
}

impl Peer {
    /// A copy of the peer.
    pub fn duplicate(&self) -> (result: Peer)
        ensures
            result@ == self@,
    {
        Peer { public_key: self.public_key.clone(), allowed_ips: copy_ranges(&self.allowed_ips) }
    }
}

/// A table of peers in which no public key occurs twice.
#[derive(Clone, Debug, PartialEq, Eq)]
pub struct PeerTable {
    peers: Vec<Peer>,
}

impl View for PeerTable {
    type V = Seq<PeerView>;

    closed spec fn view(&self) -> Seq<PeerView> {
        peer_views(self.peers@)
    }
}

impl PeerTable {
    /// The invariant of a table: its keys are distinct.
    pub open spec fn wf(&self) -> bool {
        distinct_keys(self@)
    }

    /// The empty table.
    pub fn new() -> (result: PeerTable)
        ensures
            result@ == Seq::<PeerView>::empty(),
            result.wf(),
    {
        let table = PeerTable { peers: Vec::new() };
        assert(table@ =~= Seq::<PeerView>::empty());
        table
    }

    /// The number of peers in the table.
    pub fn len(&self) -> (result: usize)
        ensures
            result == self@.len(),
    {
        self.peers.len()
    }

    /// The peer at position `at`.
    pub fn get(&self, at: usize) -> (result: &Peer)
        requires
            at < self@.len(),
        ensures
            result@ == self@[at as int],
    {
        &self.peers[at]
    }

    /// The position of the peer with the key `key`, if the table has one.
    pub fn find(&self, key: &String) -> (result: Option<usize>)
        ensures
            match result {
                Some(at) => at < self@.len() && self@[at as int].public_key == key@ && has_key(
                    self@,
                    key@,
                ) && at == key_index(self@, key@),
                None => !has_key(self@, key@),
            },
    {
        let mut i: usize = 0;
        while i < self.peers.len()
            invariant
                i <= self.peers.len(),
                forall|j: int| 0 <= j < i ==> (#[trigger] self@[j]).public_key != key@,
            decreases self.peers.len() - i,
        {
            if self.peers[i].public_key == *key {
                proof {
                    assert(self@[i as int].public_key == key@);
                    lemma_key_index(self@, key@);
                }
                return Some(i);
            }
            i = i + 1;
        }
        None
    }

    /// Puts `peer` into the table: it takes the place of the entry with the
    /// same key, or goes to the end when its key is new.
    pub fn insert(&mut self, peer: Peer)
        requires
            old(self).wf(),
        ensures
            final(self)@ == with_peer(old(self)@, peer@),
            final(self).wf(),
    {
        proof {
            lemma_with_peer(self@, peer@);
        }
        match self.find(&peer.public_key) {
            Some(at) => {
                self.peers.set(at, peer);
                assert(self@ =~= with_peer(old(self)@, peer@));
            },
            None => {
                self.peers.push(peer);
                assert(self@ =~= with_peer(old(self)@, peer@));
            },
        }
    }
}

} // verus!
