use vstd::prelude::*;

use std::collections::HashMap;

use crate::client::table::{
    find_entry, keys_distinct, lemma_table_push, lemma_table_remove, lemma_table_update,
    lemma_table_value, table,
};
use crate::constants::PEER_ID_LENGTH;

verus! {

broadcast use vstd::std_specs::hash::group_hash_axioms;

/// Where a peer listens: an IPv4 address (in the low 32 bits of `ip`) or, when `v6`, an
/// IPv6 address, and a port.
#[derive(Debug, Clone, Copy, PartialEq, Eq, Structural)]
pub struct PeerAddr {
    pub ip: u128,
    pub v6: bool,
    pub port: u16,
}

/// A peer as a tracker lists it: its address and, when the tracker gives it, its id.
#[derive(Debug, Clone, Copy)]
pub struct PeerInfo {
    pub addr: PeerAddr,
    pub id: Option<[u8; PEER_ID_LENGTH]>,
}

/// The ids in `v`, as byte sequences.
pub open spec fn id_set(v: Seq<[u8; PEER_ID_LENGTH]>) -> Set<Seq<u8>> {
    Set::new(|s: Seq<u8>| exists|i: int| #![trigger v[i]] 0 <= i < v.len() && v[i]@ == s)
}

/// No id occurs twice in `v`.
pub open spec fn distinct_ids(v: Seq<[u8; PEER_ID_LENGTH]>) -> bool {
    forall|i: int, j: int| 0 <= i < j < v.len() ==> v[i]@ != v[j]@
}

/// No address occurs twice in `v`.
pub open spec fn distinct_addrs(v: Seq<PeerAddr>) -> bool {
    forall|i: int, j: int| 0 <= i < j < v.len() ==> v[i] != v[j]
}

/// Whether `peer` is new to peers whose ids are `ids` and addresses `addrs`: by its id when
/// the tracker gave one, else by its address.
pub open spec fn is_new_peer(ids: Set<Seq<u8>>, addrs: Set<PeerAddr>, peer: PeerInfo) -> bool {
    match peer.id {
        Some(id) => !ids.contains(id@),
        None => !addrs.contains(peer.addr),
    }
}

/// `ids` with the id of `peer`, when it has one.
pub open spec fn with_id(ids: Set<Seq<u8>>, peer: PeerInfo) -> Set<Seq<u8>> {
    match peer.id {
        Some(id) => ids.insert(id@),
        None => ids,
    }
}

/// `ids` without the id of `peer`, when it has one.
pub open spec fn without_id(ids: Set<Seq<u8>>, peer: PeerInfo) -> Set<Seq<u8>> {
    match peer.id {
        Some(id) => ids.remove(id@),
        None => ids,
    }
}

/// A new id added at the end keeps the ids distinct and adds one id.
proof fn lemma_push_id(v: Seq<[u8; PEER_ID_LENGTH]>, id: [u8; PEER_ID_LENGTH])
    requires
        distinct_ids(v),
        !id_set(v).contains(id@),
    ensures
        distinct_ids(v.push(id)),
        id_set(v.push(id)) == id_set(v).insert(id@),
{
    let w = v.push(id);
    assert forall|s: Seq<u8>| id_set(w).contains(s) == id_set(v).insert(id@).contains(s) by {
        if id_set(v).contains(s) {
            let i = choose|i: int| #![trigger v[i]] 0 <= i < v.len() && v[i]@ == s;
            assert(w[i] == v[i]);
        }
        if s == id@ {
            assert(w[v.len() as int] == id);
        }
        if id_set(w).contains(s) {
            let i = choose|i: int| #![trigger w[i]] 0 <= i < w.len() && w[i]@ == s;
            if i < v.len() {
                assert(w[i] == v[i]);
            }
        }
    }
    assert(id_set(w) =~= id_set(v).insert(id@));
    assert forall|i: int, j: int| 0 <= i < j < w.len() implies w[i]@ != w[j]@ by {
        if j == v.len() {
            assert(w[i] == v[i]);
        }
    }
}

/// Removing a distinct id removes it from the set.
proof fn lemma_remove_id(v: Seq<[u8; PEER_ID_LENGTH]>, i: int)
    requires
        distinct_ids(v),
        0 <= i < v.len(),
    ensures
        distinct_ids(v.remove(i)),
        id_set(v.remove(i)) == id_set(v).remove(v[i]@),
{
    let w = v.remove(i);
    assert forall|s: Seq<u8>| id_set(w).contains(s) == id_set(v).remove(v[i]@).contains(s) by {
        if id_set(w).contains(s) {
            let k = choose|k: int| #![trigger w[k]] 0 <= k < w.len() && w[k]@ == s;
            if k < i {
                assert(w[k] == v[k]);
            } else {
                assert(w[k] == v[k + 1]);
            }
        }
        if id_set(v).remove(v[i]@).contains(s) {
            let k = choose|k: int| #![trigger v[k]] 0 <= k < v.len() && v[k]@ == s;
            if k < i {
                assert(w[k] == v[k]);
            } else {
                assert(w[k - 1] == v[k]);
            }
        }
    }
    assert(id_set(w) =~= id_set(v).remove(v[i]@));
    assert forall|a: int, b: int| 0 <= a < b < w.len() implies w[a]@ != w[b]@ by {
        let a2 = if a < i { a } else { a + 1 };
        let b2 = if b < i { b } else { b + 1 };
        assert(w[a] == v[a2]);
        assert(w[b] == v[b2]);
    }
}

/// Removing a distinct address removes it from the set.
proof fn lemma_remove_addr(v: Seq<PeerAddr>, i: int)
    requires
        distinct_addrs(v),
        0 <= i < v.len(),
    ensures
        distinct_addrs(v.remove(i)),
        v.remove(i).to_set() == v.to_set().remove(v[i]),
{
    let w = v.remove(i);
    assert forall|x: PeerAddr| w.to_set().contains(x) == v.to_set().remove(v[i]).contains(x) by {
        if w.contains(x) {
            let k = choose|k: int| 0 <= k < w.len() && w[k] == x;
            if k < i {
                assert(w[k] == v[k]);
            } else {
                assert(w[k] == v[k + 1]);
            }
        }
        if v.contains(x) && x != v[i] {
            let k = choose|k: int| 0 <= k < v.len() && v[k] == x;
            if k < i {
                assert(w[k] == v[k]);
            } else {
                assert(w[k - 1] == v[k]);
            }
        }
    }
    assert(w.to_set() =~= v.to_set().remove(v[i]));
    assert forall|a: int, b: int| 0 <= a < b < w.len() implies w[a] != w[b] by {
        let a2 = if a < i { a } else { a + 1 };
        let b2 = if b < i { b } else { b + 1 };
        assert(w[a] == v[a2]);
        assert(w[b] == v[b2]);
    }
}

/// A new address added at the end keeps the addresses distinct.
proof fn lemma_push_addr(v: Seq<PeerAddr>, a: PeerAddr)
    requires
        distinct_addrs(v),
        !v.contains(a),
    ensures
        distinct_addrs(v.push(a)),
        v.push(a).to_set() == v.to_set().insert(a),
{
    let w = v.push(a);
    assert forall|x: PeerAddr| w.to_set().contains(x) == v.to_set().insert(a).contains(x) by {
        if v.contains(x) {
            let k = choose|k: int| 0 <= k < v.len() && v[k] == x;
            assert(w[k] == v[k]);
        }
        if x == a {
            assert(w[v.len() as int] == a);
        }
        if w.contains(x) {
            let k = choose|k: int| 0 <= k < w.len() && w[k] == x;
            if k < v.len() {
                assert(w[k] == v[k]);
            }
        }
    }
    assert(w.to_set() =~= v.to_set().insert(a));
    assert forall|i: int, j: int| 0 <= i < j < w.len() implies w[i] != w[j] by {
        if j == v.len() {
            assert(w[i] == v[i]);
            assert(v.contains(v[i]));
        }
    }
}

/// Whether two peer ids are the same.
pub(crate) fn same_id(a: &[u8; PEER_ID_LENGTH], b: &[u8; PEER_ID_LENGTH]) -> (r: bool)
    ensures
        r == (a@ == b@),
{
    let mut i: usize = 0;
    while i < PEER_ID_LENGTH
        invariant
            i <= PEER_ID_LENGTH,
            a@.len() == PEER_ID_LENGTH,
            b@.len() == PEER_ID_LENGTH,
            forall|j: int| 0 <= j < i ==> a@[j] == b@[j],
        decreases PEER_ID_LENGTH - i,
    {
        if a[i] != b[i] {
            return false;
        }
        i = i + 1;
    }
    assert(a@ =~= b@);
    true
}

/// The position of `id` in `v`, if it is there.
fn find_id(v: &Vec<[u8; PEER_ID_LENGTH]>, id: &[u8; PEER_ID_LENGTH]) -> (r: Option<usize>)
    ensures
        r matches Some(i) ==> i < v@.len() && v@[i as int]@ == id@,
        r is None ==> !id_set(v@).contains(id@),
{
    let mut i: usize = 0;
    while i < v.len()
        invariant
            i <= v@.len(),
            forall|j: int| 0 <= j < i ==> v@[j]@ != id@,
        decreases v@.len() - i,
    {
        if same_id(&v[i], id) {
            return Some(i);
        }
        i = i + 1;
    }
    None
}

/// The position of `addr` in `v`, if it is there.
fn find_addr(v: &Vec<PeerAddr>, addr: PeerAddr) -> (r: Option<usize>)
    ensures
        r matches Some(i) ==> i < v@.len() && v@[i as int] == addr,
        r is None ==> !v@.contains(addr),
{
    let mut i: usize = 0;
    while i < v.len()
        invariant
            i <= v@.len(),
            forall|j: int| 0 <= j < i ==> v@[j] != addr,
        decreases v@.len() - i,
    {
        if v[i] == addr {
            return Some(i);
        }
        i = i + 1;
    }
    None
}

/// What a torrent knows of its peers: the ids and addresses of those connected, the peer
/// behind each TCP connection and each uTP connection, and the peers not connected yet.
pub struct PeersData {
    connected_id: Vec<[u8; PEER_ID_LENGTH]>,
    pub token_to_info: HashMap<usize, PeerInfo>,
    utp_connected: Vec<(PeerAddr, u16, [u8; PEER_ID_LENGTH])>,
    connected_socketaddr: Vec<PeerAddr>,
    unconnected: Vec<PeerInfo>,
}

impl PeersData {
    /// No id, address or key is held twice.
    pub closed spec fn wf(&self) -> bool {
        &&& distinct_ids(self.connected_id@)
        &&& distinct_addrs(self.connected_socketaddr@)
        &&& keys_distinct(self.utp_connected@)
    }

    /// The ids of the peers connected.
    pub closed spec fn ids(&self) -> Set<Seq<u8>> {
        id_set(self.connected_id@)
    }

    /// The addresses of the peers connected.
    pub closed spec fn addrs(&self) -> Set<PeerAddr> {
        self.connected_socketaddr@.to_set()
    }

    /// The peer behind each TCP connection.
    pub closed spec fn tokens(&self) -> Map<usize, PeerInfo> {
        self.token_to_info@
    }

    /// The id of the peer behind each uTP connection, by address and connection id.
    pub closed spec fn utp(&self) -> Map<(PeerAddr, u16), [u8; PEER_ID_LENGTH]> {
        table(self.utp_connected@)
    }

    /// The peers not connected yet, in the order they came.
    pub closed spec fn unconnected(&self) -> Seq<PeerInfo> {
        self.unconnected@
    }

    /// Knows of no peer.
    pub fn new() -> (r: PeersData)
        ensures
            r.wf(),
            r.ids() == Set::<Seq<u8>>::empty(),
            r.addrs() == Set::<PeerAddr>::empty(),
            r.tokens() == Map::<usize, PeerInfo>::empty(),
            r.utp() == Map::<(PeerAddr, u16), [u8; PEER_ID_LENGTH]>::empty(),
            r.unconnected() == Seq::<PeerInfo>::empty(),
    {
        let r = PeersData {
            connected_id: Vec::new(),
            token_to_info: HashMap::new(),
            utp_connected: Vec::new(),
            connected_socketaddr: Vec::new(),
            unconnected: Vec::new(),
        };
        assert(r.ids() =~= Set::<Seq<u8>>::empty());
        assert(r.addrs() =~= Set::<PeerAddr>::empty());
        assert(r.utp() =~= Map::<(PeerAddr, u16), [u8; PEER_ID_LENGTH]>::empty());
        r
    }

    /// Whether the peer with id `peer_id` is connected.
    pub fn is_connected(&self, peer_id: &[u8; PEER_ID_LENGTH]) -> (r: bool)
        ensures
            r == self.ids().contains(peer_id@),
    {
        find_id(&self.connected_id, peer_id).is_some()
    }

    /// Adds `id` to the ids connected.
    fn insert_id(&mut self, id: [u8; PEER_ID_LENGTH])
        requires
            old(self).wf(),
        ensures
            final(self).wf(),
            final(self).ids() == old(self).ids().insert(id@),
            final(self).addrs() == old(self).addrs(),
            final(self).tokens() == old(self).tokens(),
            final(self).utp() == old(self).utp(),
            final(self).unconnected() == old(self).unconnected(),
    {
        match find_id(&self.connected_id, &id) {
            Some(_) => {
                assert(self.ids() =~= old(self).ids().insert(id@));
            },
            None => {
                proof {
                    lemma_push_id(self.connected_id@, id);
                }
                self.connected_id.push(id);
            },
        }
    }

    /// Drops `id` from the ids connected.
    fn remove_id(&mut self, id: [u8; PEER_ID_LENGTH])
        requires
            old(self).wf(),
        ensures
            final(self).wf(),
            final(self).ids() == old(self).ids().remove(id@),
            final(self).addrs() == old(self).addrs(),
            final(self).tokens() == old(self).tokens(),
            final(self).utp() == old(self).utp(),
            final(self).unconnected() == old(self).unconnected(),
    {
        match find_id(&self.connected_id, &id) {
            Some(i) => {
                proof {
                    lemma_remove_id(self.connected_id@, i as int);
                }
                self.connected_id.remove(i);
            },
            None => {
                assert(self.ids() =~= old(self).ids().remove(id@));
            },
        }
    }

    /// Adds `addr` to the addresses connected.
    fn insert_addr(&mut self, addr: PeerAddr)
        requires
            old(self).wf(),
        ensures
            final(self).wf(),
            final(self).addrs() == old(self).addrs().insert(addr),
            final(self).ids() == old(self).ids(),
            final(self).tokens() == old(self).tokens(),
            final(self).utp() == old(self).utp(),
            final(self).unconnected() == old(self).unconnected(),
    {
        match find_addr(&self.connected_socketaddr, addr) {
            Some(i) => {
                assert(self.connected_socketaddr@.contains(addr)) by {
                    assert(self.connected_socketaddr@[i as int] == addr);
                }
                assert(self.addrs() =~= old(self).addrs().insert(addr));
            },
            None => {
                proof {
                    lemma_push_addr(self.connected_socketaddr@, addr);
                }
                self.connected_socketaddr.push(addr);
            },
        }
    }

    /// Drops `addr` from the addresses connected.
    fn remove_addr(&mut self, addr: PeerAddr)
        requires
            old(self).wf(),
        ensures
            final(self).wf(),
            final(self).addrs() == old(self).addrs().remove(addr),
            final(self).ids() == old(self).ids(),
            final(self).tokens() == old(self).tokens(),
            final(self).utp() == old(self).utp(),
            final(self).unconnected() == old(self).unconnected(),
    {
        match find_addr(&self.connected_socketaddr, addr) {
            Some(i) => {
                proof {
                    lemma_remove_addr(self.connected_socketaddr@, i as int);
                }
                self.connected_socketaddr.remove(i);
            },
            None => {
                assert(self.addrs() =~= old(self).addrs().remove(addr));
            },
        }
    }

    /// Sets the id of the peer behind uTP connection `conn_id` with `addr`.
    fn insert_utp(&mut self, addr: PeerAddr, conn_id: u16, id: [u8; PEER_ID_LENGTH])
        requires
            old(self).wf(),
        ensures
            final(self).wf(),
            final(self).utp() == old(self).utp().insert((addr, conn_id), id),
            final(self).ids() == old(self).ids(),
            final(self).addrs() == old(self).addrs(),
            final(self).tokens() == old(self).tokens(),
            final(self).unconnected() == old(self).unconnected(),
    {
        match find_entry(&self.utp_connected, addr, conn_id) {
            Some(i) => {
                proof {
                    lemma_table_update(self.utp_connected@, i as int, (addr, conn_id, id));
                }
                self.utp_connected.set(i, (addr, conn_id, id));
            },
            None => {
                proof {
                    lemma_table_push(self.utp_connected@, (addr, conn_id, id));
                }
                self.utp_connected.push((addr, conn_id, id));
            },
        }
    }

    /// Drops the uTP connection `conn_id` with `addr`; gives the id of its peer when it
    /// was known.
    fn remove_utp(&mut self, addr: PeerAddr, conn_id: u16) -> (r: Option<[u8; PEER_ID_LENGTH]>)
        requires
            old(self).wf(),
        ensures
            final(self).wf(),
            final(self).utp() == old(self).utp().remove((addr, conn_id)),
            r matches Some(id) ==> old(self).utp().contains_key((addr, conn_id)) && old(
                self).utp()[(addr, conn_id)] == id,
            r is None ==> !old(self).utp().contains_key((addr, conn_id)),
            final(self).ids() == old(self).ids(),
            final(self).addrs() == old(self).addrs(),
            final(self).tokens() == old(self).tokens(),
            final(self).unconnected() == old(self).unconnected(),
    {
        match find_entry(&self.utp_connected, addr, conn_id) {
            Some(i) => {
                proof {
                    lemma_table_value(self.utp_connected@, i as int);
                    lemma_table_remove(self.utp_connected@, i as int);
                }
                let entry = self.utp_connected.remove(i);
                Some(entry.2)
            },
            None => {
                assert(self.utp() =~= old(self).utp().remove((addr, conn_id)));
                None
            },
        }
    }

    /// Queues the peers of a tracker's answer that are not connected: by their id when the
    /// tracker gave one, else by their address.
    pub fn add_peers_from_tracker(&mut self, peers: Vec<PeerInfo>)
        requires
            old(self).wf(),
        ensures
            final(self).wf(),
            final(self).unconnected() == old(self).unconnected() + peers@.filter(
                |p: PeerInfo| is_new_peer(old(self).ids(), old(self).addrs(), p),
            ),
            final(self).ids() == old(self).ids(),
            final(self).addrs() == old(self).addrs(),
            final(self).tokens() == old(self).tokens(),
            final(self).utp() == old(self).utp(),
    {
        let ghost pred = |p: PeerInfo| is_new_peer(old(self).ids(), old(self).addrs(), p);
        let mut i: usize = 0;
        while i < peers.len()
            invariant
                self.wf(),
                i <= peers@.len(),
                self.unconnected@ == old(self).unconnected() + peers@.take(i as int).filter(pred),
                self.ids() == old(self).ids(),
                self.addrs() == old(self).addrs(),
                self.tokens() == old(self).tokens(),
                self.utp() == old(self).utp(),
                pred == (|p: PeerInfo| is_new_peer(old(self).ids(), old(self).addrs(), p)),
            decreases peers@.len() - i,
        {
            let peer = peers[i];
            let is_new = match peer.id {
                Some(id) => !self.is_connected(&id),
                None => find_addr(&self.connected_socketaddr, peer.addr).is_none(),
            };
            proof {
                if peer.id is None && !is_new {
                    assert(self.addrs().contains(peer.addr)) by {
                        let k = choose|k: usize| k < self.connected_socketaddr@.len()
                            && self.connected_socketaddr@[k as int] == peer.addr;
                        assert(self.connected_socketaddr@.contains(peer.addr)) by {
                            assert(self.connected_socketaddr@[k as int] == peer.addr);
                        }
                    }
                }
                assert(is_new == pred(peer));
                let t = peers@.take(i + 1);
                assert(t.drop_last() =~= peers@.take(i as int));
                assert(t.last() == peer);
            }
            let ghost before = self.unconnected@;
            if is_new {
                self.unconnected.push(peer);
            }
            proof {
                let t = peers@.take(i + 1);
                let f = peers@.take(i as int).filter(pred);
                assert(t.len() == i + 1);
                assert(t.drop_last() =~= peers@.take(i as int));
                assert(t.last() == peer);
                reveal_with_fuel(Seq::filter, 2);
                assert(t.filter(pred) == if pred(peer) {
                    f.push(peer)
                } else {
                    f
                });
                if is_new {
                    assert(self.unconnected@ =~= old(self).unconnected() + f.push(peer));
                }
            }
            i = i + 1;
        }
        assert(peers@.take(i as int) =~= peers@);
    }

    /// Hands out up to `amount` of the peers waiting to be connected, the first ones.
    pub fn get_unconnected(&mut self, amount: usize) -> (r: Vec<PeerInfo>)
        requires
            old(self).wf(),
        ensures
            final(self).wf(),
            ({
                let n = if amount < old(self).unconnected().len() {
                    amount as int
                } else {
                    old(self).unconnected().len() as int
                };
                &&& r@ == old(self).unconnected().take(n)
                &&& final(self).unconnected() == old(self).unconnected().skip(n)
            }),
            final(self).ids() == old(self).ids(),
            final(self).addrs() == old(self).addrs(),
            final(self).tokens() == old(self).tokens(),
            final(self).utp() == old(self).utp(),
    {
        let n = if amount < self.unconnected.len() {
            amount
        } else {
            self.unconnected.len()
        };
        let mut taken = self.unconnected.split_off(n);
        std::mem::swap(&mut taken, &mut self.unconnected);
        taken
    }

    /// Notes the peer `id`, at `addr`, behind TCP connection `token`; a connection whose
    /// peer was known keeps its address.
    pub fn add_connected_id(&mut self, token: usize, id: [u8; PEER_ID_LENGTH], addr: PeerAddr)
        requires
            old(self).wf(),
        ensures
            final(self).wf(),
            final(self).tokens() == old(self).tokens().insert(
                token,
                PeerInfo {
                    addr: if old(self).tokens().contains_key(token) {
                        old(self).tokens()[token].addr
                    } else {
                        addr
                    },
                    id: Some(id),
                },
            ),
            final(self).ids() == old(self).ids().insert(id@),
            final(self).addrs() == old(self).addrs(),
            final(self).utp() == old(self).utp(),
            final(self).unconnected() == old(self).unconnected(),
    {
        let known = match self.token_to_info.get(&token) {
            Some(info) => info.addr,
            None => addr,
        };
        self.token_to_info.insert(token, PeerInfo { addr: known, id: Some(id) });
        self.insert_id(id);
    }

    /// Notes the peer `id`, at `addr`, behind uTP connection `connection_id`.
    pub fn add_connected_id_utp(
        &mut self,
        connection_id: u16,
        id: [u8; PEER_ID_LENGTH],
        addr: PeerAddr,
    )
        requires
            old(self).wf(),
        ensures
            final(self).wf(),
            final(self).ids() == old(self).ids().insert(id@),
            final(self).utp() == old(self).utp().insert((addr, connection_id), id),
            final(self).addrs() == old(self).addrs(),
            final(self).tokens() == old(self).tokens(),
            final(self).unconnected() == old(self).unconnected(),
    {
        self.insert_id(id);
        self.insert_utp(addr, connection_id, id);
    }

    /// Notes that `peer_info` is connected over TCP connection `token`.
    pub fn connected(&mut self, token: usize, peer_info: PeerInfo)
        requires
            old(self).wf(),
        ensures
            final(self).wf(),
            final(self).ids() == with_id(old(self).ids(), peer_info),
            final(self).addrs() == old(self).addrs().insert(peer_info.addr),
            final(self).tokens() == old(self).tokens().insert(token, peer_info),
            final(self).utp() == old(self).utp(),
            final(self).unconnected() == old(self).unconnected(),
    {
        match peer_info.id {
            Some(id) => self.insert_id(id),
            None => {},
        }
        self.insert_addr(peer_info.addr);
        self.token_to_info.insert(token, peer_info);
    }

    /// Notes that `peer_info` is connected over uTP.
    pub fn connected_utp(&mut self, _id: u16, peer_info: PeerInfo)
        requires
            old(self).wf(),
        ensures
            final(self).wf(),
            final(self).ids() == with_id(old(self).ids(), peer_info),
            final(self).addrs() == old(self).addrs().insert(peer_info.addr),
            final(self).tokens() == old(self).tokens(),
            final(self).utp() == old(self).utp(),
            final(self).unconnected() == old(self).unconnected(),
    {
        match peer_info.id {
            Some(id) => self.insert_id(id),
            None => {},
        }
        self.insert_addr(peer_info.addr);
    }

    /// Forgets the peer behind TCP connection `token`, which must be known.
    pub fn disconnected(&mut self, token: usize)
        requires
            old(self).wf(),
            old(self).tokens().contains_key(token),
        ensures
            final(self).wf(),
            final(self).ids() == without_id(old(self).ids(), old(self).tokens()[token]),
            final(self).addrs() == old(self).addrs().remove(old(self).tokens()[token].addr),
            final(self).tokens() == old(self).tokens().remove(token),
            final(self).utp() == old(self).utp(),
            final(self).unconnected() == old(self).unconnected(),
    {
        let info = match self.token_to_info.get(&token) {
            Some(i) => *i,
            None => {
                return;
            },
        };
        match info.id {
            Some(id) => self.remove_id(id),
            None => {},
        }
        self.remove_addr(info.addr);
        self.token_to_info.remove(&token);
    }

    /// Forgets the peer behind uTP connection `id` with `addr`: its id, when the connection
    /// was known, and its address.
    pub fn disconnected_utp(&mut self, addr: PeerAddr, id: u16)
        requires
            old(self).wf(),
        ensures
            final(self).wf(),
            final(self).utp() == old(self).utp().remove((addr, id)),
            final(self).ids() == if old(self).utp().contains_key((addr, id)) {
                old(self).ids().remove(old(self).utp()[(addr, id)]@)
            } else {
                old(self).ids()
            },
            final(self).addrs() == old(self).addrs().remove(addr),
            final(self).tokens() == old(self).tokens(),
            final(self).unconnected() == old(self).unconnected(),
    {
        match self.remove_utp(addr, id) {
            Some(peer_id) => self.remove_id(peer_id),
            None => {},
        }
        self.remove_addr(addr);
    }

    /// Whether peers wait to be connected.
    pub fn have_unconnected(&self) -> (r: bool)
        ensures
            r == (self.unconnected().len() > 0),
    {
        self.unconnected.len() > 0
    }
}

/// A peer noted connected over TCP and then disconnected is forgotten: its connection,
/// its address and its id.
pub proof fn lemma_connected_then_disconnected(
    ids: Set<Seq<u8>>,
    addrs: Set<PeerAddr>,
    tokens: Map<usize, PeerInfo>,
    token: usize,
    info: PeerInfo,
)
    ensures
        ({
            let tokens1 = tokens.insert(token, info);
            let known = tokens1[token];
            &&& !tokens1.remove(token).contains_key(token)
            &&& !addrs.insert(info.addr).remove(known.addr).contains(info.addr)
            &&& info.id matches Some(id) ==> !without_id(with_id(ids, info), known).contains(id@)
            &&& info.id matches Some(id) ==> with_id(ids, info).contains(id@)
        }),
{
}

/// A peer noted connected over uTP and then disconnected is forgotten: its connection and
/// its id.
pub proof fn lemma_utp_connected_then_disconnected(
    ids: Set<Seq<u8>>,
    utp: Map<(PeerAddr, u16), [u8; PEER_ID_LENGTH]>,
    addr: PeerAddr,
    connection_id: u16,
    id: [u8; PEER_ID_LENGTH],
)
    ensures
        ({
            let utp1 = utp.insert((addr, connection_id), id);
            &&& utp1.contains_key((addr, connection_id))
            &&& !utp1.remove((addr, connection_id)).contains_key((addr, connection_id))
            &&& !ids.insert(id@).remove(utp1[(addr, connection_id)]@).contains(id@)
        }),
{
}

/// Every peer a tracker's answer queues is new: not connected by id, or, without an id,
/// by address.
pub proof fn lemma_queued_peers_are_new(ids: Set<Seq<u8>>, addrs: Set<PeerAddr>, peers: Seq<PeerInfo>)
    ensures
        ({
            let queued = peers.filter(|p: PeerInfo| is_new_peer(ids, addrs, p));
            &&& queued.len() <= peers.len()
            &&& forall|i: int| 0 <= i < queued.len() ==> is_new_peer(ids, addrs, #[trigger] queued[i])
        }),
{
    peers.filter_lemma(|p: PeerInfo| is_new_peer(ids, addrs, p));
}

/// The peers handed out to be connected, followed by those left waiting, are the peers that
/// waited: none is lost or handed out twice.
pub proof fn lemma_unconnected_split(waiting: Seq<PeerInfo>, n: int)
    requires
        0 <= n <= waiting.len(),
    ensures
        waiting.take(n) + waiting.skip(n) == waiting,
{
    assert(waiting.take(n) + waiting.skip(n) =~= waiting);
}

} // verus!
