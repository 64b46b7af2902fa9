//! The rendezvous server's decisions: which id a joining peer gets, which
//! peers are active, what each of them is told, and the merged state.
//! Sockets and threads live around it; everything here is a step from one
//! table to the next.

use vstd::prelude::*;
use vstd::set_lib::{lemma_int_range, lemma_len_subset, set_int_range};
use crate::event::MiditipEvent;
use crate::state::{merge_all, MiditipState};
use crate::wire::{
    encode_server_msg, peer_list_bytes, state_bytes, PeerAddr, ServerMsg, MAX_FRAME_EVENTS,
};

verus! {

/// An active peer: its id and the address its datagrams go to.
#[derive(PartialEq, Eq, Structural, Clone, Copy, Debug)]
pub struct Peer {
    pub id: u8,
    pub addr: PeerAddr,
}

/// Why a peer could not join.
#[derive(PartialEq, Eq, Structural, Clone, Copy, Debug)]
pub enum SessionError {
    /// All 256 ids are taken.
    SessionFull,
}

/// Bytes to write to the connection of one peer.
pub struct Outgoing {
    pub to: u8,
    pub bytes: Vec<u8>,
}

pub open spec fn ids_of(peers: Seq<Peer>) -> Seq<u8> {
    peers.map_values(|p: Peer| p.id)
}

pub open spec fn addrs_of(peers: Seq<Peer>) -> Seq<PeerAddr> {
    peers.map_values(|p: Peer| p.addr)
}

/// Some peer of `peers` has id `id`.
pub open spec fn has_id(peers: Seq<Peer>, id: u8) -> bool {
    ids_of(peers).contains(id)
}

/// No two peers share an id.
pub open spec fn unique_ids(peers: Seq<Peer>) -> bool {
    forall|i: int, j: int| 0 <= i < peers.len() && 0 <= j < peers.len() && i != j ==> peers[i].id != peers[j].id
}

/// `id` is free, and every smaller id is taken.
pub open spec fn lowest_free(peers: Seq<Peer>, id: u8) -> bool {
    &&& !has_id(peers, id)
    &&& forall|j: u8| j < id ==> has_id(peers, j)
}

/// The peers but the one with id `id`.
pub open spec fn without(peers: Seq<Peer>, id: u8) -> Seq<Peer> {
    peers.filter(|p: Peer| p.id != id)
}

pub open spec fn not_addr(a: PeerAddr) -> spec_fn(PeerAddr) -> bool {
    |x: PeerAddr| x != a
}

/// The addresses of the peers, in order, leaving out every occurrence of `a`.
pub open spec fn others(peers: Seq<Peer>, a: PeerAddr) -> Seq<PeerAddr> {
    addrs_of(peers).filter(not_addr(a))
}

/// Peers with distinct ids are at most 256.
proof fn lemma_peer_count(peers: Seq<Peer>)
    requires
        unique_ids(peers),
    ensures
        peers.len() <= 256,
{
    let ids = peers.map_values(|p: Peer| p.id as int);
    assert(ids.no_duplicates()) by {
        assert forall|i: int, j: int| 0 <= i < ids.len() && 0 <= j < ids.len() && i != j implies ids[i] != ids[j] by {
            assert(peers[i].id != peers[j].id);
        }
    }
    ids.unique_seq_to_set();
    lemma_int_range(0, 256);
    assert(ids.to_set().subset_of(set_int_range(0, 256)));
    lemma_len_subset(ids.to_set(), set_int_range(0, 256));
}

/// The list sent to a peer never holds its own address.
pub proof fn lemma_peer_list_excludes_self(peers: Seq<Peer>, i: int)
    requires
        0 <= i < peers.len(),
    ensures
        !others(peers, peers[i].addr).contains(peers[i].addr),
{
    let a = peers[i].addr;
    let list = others(peers, a);
    if list.contains(a) {
        let k = choose|k: int| 0 <= k < list.len() && list[k] == a;
        addrs_of(peers).lemma_filter_pred(not_addr(a), k);
    }
}

/// Once a peer has left, the id it held is given to the next peer to join
/// whenever every smaller id is still taken; ids stay distinct throughout.
pub proof fn lemma_rejoin_reuses_id(peers: Seq<Peer>, k: u8)
    requires
        unique_ids(peers),
        forall|j: u8| j <= k ==> has_id(peers, j),
    ensures
        lowest_free(without(peers, k), k),
        unique_ids(without(peers, k)),
{
    lemma_without(peers, k);
    let w = without(peers, k);
    assert forall|j: u8| j < k implies has_id(w, j) by {
        assert(has_id(peers, j));
        let i = choose|i: int| 0 <= i < ids_of(peers).len() && ids_of(peers)[i] == j;
        assert(peers[i].id == j);
        peers.lemma_filter_contains(|p: Peer| p.id != k, i);
        let m = choose|m: int| 0 <= m < w.len() && w[m] == peers[i];
        assert(ids_of(w)[m] == j);
    }
}

/// What filtering by id leaves: no peer with that id, distinct ids, and
/// every other peer still there.
proof fn lemma_without(peers: Seq<Peer>, k: u8)
    requires
        unique_ids(peers),
    ensures
        !has_id(without(peers, k), k),
        unique_ids(without(peers, k)),
        forall|j: u8| j != k && has_id(peers, j) ==> has_id(without(peers, k), j),
    decreases peers.len(),
{
    let pred = |p: Peer| p.id != k;
    let w = without(peers, k);
    if peers.len() == 0 {
        reveal(Seq::filter);
        assert(w =~= Seq::<Peer>::empty());
        assert(ids_of(w) =~= Seq::<u8>::empty());
    } else {
        let t = peers.drop_last();
        let x = peers.last();
        assert(unique_ids(t)) by {
            assert forall|i: int, j: int| 0 <= i < t.len() && 0 <= j < t.len() && i != j implies t[i].id != t[j].id by {
                assert(t[i] == peers[i] && t[j] == peers[j]);
            }
        }
        lemma_without(t, k);
        let wt = without(t, k);
        assert(peers == t.push(x));
        t.lemma_filter_push(x, pred);
        assert(!has_id(t, x.id)) by {
            if has_id(t, x.id) {
                let i = choose|i: int| 0 <= i < ids_of(t).len() && ids_of(t)[i] == x.id;
                assert(peers[i].id == peers[peers.len() - 1].id);
            }
        }
        assert(forall|j: u8| has_id(wt, j) ==> has_id(t, j)) by {
            assert forall|j: u8| has_id(wt, j) implies has_id(t, j) by {
                let i = choose|i: int| 0 <= i < ids_of(wt).len() && ids_of(wt)[i] == j;
                t.lemma_filter_contains_rev(pred, wt[i]);
                let m = choose|m: int| 0 <= m < t.len() && t[m] == wt[i];
                assert(ids_of(t)[m] == j);
            }
        }
        if x.id != k {
            assert(w == wt.push(x));
            assert(ids_of(w) =~= ids_of(wt).push(x.id));
            assert forall|i: int, j: int| 0 <= i < w.len() && 0 <= j < w.len() && i != j implies w[i].id != w[j].id by {
                if i == wt.len() {
                    assert(ids_of(wt)[j] == w[j].id);
                } else if j == wt.len() {
                    assert(ids_of(wt)[i] == w[i].id);
                }
            }
            assert forall|j: u8| j != k && has_id(peers, j) implies has_id(w, j) by {
                if j == x.id {
                    assert(ids_of(w)[wt.len() as int] == j);
                } else {
                    let i = choose|i: int| 0 <= i < ids_of(peers).len() && ids_of(peers)[i] == j;
                    assert(i != peers.len() - 1);
                    assert(t[i] == peers[i]);
                    assert(ids_of(t)[i] == j);
                    assert(has_id(t, j));
                    assert(has_id(wt, j));
                    let m = choose|m: int| 0 <= m < ids_of(wt).len() && ids_of(wt)[m] == j;
                    assert(w[m] == wt[m]);
                    assert(ids_of(w)[m] == j);
                }
            }
        } else {
            assert(w == wt);
            assert forall|j: u8| j != k && has_id(peers, j) implies has_id(w, j) by {
                let i = choose|i: int| 0 <= i < ids_of(peers).len() && ids_of(peers)[i] == j;
                assert(i != peers.len() - 1);
                assert(t[i] == peers[i]);
                assert(ids_of(t)[i] == j);
                assert(has_id(t, j));
            }
        }
    }
}

/// The server's table of active peers and the merged state of the session.
pub struct Server {
    peers: Vec<Peer>,
    miditip_state: MiditipState,
}

impl View for Server {
    type V = Seq<Peer>;

    closed spec fn view(&self) -> Seq<Peer> {
        self.peers@
    }
}

impl Server {
    pub closed spec fn session_state(&self) -> MiditipState {
        self.miditip_state
    }

    pub open spec fn wf(&self) -> bool {
        &&& unique_ids(self@)
        &&& self.session_state().wf()
    }

    /// A server with no peers and an empty state.
    pub fn new() -> (r: Server)
        ensures
            r.wf(),
            r@ == Seq::<Peer>::empty(),
            r.session_state()@ == Map::<crate::event::SlotKey, MiditipEvent>::empty(),
    {
        Server { peers: Vec::new(), miditip_state: MiditipState::new() }
    }

    /// The merged state of the session.
    pub fn state(&self) -> (r: &MiditipState)
        ensures
            *r == self.session_state(),
    {
        &self.miditip_state
    }

    /// Whether a peer has id `id`.
    fn has_peer(&self, id: u8) -> (r: bool)
        ensures
            r == has_id(self@, id),
    {
        let mut i: usize = 0;
        while i < self.peers.len()
            invariant
                i <= self.peers.len(),
                forall|j: int| 0 <= j < i ==> self.peers@[j].id != id,
            decreases self.peers.len() - i,
        {
            if self.peers[i].id == id {
                assert(ids_of(self@)[i as int] == id);
                return true;
            }
            i += 1;
        }
        assert(!ids_of(self@).contains(id)) by {
            if ids_of(self@).contains(id) {
                let j = choose|j: int| 0 <= j < ids_of(self@).len() && ids_of(self@)[j] == id;
                assert(self.peers@[j].id == id);
            }
        }
        false
    }

    /// The smallest id no active peer holds, if any is left.
    pub fn unused_peer_id(&self) -> (r: Option<u8>)
        ensures
            r matches Some(id) ==> lowest_free(self@, id),
            r is None ==> forall|j: u8| has_id(self@, j),
    {
        let mut id: u16 = 0;
        while id < 256
            invariant
                id <= 256,
                forall|j: u8| j < id ==> has_id(self@, j),
            decreases 256 - id,
        {
            if !self.has_peer(id as u8) {
                return Some(id as u8);
            }
            id += 1;
        }
        None
    }

    /// Admits a peer whose connection came from `observed` and whose
    /// datagrams arrive on `port`: it gets the smallest free id, and its
    /// address is `observed` with that port. Fails when all ids are taken.
    pub fn accept_peer(&mut self, observed: PeerAddr, port: u16) -> (r: Result<u8, SessionError>)
        requires
            old(self).wf(),
        ensures
            final(self).wf(),
            final(self).session_state() == old(self).session_state(),
            r is Err <==> forall|j: u8| has_id(old(self)@, j),
            r matches Ok(id) ==> lowest_free(old(self)@, id)
                && final(self)@ == old(self)@.push(Peer { id, addr: observed.with_port(port) }),
            r is Err ==> final(self)@ == old(self)@,
    {
        match self.unused_peer_id() {
            None => Err(SessionError::SessionFull),
            Some(id) => {
                let peer = Peer { id, addr: observed.with_port(port) };
                self.peers.push(peer);
                assert forall|i: int, j: int|
                    0 <= i < self@.len() && 0 <= j < self@.len() && i != j implies self@[i].id != self@[j].id by {
                    if i == self@.len() - 1 {
                        assert(ids_of(old(self)@)[j] == self@[j].id);
                    } else if j == self@.len() - 1 {
                        assert(ids_of(old(self)@)[i] == self@[i].id);
                    }
                }
                Ok(id)
            },
        }
    }

    /// Drops the peer with id `id`, if there is one.
    pub fn remove_peer(&mut self, id: u8)
        requires
            old(self).wf(),
        ensures
            final(self).wf(),
            final(self).session_state() == old(self).session_state(),
            final(self)@ == without(old(self)@, id),
    {
        let ghost pred = |p: Peer| p.id != id;
        let mut kept: Vec<Peer> = Vec::new();
        let mut i: usize = 0;
        while i < self.peers.len()
            invariant
                i <= self.peers.len(),
                kept@ == self.peers@.take(i as int).filter(pred),
                pred == (|p: Peer| p.id != id),
            decreases self.peers.len() - i,
        {
            let p = self.peers[i];
            assert(self.peers@.take(i + 1) == self.peers@.take(i as int).push(p));
            proof {
                self.peers@.take(i as int).lemma_filter_push(p, pred);
            }
            if p.id != id {
                kept.push(p);
            }
            i += 1;
        }
        assert(self.peers@.take(i as int) =~= self.peers@);
        proof {
            lemma_without(old(self)@, id);
        }
        self.peers = kept;
    }

    /// Merges a batch of events a peer reported.
    pub fn receive_events(&mut self, events: &Vec<MiditipEvent>)
        requires
            old(self).wf(),
        ensures
            final(self).wf(),
            final(self)@ == old(self)@,
            final(self).session_state()@ == merge_all(old(self).session_state()@, events@),
    {
        self.miditip_state.merge_events(events);
    }

    /// The peer list each active peer is to receive, in table order: the
    /// addresses of the other peers.
    pub fn peer_lists(&self) -> (r: Vec<Outgoing>)
        requires
            self.wf(),
        ensures
            r@.len() == self@.len(),
            forall|i: int| 0 <= i < r@.len() ==> (#[trigger] r@[i]).to == self@[i].id
                && r@[i].bytes@ == peer_list_bytes(others(self@, self@[i].addr)),
    {
        proof {
            lemma_peer_count(self@);
        }
        let mut out: Vec<Outgoing> = Vec::new();
        let mut i: usize = 0;
        while i < self.peers.len()
            invariant
                self.wf(),
                self@.len() <= 256,
                i <= self.peers.len(),
                out@.len() == i,
                forall|k: int| 0 <= k < i ==> (#[trigger] out@[k]).to == self@[k].id
                    && out@[k].bytes@ == peer_list_bytes(others(self@, self@[k].addr)),
            decreases self.peers.len() - i,
        {
            let own = self.peers[i].addr;
            let ghost pred = not_addr(own);
            let mut list: Vec<PeerAddr> = Vec::new();
            let mut j: usize = 0;
            while j < self.peers.len()
                invariant
                    j <= self.peers.len(),
                    pred == not_addr(own),
                    list@ == addrs_of(self@).take(j as int).filter(pred),
                decreases self.peers.len() - j,
            {
                let a = self.peers[j].addr;
                assert(addrs_of(self@).take(j + 1) == addrs_of(self@).take(j as int).push(a));
                proof {
                    addrs_of(self@).take(j as int).lemma_filter_push(a, pred);
                }
                if a != own {
                    list.push(a);
                }
                j += 1;
            }
            assert(addrs_of(self@).take(j as int) =~= addrs_of(self@));
            proof {
                addrs_of(self@).lemma_filter_len(pred);
            }
            let msg = ServerMsg::NewPeerList(list);
            let bytes = encode_server_msg(&msg);
            out.push(Outgoing { to: self.peers[i].id, bytes });
            i += 1;
        }
        out
    }

    /// The state broadcast of one tick: the merged state, in one frame, for
    /// each active peer in table order; nothing while the state is too large
    /// for a frame.
    pub fn state_frames(&self) -> (r: Vec<Outgoing>)
        requires
            self.wf(),
        ensures
            self.session_state().records().len() > MAX_FRAME_EVENTS ==> r@.len() == 0,
            self.session_state().records().len() <= MAX_FRAME_EVENTS ==> r@.len() == self@.len(),
            forall|i: int| 0 <= i < r@.len() ==> (#[trigger] r@[i]).to == self@[i].id
                && r@[i].bytes@ == state_bytes(self.session_state().records()),
    {
        let mut out: Vec<Outgoing> = Vec::new();
        if self.miditip_state.len() > MAX_FRAME_EVENTS {
            return out;
        }
        let msg = ServerMsg::MiditipState(self.miditip_state.snapshot());
        let bytes = encode_server_msg(&msg);
        let mut i: usize = 0;
        while i < self.peers.len()
            invariant
                i <= self.peers.len(),
                out@.len() == i,
                bytes@ == state_bytes(self.session_state().records()),
                forall|k: int| 0 <= k < i ==> (#[trigger] out@[k]).to == self@[k].id
                    && out@[k].bytes@ == state_bytes(self.session_state().records()),
            decreases self.peers.len() - i,
        {
            out.push(Outgoing { to: self.peers[i].id, bytes: copy_bytes(&bytes) });
            i += 1;
        }
        out
    }
}

fn copy_bytes(b: &Vec<u8>) -> (r: Vec<u8>)
    ensures
        r@ == b@,
{
    let mut out: Vec<u8> = Vec::new();
    let mut i: usize = 0;
    while i < b.len()
        invariant
            i <= b.len(),
            out@ == b@.take(i as int),
        decreases b.len() - i,
    {
        out.push(b[i]);
        assert(b@.take(i + 1) =~= b@.take(i as int).push(b@[i as int]));
        i += 1;
    }
    assert(b@.take(i as int) =~= b@);
    out
}

} // verus!
