//! A client's decisions: stamping what the local instrument plays, merging
//! what other peers send directly, reconciling with the server's snapshots,
//! and choosing which of its own events to report again. Sockets and MIDI
//! ports live around it.

use vstd::prelude::*;
use crate::event::{key_of, MidiEvent, MiditipEvent, SlotKey};
use crate::state::{accepted_events, accepts, differing, merge_all, merged, midi_of, represents, MiditipState};
use crate::wire::{encode_client_msg, events_bytes, frame, ClientMsg, PeerAddr, EVENTS_TAG};

verus! {

/// After this many new local events a report is due.
pub const REPORT_BATCH: usize = 16;

/// A report carries at most this many events, the oldest first.
pub const MAX_REPORT: usize = 1024;

/// What a client holds, as values.
pub ghost struct ClientView {
    pub peer_id: u8,
    /// The sequence number of the last event stamped.
    pub msg_id: u8,
    pub peers: Seq<PeerAddr>,
    /// What the local output sounds.
    pub state: Map<SlotKey, MiditipEvent>,
    /// Local events that no snapshot has shown yet.
    pub pending: Seq<MiditipEvent>,
    /// Local events since the last report.
    pub fresh: nat,
}

/// The bytes of a report of `pending`: its oldest `MAX_REPORT` events.
pub open spec fn report_bytes(pending: Seq<MiditipEvent>) -> Seq<u8> {
    let n = if pending.len() <= MAX_REPORT { pending.len() as int } else { MAX_REPORT as int };
    frame(EVENTS_TAG, events_bytes(pending.take(n)))
}

/// Whether a message that came straight from a peer is played: unless it is
/// older than, or the same as, what its slot holds.
pub open spec fn plays(state: Map<SlotKey, MiditipEvent>, e: MiditipEvent) -> bool {
    accepts(state, e) || key_of(e) is None
}

/// A client after the local instrument played the message of `e`, which it
/// stamped.
pub open spec fn after_local(v: ClientView, e: MiditipEvent) -> ClientView {
    ClientView {
        msg_id: e.msg_id,
        state: merged(v.state, e),
        pending: v.pending.push(e),
        fresh: if v.fresh < usize::MAX { v.fresh + 1 } else { v.fresh },
        ..v
    }
}

/// The client side of a session.
pub struct Client {
    peer_id: u8,
    msg_id: u8,
    peers: Vec<PeerAddr>,
    miditip_state: MiditipState,
    pending: Vec<MiditipEvent>,
    fresh: usize,
}

impl View for Client {
    type V = ClientView;

    closed spec fn view(&self) -> ClientView {
        ClientView {
            peer_id: self.peer_id,
            msg_id: self.msg_id,
            peers: self.peers@,
            state: self.miditip_state@,
            pending: self.pending@,
            fresh: self.fresh as nat,
        }
    }
}

impl Client {
    /// The records of what the output sounds, in their stored order.
    pub closed spec fn state_records(&self) -> Seq<MiditipEvent> {
        self.miditip_state.records()
    }

    pub open spec fn wf(&self) -> bool {
        represents(self.state_records(), self@.state)
    }

    /// A client that the server gave id `peer_id`, knowing no peer yet.
    pub fn new(peer_id: u8) -> (r: Client)
        ensures
            r.wf(),
            r@ == (ClientView {
                peer_id,
                msg_id: 0,
                peers: Seq::empty(),
                state: Map::empty(),
                pending: Seq::empty(),
                fresh: 0,
            }),
    {
        Client {
            peer_id,
            msg_id: 0,
            peers: Vec::new(),
            miditip_state: MiditipState::new(),
            pending: Vec::new(),
            fresh: 0,
        }
    }

    /// The id the server gave this client.
    pub fn peer_id(&self) -> (r: u8)
        ensures
            r == self@.peer_id,
    {
        self.peer_id
    }

    /// The datagram addresses of the other peers.
    pub fn peers(&self) -> (r: &Vec<PeerAddr>)
        ensures
            r@ == self@.peers,
    {
        &self.peers
    }

    /// The number of local events no snapshot has shown yet.
    pub fn pending_len(&self) -> (r: usize)
        ensures
            r == self@.pending.len(),
    {
        self.pending.len()
    }

    /// What the local output sounds on slot `k`.
    pub fn sounding(&self, k: SlotKey) -> (r: Option<MiditipEvent>)
        requires
            self.wf(),
        ensures
            r == (if self@.state.contains_key(k) { Some(self@.state[k]) } else { None::<MiditipEvent> }),
    {
        self.miditip_state.lookup(k)
    }

    /// Tags a local message with this client's id and the next sequence
    /// number, which follows the last one modulo 256.
    pub fn miditip_event(&mut self, m: MidiEvent) -> (r: MiditipEvent)
        ensures
            final(self)@ == (ClientView { msg_id: r.msg_id, ..old(self)@ }),
            final(self).wf() == old(self).wf(),
            r.msg_id == (old(self)@.msg_id + 1) % 256,
            r.peer_id == old(self)@.peer_id,
            r.midi() == m,
    {
        self.msg_id = self.msg_id.wrapping_add(1);
        MiditipEvent::from_midi(m, self.peer_id, self.msg_id)
    }

    /// A message the local instrument played: stamped, merged into what the
    /// output sounds, and kept to be reported until a snapshot shows it. The
    /// caller sends the returned event to every peer and plays `m`.
    pub fn local_event(&mut self, m: MidiEvent) -> (r: MiditipEvent)
        requires
            old(self).wf(),
        ensures
            final(self).wf(),
            r.midi() == m,
            r.peer_id == old(self)@.peer_id,
            r.msg_id == (old(self)@.msg_id + 1) % 256,
            final(self)@ == after_local(old(self)@, r),
    {
        let e = self.miditip_event(m);
        self.miditip_state.apply(e);
        self.pending.push(e);
        if self.fresh < usize::MAX {
            self.fresh += 1;
        }
        e
    }

    /// A new list of peers from the server replaces the old one.
    pub fn on_peer_list(&mut self, list: Vec<PeerAddr>)
        requires
            old(self).wf(),
        ensures
            final(self).wf(),
            final(self)@ == (ClientView { peers: list@, ..old(self)@ }),
    {
        self.peers = list;
    }

    /// A datagram from a peer: the event is merged into what the output
    /// sounds, and its message is returned to be played unless it was stale.
    pub fn on_datagram(&mut self, raw: &[u8; 5]) -> (r: Option<MidiEvent>)
        requires
            old(self).wf(),
        ensures
            final(self).wf(),
            ({
                let e = MiditipEvent {
                    status: raw@[0],
                    data1: raw@[1],
                    data2: raw@[2],
                    peer_id: raw@[3],
                    msg_id: raw@[4],
                };
                &&& final(self)@ == (ClientView { state: merged(old(self)@.state, e), ..old(self)@ })
                &&& r == (if plays(old(self)@.state, e) { Some(e.midi()) } else { None::<MidiEvent> })
            }),
    {
        let e = MiditipEvent::from_array(raw);
        assert(e == MiditipEvent { status: raw@[0], data1: raw@[1], data2: raw@[2], peer_id: raw@[3], msg_id: raw@[4] });
        let tracked_kind = e.key().is_some();
        let stored = self.miditip_state.apply(e);
        if stored || !tracked_kind {
            Some(e.midi_event())
        } else {
            None
        }
    }

    /// A snapshot from the server. The local events still pending are
    /// offered to it, and those it does not show yet stay pending. The
    /// result, in the order of its records, gives the messages that bring the
    /// output into agreement with it (see `MiditipState::diff`), and it
    /// becomes what the output sounds.
    pub fn on_snapshot(&mut self, snapshot: MiditipState) -> (r: Vec<MidiEvent>)
        requires
            old(self).wf(),
            snapshot.wf(),
        ensures
            final(self).wf(),
            r@ == midi_of(differing(old(self)@.state, final(self).state_records())),
            final(self)@ == (ClientView {
                state: merge_all(snapshot@, old(self)@.pending),
                pending: accepted_events(snapshot@, old(self)@.pending),
                ..old(self)@
            }),
    {
        let mut snapshot = snapshot;
        let still_pending = snapshot.merge_events(&self.pending);
        let out = self.miditip_state.diff(&snapshot);
        self.miditip_state = snapshot;
        self.pending = still_pending;
        out
    }

    /// Whether enough local events have come since the last report.
    pub fn report_due(&self) -> (r: bool)
        ensures
            r == (self@.fresh >= REPORT_BATCH),
    {
        self.fresh >= REPORT_BATCH
    }

    /// The report to send the server: the oldest pending events, at most
    /// `MAX_REPORT` of them, in one frame.
    pub fn report(&mut self) -> (r: Vec<u8>)
        requires
            old(self).wf(),
        ensures
            final(self).wf(),
            r@ == report_bytes(old(self)@.pending),
            final(self)@ == (ClientView { fresh: 0, ..old(self)@ }),
    {
        let n: usize = if self.pending.len() <= MAX_REPORT { self.pending.len() } else { MAX_REPORT };
        let mut batch: Vec<MiditipEvent> = Vec::new();
        let mut i: usize = 0;
        while i < n
            invariant
                n <= self.pending.len(),
                n <= MAX_REPORT,
                i <= n,
                batch@ == self.pending@.take(i as int),
            decreases n - i,
        {
            batch.push(self.pending[i]);
            assert(self.pending@.take(i + 1) =~= self.pending@.take(i as int).push(self.pending@[i as int]));
            i += 1;
        }
        let msg = ClientMsg::MiditipEvents(batch);
        let bytes = encode_client_msg(&msg);
        self.fresh = 0;
        bytes
    }
}

} // verus!
