//! Networked MIDI jamming: a per-peer last-writer-wins state that reconciles
//! lossy, reordered event streams, the wire formats the peers exchange, and
//! the decision cores of the rendezvous server and of a client.

pub mod event;
pub mod state;
pub mod midi_state;
pub mod wire;
pub mod server;
pub mod client;
