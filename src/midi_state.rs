//! A dense picture of one output: for each of the 16 channels, its
//! instrument, its 128 controller values and its 128 note slots.

use vstd::prelude::*;

verus! {

/// The number of MIDI channels.
pub const CHANNELS: usize = 16;

/// The number of notes, and of controllers, on a channel.
pub const SLOTS: usize = 128;

/// One channel of a [`MidiState`].
pub struct ChannelState {
    instrument: u8,
    controllers: [u8; 128],
    /// The first bit tells whether the note is on, the seven others its
    /// velocity.
    notes: [u8; 128],
}

impl ChannelState {
    pub closed spec fn instrument(&self) -> u8 {
        self.instrument
    }

    pub closed spec fn controllers(&self) -> Seq<u8> {
        self.controllers@
    }

    pub closed spec fn notes(&self) -> Seq<u8> {
        self.notes@
    }

    /// A channel at rest: program 0, every controller 0, every note off.
    pub open spec fn at_rest(&self) -> bool {
        &&& self.instrument() == 0
        &&& self.controllers().len() == SLOTS
        &&& self.notes().len() == SLOTS
        &&& forall|i: int| 0 <= i < SLOTS ==> self.controllers()[i] == 0
        &&& forall|i: int| 0 <= i < SLOTS ==> self.notes()[i] == 0
    }

    /// The program of this channel.
    pub fn program(&self) -> (r: u8)
        ensures
            r == self.instrument(),
    {
        self.instrument
    }

    /// The value of controller `n`.
    pub fn controller(&self, n: usize) -> (r: u8)
        requires
            n < SLOTS,
        ensures
            r == self.controllers()[n as int],
    {
        self.controllers[n]
    }

    /// The state of note `n`.
    pub fn note(&self, n: usize) -> (r: u8)
        requires
            n < SLOTS,
        ensures
            r == self.notes()[n as int],
    {
        self.notes[n]
    }

    /// A channel at rest.
    pub fn new() -> (r: ChannelState)
        ensures
            r.at_rest(),
    {
        ChannelState { instrument: 0, controllers: [0u8; 128], notes: [0u8; 128] }
    }
}

/// The sixteen channels of one output.
pub struct MidiState {
    channels: [ChannelState; 16],
}

impl MidiState {
    pub closed spec fn channels(&self) -> Seq<ChannelState> {
        self.channels@
    }

    /// Channel `c`.
    pub fn channel(&self, c: usize) -> (r: &ChannelState)
        requires
            c < CHANNELS,
        ensures
            *r == self.channels()[c as int],
    {
        &self.channels[c]
    }

    /// An output with every channel at rest.
    pub fn new() -> (r: MidiState)
        ensures
            r.channels().len() == CHANNELS,
            forall|c: int| 0 <= c < CHANNELS ==> (#[trigger] r.channels()[c]).at_rest(),
    {
        let channels = [
            ChannelState::new(),
            ChannelState::new(),
            ChannelState::new(),
            ChannelState::new(),
            ChannelState::new(),
            ChannelState::new(),
            ChannelState::new(),
            ChannelState::new(),
            ChannelState::new(),
            ChannelState::new(),
            ChannelState::new(),
            ChannelState::new(),
            ChannelState::new(),
            ChannelState::new(),
            ChannelState::new(),
            ChannelState::new(),
        ];
        MidiState { channels }
    }
}

} // verus!
