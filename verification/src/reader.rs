//! The serial reader, modelled as a state machine: Disconnected, where the
//! shell tries to open the device and reports back, and Connected, where each
//! read's outcome is handed in as an event. A timeout or an empty read is a
//! no-op; data feeds the frame accumulator and yields parsed messages; any
//! other read error drops the connection and clears the status flag. The shell
//! around the library performs the actual open, read, sleep and retry — this
//! type decides everything else.

use vstd::prelude::*;

use crate::message::ParsedMessage;
use crate::parser::{lossy, messages_of, models, pending_tail, FrameAccumulator};

verus! {

/// Baud rate at which the device is opened.
pub const BAUD_RATE: u32 = 115200;

/// Descriptor of an open serial connection: device path plus baud rate.
#[derive(Clone, Debug)]
pub struct ConnectionInfo {
    pub port_path: String,
    pub baudrate: u32,
}

impl ConnectionInfo {
    pub fn new(port_path: String, baudrate: u32) -> (r: ConnectionInfo)
        ensures
            r.port_path@ == port_path@,
            r.baudrate == baudrate,
    {
        ConnectionInfo { port_path, baudrate }
    }
}

/// The two states of the reader.
#[derive(Clone, Copy, Debug, PartialEq, Eq, Structural)]
pub enum LinkState {
    Disconnected,
    Connected,
}

/// Outcome of one blocking read, as the shell observed it.
pub enum ReadEvent {
    /// The read returned at least one byte.
    Data(Vec<u8>),
    /// The read returned zero bytes: a no-op.
    Empty,
    /// The read timed out: expected steady state, a no-op.
    Timeout,
    /// The read failed with any other error: the connection is gone.
    Failed,
}

/// The reader's state: link state, connection status flag, the last-known
/// connection descriptor, and the accumulator for partial frames.
pub struct ReaderTask {
    /// Current state of the open/read/reconnect loop.
    pub link: LinkState,
    /// True exactly while the task holds an open, error-free port.
    pub connected: bool,
    /// Descriptor of the last successful open; replaced wholesale on
    /// reconnect, not cleared on failure (only the flag is).
    pub info: Option<ConnectionInfo>,
    /// Device path to open.
    pub port_path: String,
    /// Accumulated text of the unfinished frame.
    pub acc: FrameAccumulator,
}

impl ReaderTask {
    /// A reader for the given device path, not yet connected.
    pub fn new(port_path: String) -> (r: ReaderTask)
        ensures
            r.link is Disconnected,
            !r.connected,
            r.info is None,
            r.port_path@ == port_path@,
            r.acc@ == Seq::<char>::empty(),
    {
        ReaderTask {
            link: LinkState::Disconnected,
            connected: false,
            info: None,
            port_path,
            acc: FrameAccumulator::new(),
        }
    }

    /// The status flag the presentation layer shows.
    pub fn is_connected(&self) -> (r: bool)
        ensures
            r == self.connected,
    {
        self.connected
    }

    /// The last-known connection descriptor.
    pub fn current_connection(&self) -> (r: Option<ConnectionInfo>)
        ensures
            match r {
                Some(ci) => self.info matches Some(own) && ci.port_path@ == own.port_path@
                    && ci.baudrate == own.baudrate,
                None => self.info is None,
            },
    {
        match &self.info {
            Some(ci) => Some(ConnectionInfo { port_path: ci.port_path.clone(), baudrate: ci.baudrate }),
            None => None,
        }
    }

    /// Report the outcome of an open attempt. Success publishes a fresh
    /// descriptor at `BAUD_RATE`, raises the status flag and starts a clean
    /// frame accumulator; failure changes nothing (the shell sleeps and
    /// retries).
    pub fn on_open_result(&mut self, ok: bool)
        requires
            old(self).link is Disconnected,
        ensures
            final(self).port_path@ == old(self).port_path@,
            ok ==> final(self).link is Connected && final(self).connected && (final(self).info
                matches Some(ci) && ci.port_path@ == old(self).port_path@ && ci.baudrate
                == BAUD_RATE) && final(self).acc@ == Seq::<char>::empty(),
            !ok ==> *final(self) == *old(self),
    {
        if ok {
            self.connected = true;
            self.info = Some(ConnectionInfo::new(self.port_path.clone(), BAUD_RATE));
            self.link = LinkState::Connected;
            self.acc = FrameAccumulator::new();
        }
    }

    /// Consume one read outcome while connected. Data is decoded and framed;
    /// zero bytes and timeouts change nothing; any other error lowers the
    /// status flag and returns the reader to Disconnected. The returned
    /// messages are exactly the complete frames now available, in order.
    pub fn on_read(&mut self, ev: ReadEvent) -> (msgs: Vec<ParsedMessage>)
        requires
            old(self).link is Connected,
        ensures
            final(self).port_path@ == old(self).port_path@,
            final(self).info == old(self).info,
            match ev {
                ReadEvent::Data(bytes) => final(self).link is Connected && final(self).connected
                    == old(self).connected && final(self).acc@ == pending_tail(
                    old(self).acc@ + lossy(bytes@),
                ) && models(msgs@) == messages_of(old(self).acc@ + lossy(bytes@)) && (forall|i: int|
                    0 <= i < msgs@.len() ==> (#[trigger] msgs@[i]).wf()),
                ReadEvent::Empty => *final(self) == *old(self) && msgs@ == Seq::<
                    ParsedMessage,
                >::empty(),
                ReadEvent::Timeout => *final(self) == *old(self) && msgs@ == Seq::<
                    ParsedMessage,
                >::empty(),
                ReadEvent::Failed => final(self).link is Disconnected && !final(self).connected
                    && final(self).acc@ == old(self).acc@ && msgs@ == Seq::<ParsedMessage>::empty(),
            },
    {
        match ev {
            ReadEvent::Data(bytes) => self.acc.push_chunk(bytes.as_slice()),
            ReadEvent::Empty => Vec::new(),
            ReadEvent::Timeout => Vec::new(),
            ReadEvent::Failed => {
                self.connected = false;
                self.link = LinkState::Disconnected;
                Vec::new()
            },
        }
    }
}

} // verus!
