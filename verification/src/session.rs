//! Per-connection session state machine.
//!
//! A connection starts unidentified, becomes a camera or a dispatcher by
//! its first identify message, and is closed on any protocol violation.
//! [`Client::process_msg`] turns one inbound message into the action the
//! surrounding process must carry out; the whole transition is the spec
//! function [`session_step`].

use vstd::prelude::*;
use vstd::slice::slice_to_vec;
use vstd::string::*;

use crate::codec::MsgV;
use crate::codec::SDMessage;

verus! {

/// The role a connection has taken, if any.
#[derive(Debug, Clone, Copy, PartialEq, Eq, Structural)]
pub enum ClientType {
    Unknown,
    Camera,
    TicketDispatcher,
}

/// Camera identity: the road it watches, its mile marker, and the speed
/// limit it enforces.
#[derive(Debug, Clone, Copy, PartialEq, Eq, Structural)]
pub struct Camera {
    pub road: u16,
    pub mile: u16,
    pub limit: u16,
}

/// Dispatcher identity: the roads it is responsible for.
#[derive(Debug, PartialEq)]
pub struct TicketDispatcher {
    pub roads: Vec<u16>,
}

/// What the surrounding process must do after one inbound message.
#[derive(Debug, PartialEq)]
pub enum SessionAction {
    /// Nothing: the message only changed session state.
    Proceed,
    /// Post this observation to the world under the camera's identity.
    Report { road: u16, mile: u16, limit: u16, plate: Vec<u8>, timestamp: u32 },
    /// Register the connection as dispatcher for these roads and deliver
    /// the drained pending tickets to it.
    Register { roads: Vec<u16> },
    /// Spawn the periodic heartbeat task with this many deciseconds.
    StartHeartbeat { interval: u32 },
    /// Send one Error frame with this text, then close the connection.
    Reject { msg: Vec<u8> },
}

/// Mathematical model of a session action.
pub enum ActionV {
    Proceed,
    Report { road: u16, mile: u16, limit: u16, plate: Seq<u8>, timestamp: u32 },
    Register { roads: Seq<u16> },
    StartHeartbeat { interval: u32 },
    Reject { msg: Seq<u8> },
}

impl View for SessionAction {
    type V = ActionV;

    open spec fn view(&self) -> ActionV {
        match self {
            SessionAction::Proceed => ActionV::Proceed,
            SessionAction::Report { road, mile, limit, plate, timestamp } => ActionV::Report {
                road: *road,
                mile: *mile,
                limit: *limit,
                plate: plate@,
                timestamp: *timestamp,
            },
            SessionAction::Register { roads } => ActionV::Register { roads: roads@ },
            SessionAction::StartHeartbeat { interval } => ActionV::StartHeartbeat {
                interval: *interval,
            },
            SessionAction::Reject { msg } => ActionV::Reject { msg: msg@ },
        }
    }
}

/// Per-connection session state.
#[derive(Debug)]
pub struct Client {
    pub typ: ClientType,
    pub camera: Option<Camera>,
    pub ticket_dispatcher: Option<TicketDispatcher>,
    pub is_heartbeat_running: bool,
    pub closed: bool,
}

/// Mathematical model of a session.
pub struct ClientV {
    pub typ: ClientType,
    pub camera: Option<Camera>,
    pub roads: Option<Seq<u16>>,
    pub is_heartbeat_running: bool,
    pub closed: bool,
}

impl View for Client {
    type V = ClientV;

    open spec fn view(&self) -> ClientV {
        ClientV {
            typ: self.typ,
            camera: self.camera,
            roads: match &self.ticket_dispatcher {
                Some(td) => Some(td.roads@),
                None => None,
            },
            is_heartbeat_running: self.is_heartbeat_running,
            closed: self.closed,
        }
    }
}

/// Error text for a second identify message.
pub open spec fn text_already_identified() -> Seq<u8> {
    "Client already identified".spec_bytes()
}

/// Error text for a Plate from a connection that is not a camera.
pub open spec fn text_not_a_camera() -> Seq<u8> {
    "Client is not a camera".spec_bytes()
}

/// Error text for a second heartbeat request.
pub open spec fn text_heartbeat_again() -> Seq<u8> {
    "Client already requested heartbeats".spec_bytes()
}

/// Error text for an inbound message reserved for the other direction.
pub open spec fn text_illegal_message() -> Seq<u8> {
    "Error processing message".spec_bytes()
}

/// Error text for a frame the codec refused.
pub open spec fn text_unknown_message() -> Seq<u8> {
    "Unknown message type".spec_bytes()
}

/// Every error text fits one Error frame: at most 255 bytes, so the frame
/// the session owes can always be encoded.
pub proof fn lemma_error_texts_framable()
    ensures
        text_already_identified().len() <= 255,
        text_not_a_camera().len() <= 255,
        text_heartbeat_again().len() <= 255,
        text_illegal_message().len() <= 255,
        text_unknown_message().len() <= 255,
{
    reveal_strlit("Client already identified");
    reveal_strlit("Client is not a camera");
    reveal_strlit("Client already requested heartbeats");
    reveal_strlit("Error processing message");
    reveal_strlit("Unknown message type");
    broadcast use vstd::utf8::is_ascii_chars_encode_utf8;

    assert(vstd::utf8::is_ascii_chars("Client already identified"@));
    assert(vstd::utf8::is_ascii_chars("Client is not a camera"@));
    assert(vstd::utf8::is_ascii_chars("Client already requested heartbeats"@));
    assert(vstd::utf8::is_ascii_chars("Error processing message"@));
    assert(vstd::utf8::is_ascii_chars("Unknown message type"@));
}

/// A protocol violation: the session closes and owes the peer exactly one
/// Error frame with the given text.
pub open spec fn rejected(c: ClientV, msg: Seq<u8>) -> (ClientV, ActionV) {
    (ClientV { closed: true, ..c }, ActionV::Reject { msg })
}

/// The session state machine: one inbound message takes the session from
/// `c` to the returned state and demands the returned action.
pub open spec fn session_step(c: ClientV, m: MsgV) -> (ClientV, ActionV) {
    match m {
        MsgV::IAmCamera { road, mile, limit } => {
            if c.typ is Unknown {
                (
                    ClientV {
                        typ: ClientType::Camera,
                        camera: Some(Camera { road, mile, limit }),
                        ..c
                    },
                    ActionV::Proceed,
                )
            } else {
                rejected(c, text_already_identified())
            }
        },
        MsgV::IAmDispatcher { roads } => {
            if c.typ is Unknown {
                (
                    ClientV { typ: ClientType::TicketDispatcher, roads: Some(roads), ..c },
                    ActionV::Register { roads },
                )
            } else {
                rejected(c, text_already_identified())
            }
        },
        MsgV::Plate { plate, timestamp } => {
            if c.typ is Camera && c.camera is Some {
                let cam = c.camera->0;
                (
                    c,
                    ActionV::Report {
                        road: cam.road,
                        mile: cam.mile,
                        limit: cam.limit,
                        plate,
                        timestamp,
                    },
                )
            } else {
                rejected(c, text_not_a_camera())
            }
        },
        MsgV::WantHeartbeat { interval } => {
            if c.is_heartbeat_running {
                rejected(c, text_heartbeat_again())
            } else {
                (
                    ClientV { is_heartbeat_running: true, ..c },
                    if interval > 0 {
                        ActionV::StartHeartbeat { interval }
                    } else {
                        ActionV::Proceed
                    },
                )
            }
        },
        _ => rejected(c, text_illegal_message()),
    }
}

/// Bytes of an error text.
fn text_bytes(s: &str) -> (r: Vec<u8>)
    ensures
        r@ == s.spec_bytes(),
{
    slice_to_vec(s.as_bytes())
}

impl Client {
    /// A fresh, unidentified session.
    pub fn new() -> (c: Client)
        ensures
            c@.typ is Unknown,
            c@.camera is None,
            c@.roads is None,
            !c@.is_heartbeat_running,
            !c@.closed,
    {
        Client {
            typ: ClientType::Unknown,
            camera: None,
            ticket_dispatcher: None,
            is_heartbeat_running: false,
            closed: false,
        }
    }

    /// Feed one decoded inbound message through the state machine; the
    /// caller carries out the returned action.
    pub fn process_msg(&mut self, msg: SDMessage) -> (act: SessionAction)
        requires
            !old(self)@.closed,
        ensures
            final(self)@ == session_step(old(self)@, msg@).0,
            act@ == session_step(old(self)@, msg@).1,
    {
        match msg {
            SDMessage::IAmCamera { road, mile, limit } => {
                match self.typ {
                    ClientType::Unknown => {
                        self.typ = ClientType::Camera;
                        self.camera = Some(Camera { road, mile, limit });
                        SessionAction::Proceed
                    },
                    _ => self.reject(text_bytes("Client already identified")),
                }
            },
            SDMessage::IAmDispatcher { roads } => {
                match self.typ {
                    ClientType::Unknown => {
                        self.typ = ClientType::TicketDispatcher;
                        let mut own: Vec<u16> = Vec::new();
                        let n: usize = roads.len();
                        let mut i: usize = 0;
                        while i < n
                            invariant
                                i <= n,
                                n == roads@.len(),
                                own@ == roads@.take(i as int),
                            decreases n - i,
                        {
                            own.push(roads[i]);
                            assert(own@ =~= roads@.take(i + 1));
                            i = i + 1;
                        }
                        proof {
                            assert(roads@.take(n as int) =~= roads@);
                        }
                        self.ticket_dispatcher = Some(TicketDispatcher { roads: own });
                        SessionAction::Register { roads }
                    },
                    _ => self.reject(text_bytes("Client already identified")),
                }
            },
            SDMessage::Plate { plate, timestamp } => {
                match self.typ {
                    ClientType::Camera => {
                        match &self.camera {
                            Some(cam) => SessionAction::Report {
                                road: cam.road,
                                mile: cam.mile,
                                limit: cam.limit,
                                plate,
                                timestamp,
                            },
                            None => self.reject(text_bytes("Client is not a camera")),
                        }
                    },
                    _ => self.reject(text_bytes("Client is not a camera")),
                }
            },
            SDMessage::WantHeartbeat { interval } => {
                if self.is_heartbeat_running {
                    self.reject(text_bytes("Client already requested heartbeats"))
                } else {
                    self.is_heartbeat_running = true;
                    if interval > 0 {
                        SessionAction::StartHeartbeat { interval }
                    } else {
                        SessionAction::Proceed
                    }
                }
            },
            _ => self.reject(text_bytes("Error processing message")),
        }
    }

    /// A framing error from the codec: answer with one Error frame and
    /// close.
    pub fn process_codec_error(&mut self) -> (act: SessionAction)
        ensures
            final(self)@ == (ClientV { closed: true, ..old(self)@ }),
            act@ == (ActionV::Reject { msg: text_unknown_message() }),
    {
        self.reject(text_bytes("Unknown message type"))
    }

    fn reject(&mut self, msg: Vec<u8>) -> (act: SessionAction)
        ensures
            final(self)@ == (ClientV { closed: true, ..old(self)@ }),
            act@ == (ActionV::Reject { msg: msg@ }),
    {
        self.closed = true;
        SessionAction::Reject { msg }
    }
}

} // verus!
