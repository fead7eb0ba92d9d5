//! Per-connection state machine for the speed daemon.
//!
//! A connection starts with no role; the first role declaration is
//! final, a second one is a protocol error. A heartbeat may be requested
//! at most once, and an interval of zero arms nothing. Plate reports are
//! accepted only from cameras. The step function turns one decoded
//! packet into the next state and the single action the connection
//! driver must perform; every protocol error carries the error report
//! to send before closing.

use vstd::prelude::*;
use vstd::string::StringSliceAdditionalSpecFns;

use crate::wire::ErrorMsg;
use crate::wire::IncomingPacket;
use crate::wire::SpecPacket;

verus! {

/// The camera role: a fixed road position and its announced limit.
#[derive(Clone, Copy, PartialEq, Eq, Structural)]
pub struct Camera {
    pub road: u16,
    pub mile: u16,
    pub limit: u16,
}

/// The dispatcher role: the set of roads it serves.
pub struct Dispatcher {
    pub roads: Vec<u16>,
}

/// A connection's role; set at most once.
pub enum ClientType {
    Unknown,
    Camera(Camera),
    Dispatcher(Dispatcher),
}

/// The mathematical value of a role.
#[verifier::ext_equal]
pub enum SpecRole {
    Unknown,
    Camera { road: u16, mile: u16, limit: u16 },
    Dispatcher { roads: Seq<u16> },
}

impl View for ClientType {
    type V = SpecRole;

    open spec fn view(&self) -> SpecRole {
        match self {
            ClientType::Unknown => SpecRole::Unknown,
            ClientType::Camera(c) => SpecRole::Camera {
                road: c.road,
                mile: c.mile,
                limit: c.limit,
            },
            ClientType::Dispatcher(d) => SpecRole::Dispatcher { roads: d.roads@ },
        }
    }
}

/// Everything the protocol remembers about one connection.
pub struct ConnState {
    pub client_type: ClientType,
    pub requested_heartbeat: bool,
}

/// The mathematical value of a connection state.
#[verifier::ext_equal]
pub struct SpecConn {
    pub role: SpecRole,
    pub requested_heartbeat: bool,
}

impl View for ConnState {
    type V = SpecConn;

    open spec fn view(&self) -> SpecConn {
        SpecConn { role: self.client_type@, requested_heartbeat: self.requested_heartbeat }
    }
}

/// What the connection driver must do after one packet.
pub enum StepAction {
    /// Nothing outward; the state may have changed.
    Proceed,
    /// Arm the recurring heartbeat timer at `interval` deciseconds.
    ArmHeartbeat { interval: u32 },
    /// Record the road's speed limit in the store.
    RecordLimit { road: u16, limit: u16 },
    /// Record a plate observation in the store.
    RecordObservation { plate: Vec<u8>, road: u16, mile: u16, timestamp: u32 },
    /// Start polling the store for tickets on the dispatcher's roads.
    StartDispatch,
    /// Send the error report and close the connection.
    Fail { error: ErrorMsg },
}

/// The mathematical value of a step action.
#[verifier::ext_equal]
pub enum SpecAction {
    Proceed,
    ArmHeartbeat { interval: u32 },
    RecordLimit { road: u16, limit: u16 },
    RecordObservation { plate: Seq<u8>, road: u16, mile: u16, timestamp: u32 },
    StartDispatch,
    Fail { message: Seq<u8> },
}

impl View for StepAction {
    type V = SpecAction;

    open spec fn view(&self) -> SpecAction {
        match self {
            StepAction::Proceed => SpecAction::Proceed,
            StepAction::ArmHeartbeat { interval } => SpecAction::ArmHeartbeat {
                interval: *interval,
            },
            StepAction::RecordLimit { road, limit } => SpecAction::RecordLimit {
                road: *road,
                limit: *limit,
            },
            StepAction::RecordObservation { plate, road, mile, timestamp } => (
            SpecAction::RecordObservation {
                plate: plate@,
                road: *road,
                mile: *mile,
                timestamp: *timestamp,
            }),
            StepAction::StartDispatch => SpecAction::StartDispatch,
            StepAction::Fail { error } => SpecAction::Fail { message: error.message@ },
        }
    }
}

/// The whole protocol, one packet at a time: given the state before and
/// the packet, fixes the state after and the action.
pub open spec fn step_spec(pre: SpecConn, p: SpecPacket, post: SpecConn, a: SpecAction) -> bool {
    match p {
        SpecPacket::WantHeartbeat { interval } => {
            if pre.requested_heartbeat {
                &&& a == (SpecAction::Fail {
                    message: "already requested heartbeat".spec_bytes(),
                })
                &&& post == pre
            } else {
                &&& post == (SpecConn { requested_heartbeat: true, ..pre })
                &&& a == if interval > 0 {
                    SpecAction::ArmHeartbeat { interval }
                } else {
                    SpecAction::Proceed
                }
            }
        },
        SpecPacket::IAmCamera { road, mile, limit } => {
            if !(pre.role is Unknown) {
                &&& a == (SpecAction::Fail { message: "already sent client type".spec_bytes() })
                &&& post == pre
            } else {
                &&& post == (SpecConn { role: SpecRole::Camera { road, mile, limit }, ..pre })
                &&& a == (SpecAction::RecordLimit { road, limit })
            }
        },
        SpecPacket::IAmDispatcher { roads } => {
            if !(pre.role is Unknown) {
                &&& a == (SpecAction::Fail { message: "already sent client type".spec_bytes() })
                &&& post == pre
            } else {
                &&& post == (SpecConn { role: SpecRole::Dispatcher { roads }, ..pre })
                &&& a == SpecAction::StartDispatch
            }
        },
        SpecPacket::PlateReport { plate, timestamp } => {
            match pre.role {
                SpecRole::Camera { road, mile, .. } => {
                    &&& post == pre
                    &&& a == (SpecAction::RecordObservation { plate, road, mile, timestamp })
                },
                _ => {
                    &&& a == (SpecAction::Fail { message: "wrong client type".spec_bytes() })
                    &&& post == pre
                },
            }
        },
    }
}

/// Role assignment is monotonic: once a connection has a role, no
/// accepted packet changes it.
pub proof fn lemma_role_monotonic(pre: SpecConn, p: SpecPacket, post: SpecConn, a: SpecAction)
    requires
        step_spec(pre, p, post, a),
        !(pre.role is Unknown),
    ensures
        post.role == pre.role,
{
}

/// A heartbeat request is never forgotten: once requested, requested
/// for the rest of the connection.
pub proof fn lemma_heartbeat_request_monotonic(
    pre: SpecConn,
    p: SpecPacket,
    post: SpecConn,
    a: SpecAction,
)
    requires
        step_spec(pre, p, post, a),
        pre.requested_heartbeat,
    ensures
        post.requested_heartbeat,
{
}

impl ConnState {
    /// A fresh connection: no role, no heartbeat requested.
    pub fn new() -> (r: ConnState)
        ensures
            r@.role is Unknown,
            !r@.requested_heartbeat,
    {
        ConnState { client_type: ClientType::Unknown, requested_heartbeat: false }
    }

    /// Applies one decoded packet: updates the connection state and
    /// returns the action the driver must perform.
    pub fn apply_packet(&mut self, packet: IncomingPacket) -> (a: StepAction)
        ensures
            step_spec(old(self)@, packet@, final(self)@, a@),
    {
        let ghost pre = self@;
        match packet {
            IncomingPacket::WantHeartbeat { interval } => {
                if self.requested_heartbeat {
                    let a = StepAction::Fail {
                        error: ErrorMsg::msg("already requested heartbeat"),
                    };
                    assert(step_spec(pre, packet@, self@, a@));
                    a
                } else {
                    self.requested_heartbeat = true;
                    proof {
                        assert(self@ =~= (SpecConn { requested_heartbeat: true, ..pre }));
                    }
                    if interval > 0 {
                        StepAction::ArmHeartbeat { interval }
                    } else {
                        StepAction::Proceed
                    }
                }
            },
            IncomingPacket::IAmCamera { road, mile, limit } => {
                match self.client_type {
                    ClientType::Unknown => {
                        self.client_type = ClientType::Camera(Camera { road, mile, limit });
                        proof {
                            assert(self@ =~= (SpecConn {
                                role: SpecRole::Camera { road, mile, limit },
                                ..pre
                            }));
                        }
                        StepAction::RecordLimit { road, limit }
                    },
                    _ => {
                        StepAction::Fail { error: ErrorMsg::msg("already sent client type") }
                    },
                }
            },
            IncomingPacket::IAmDispatcher { roads } => {
                match self.client_type {
                    ClientType::Unknown => {
                        let ghost rs = roads@;
                        self.client_type = ClientType::Dispatcher(Dispatcher { roads });
                        proof {
                            assert(self@ =~= (SpecConn {
                                role: SpecRole::Dispatcher { roads: rs },
                                ..pre
                            }));
                        }
                        StepAction::StartDispatch
                    },
                    _ => {
                        StepAction::Fail { error: ErrorMsg::msg("already sent client type") }
                    },
                }
            },
            IncomingPacket::PlateReport { plate, timestamp } => {
                match self.client_type {
                    ClientType::Camera(c) => {
                        StepAction::RecordObservation {
                            plate,
                            road: c.road,
                            mile: c.mile,
                            timestamp,
                        }
                    },
                    _ => {
                        StepAction::Fail { error: ErrorMsg::msg("wrong client type") }
                    },
                }
            },
        }
    }
}

} // verus!
