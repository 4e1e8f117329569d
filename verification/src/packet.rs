//! Packets, node addresses and points in time.

use vstd::prelude::*;
use crate::fullmesh::fm_ice::FullMeshPayload;
use crate::fullmesh::peers::SignalPayload;
use crate::fullmesh::registry::RegistryPayload;
use crate::igp::model::IgpPayload;
use crate::uapi::UapiPayload;

verus! {

/// The address of a node in the mesh.
pub type NodeId = u32;

/// A point on a monotonic clock, in nanoseconds.
pub type Instant = u64;

/// A length of time, in nanoseconds.
pub type Duration = u64;

/// Nanoseconds in one second.
pub const SECOND: u64 = 1_000_000_000;

/// Nanoseconds in one millisecond.
pub const MILLISECOND: u64 = 1_000_000;

/// The time from `earlier` to `later`, and zero where `later` comes first.
pub open spec fn time_since(later: Instant, earlier: Instant) -> int {
    if later >= earlier {
        later - earlier
    } else {
        0
    }
}

/// Computes [`time_since`].
pub fn elapsed(later: Instant, earlier: Instant) -> (result: Duration)
    ensures
        result == time_since(later, earlier),
{
    if later >= earlier {
        later - earlier
    } else {
        0
    }
}

/// What a packet carries.
#[derive(Clone, Debug)]
pub enum Payload {
    Igp(IgpPayload),
    FullMesh(FullMeshPayload),
    Signal(SignalPayload),
    Registry(RegistryPayload),
    Uapi(UapiPayload),
}

/// For which part of a node a packet is.
#[derive(Clone, Copy, PartialEq, Eq, Structural, Debug)]
pub enum PayloadKind {
    Igp,
    FullMesh,
    Signal,
    Registry,
    Uapi,
}

/// A packet.
#[derive(Clone, Debug)]
pub struct Packet {
    pub src: NodeId,
    pub dst: NodeId,
    /// How many more times the packet may be forwarded.
    pub ttl: u8,
    pub payload: Payload,
}

impl Payload {
    /// For which part of a node the payload is.
    pub open spec fn kind_of(self) -> PayloadKind {
        match self {
            Payload::Igp(_) => PayloadKind::Igp,
            Payload::FullMesh(_) => PayloadKind::FullMesh,
            Payload::Signal(_) => PayloadKind::Signal,
            Payload::Registry(_) => PayloadKind::Registry,
            Payload::Uapi(_) => PayloadKind::Uapi,
        }
    }

    /// For which part of a node the payload is.
    pub fn kind(&self) -> (kind: PayloadKind)
        ensures
            kind == self.kind_of(),
    {
        match self {
            Payload::Igp(_) => PayloadKind::Igp,
            Payload::FullMesh(_) => PayloadKind::FullMesh,
            Payload::Signal(_) => PayloadKind::Signal,
            Payload::Registry(_) => PayloadKind::Registry,
            Payload::Uapi(_) => PayloadKind::Uapi,
        }
    }
}

/// A payload is for the part of a node that it is named after, and for no other.
pub proof fn lemma_payload_kinds(payload: Payload)
    ensures
        payload is Igp <==> payload.kind_of() is Igp,
        payload is FullMesh <==> payload.kind_of() is FullMesh,
        payload is Signal <==> payload.kind_of() is Signal,
        payload is Registry <==> payload.kind_of() is Registry,
        payload is Uapi <==> payload.kind_of() is Uapi,
{
}

/// The time between two points adds up over a point between them, and is never negative.
pub proof fn lemma_time_adds_up(start: Instant, between: Instant, end: Instant)
    requires
        start <= between <= end,
    ensures
        time_since(end, start) == time_since(end, between) + time_since(between, start),
        time_since(end, start) == end - start,
        time_since(start, end) == 0,
        SECOND == 1000 * MILLISECOND,
        MILLISECOND == 1_000_000,
{
}

} // verus!
