use vstd::prelude::*;

verus! {

/// A three-component vector as it travels on the wire: each component is
/// the raw IEEE-754 bit pattern of a single-precision float. The rendering
/// and simulation layers convert to and from `f32` at the boundary; keeping
/// the components as plain bits makes the codec exact and total.
#[derive(Clone, Copy, Debug, PartialEq, Eq, Structural)]
pub struct Vec3Bits {
    pub x: u32,
    pub y: u32,
    pub z: u32,
}

/// The closed set of messages exchanged between client and server.
///
/// `Noop` is a sentinel that carries no meaning; `Ping`/`PingResult` drive
/// the liveness protocol; `Identify` hands a freshly accepted peer its
/// connection id; `RemoveEntity` and `SetPosition` carry simulation state.
#[derive(Clone, Copy, Debug, PartialEq, Eq, Structural)]
pub enum NetworkMessage {
    Noop,
    Ping,
    PingResult(u32),
    Identify(u32),
    RemoveEntity { uid: u32 },
    SetPosition { uid: u32, position: Vec3Bits, rotation: Vec3Bits },
}

/// Stable discriminant of a message, independent of its payload values.
/// Two messages are "the same type" exactly when their tags are equal;
/// this is used for outgoing-message throttling, never for content equality.
pub open spec fn tag(m: NetworkMessage) -> int {
    match m {
        NetworkMessage::Noop => 0,
        NetworkMessage::Ping => 1,
        NetworkMessage::PingResult(_) => 2,
        NetworkMessage::Identify(_) => 3,
        NetworkMessage::RemoveEntity { .. } => 4,
        NetworkMessage::SetPosition { .. } => 5,
    }
}

impl NetworkMessage {
    /// The discriminant as a runtime value.
    pub fn discriminant(&self) -> (r: u8)
        ensures
            r == tag(*self),
    {
        match *self {
            NetworkMessage::Noop => 0,
            NetworkMessage::Ping => 1,
            NetworkMessage::PingResult(_) => 2,
            NetworkMessage::Identify(_) => 3,
            NetworkMessage::RemoveEntity { .. } => 4,
            NetworkMessage::SetPosition { .. } => 5,
        }
    }

    /// Whether `self` and `other` are the same variant, irrespective of
    /// their field values.
    pub fn is_same_type_as(&self, other: &NetworkMessage) -> (r: bool)
        ensures
            r == (tag(*self) == tag(*other)),
    {
        self.discriminant() == other.discriminant()
    }
}

/// An account as the persistence layer sees it.
pub struct User {
    pub id: u32,
    pub name: String,
    pub position: Vec3Bits,
    pub rotation: Vec3Bits,
}

} // verus!
