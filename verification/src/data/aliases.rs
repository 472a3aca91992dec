//! The small enums and records the game's messages are made of, and the
//! numbers they travel as.
use crate::data::uid_types::{OrderID, UnitTypeID};
use vstd::prelude::*;

verus! {

/// Simulation steps per second.
pub const FPS: usize = 10;

/// An order to train units of one kind.
#[derive(Clone, Copy, Debug)]
pub struct TrainOrder {
    pub order_id: OrderID,
    pub unit_type: UnitTypeID,
    pub repeat: bool,
}

/// The kinds of message the server sends to clients.
#[derive(Clone, Copy, Debug, PartialEq, Eq)]
pub enum ClientMessage {
    UnitMove,
    UnitDeath,
    OrderCompleted,
    TrainingCompleted,
    MeleeSmack,
    MissileMove,
    MissileExplode,
    Construction,
    TeamInfo,
    MapInfo,
    UnitInfo,
    MissileInfo,
}

impl ClientMessage {
    /// The byte that starts a message of this kind: its place in the list.
    pub fn code(self) -> (r: u8)
        ensures
            r == client_message_code(self),
    {
        match self {
            ClientMessage::UnitMove => 0,
            ClientMessage::UnitDeath => 1,
            ClientMessage::OrderCompleted => 2,
            ClientMessage::TrainingCompleted => 3,
            ClientMessage::MeleeSmack => 4,
            ClientMessage::MissileMove => 5,
            ClientMessage::MissileExplode => 6,
            ClientMessage::Construction => 7,
            ClientMessage::TeamInfo => 8,
            ClientMessage::MapInfo => 9,
            ClientMessage::UnitInfo => 10,
            ClientMessage::MissileInfo => 11,
        }
    }
}

/// The byte that starts a client message of kind `m`.
pub open spec fn client_message_code(m: ClientMessage) -> int {
    match m {
        ClientMessage::UnitMove => 0,
        ClientMessage::UnitDeath => 1,
        ClientMessage::OrderCompleted => 2,
        ClientMessage::TrainingCompleted => 3,
        ClientMessage::MeleeSmack => 4,
        ClientMessage::MissileMove => 5,
        ClientMessage::MissileExplode => 6,
        ClientMessage::Construction => 7,
        ClientMessage::TeamInfo => 8,
        ClientMessage::MapInfo => 9,
        ClientMessage::UnitInfo => 10,
        ClientMessage::MissileInfo => 11,
    }
}

/// How a new order joins a unit's queue.
#[derive(Clone, Copy, Debug, PartialEq, Eq)]
pub enum QueueOrder {
    Prepend,
    Append,
    Replace,
    Clear,
}

impl QueueOrder {
    /// The queue order numbered `n`, in the order of the list.
    pub fn from_u8(n: u8) -> (r: Option<QueueOrder>)
        ensures
            r is Some <==> n < 4,
            r matches Some(q) ==> queue_order_code(q) == n,
    {
        match n {
            0 => Some(QueueOrder::Prepend),
            1 => Some(QueueOrder::Append),
            2 => Some(QueueOrder::Replace),
            3 => Some(QueueOrder::Clear),
            _ => None,
        }
    }
}

/// The number of queue order `q`.
pub open spec fn queue_order_code(q: QueueOrder) -> int {
    match q {
        QueueOrder::Prepend => 0,
        QueueOrder::Append => 1,
        QueueOrder::Replace => 2,
        QueueOrder::Clear => 3,
    }
}

/// The kinds of message clients send to the server.
#[derive(Clone, Copy, Debug, PartialEq, Eq)]
pub enum ServerMessage {
    Move,
    AttackMove,
    AttackTarget,
    Build,
    Train,
    Assist,
    Stop,
    MapInfoRequest,
    UnitInfoRequest,
    MissileInfoRequest,
}

impl ServerMessage {
    /// The message kind numbered `n`, in the order of the list.
    pub fn from_u8(n: u8) -> (r: Option<ServerMessage>)
        ensures
            r is Some <==> n < 10,
            r matches Some(m) ==> server_message_code(m) == n,
    {
        match n {
            0 => Some(ServerMessage::Move),
            1 => Some(ServerMessage::AttackMove),
            2 => Some(ServerMessage::AttackTarget),
            3 => Some(ServerMessage::Build),
            4 => Some(ServerMessage::Train),
            5 => Some(ServerMessage::Assist),
            6 => Some(ServerMessage::Stop),
            7 => Some(ServerMessage::MapInfoRequest),
            8 => Some(ServerMessage::UnitInfoRequest),
            9 => Some(ServerMessage::MissileInfoRequest),
            _ => None,
        }
    }
}

/// The number of server message kind `m`.
pub open spec fn server_message_code(m: ServerMessage) -> int {
    match m {
        ServerMessage::Move => 0,
        ServerMessage::AttackMove => 1,
        ServerMessage::AttackTarget => 2,
        ServerMessage::Build => 3,
        ServerMessage::Train => 4,
        ServerMessage::Assist => 5,
        ServerMessage::Stop => 6,
        ServerMessage::MapInfoRequest => 7,
        ServerMessage::UnitInfoRequest => 8,
        ServerMessage::MissileInfoRequest => 9,
    }
}

/// How a map tile can be crossed, as the map file's collision layer numbers
/// it.
#[derive(Clone, Copy, PartialEq, Eq, Debug)]
pub enum MoveType {
    NoMove,
    Ground,
    Hover,
    Water,
    Air,
}

impl MoveType {
    /// The kind of tile that the map file writes as `n`: 143, 134, 137, 140
    /// and 99999 are `NoMove`, `Ground`, `Hover`, `Water` and `Air`.
    pub fn from_usize(n: usize) -> (r: Option<MoveType>)
        ensures
            r is Some <==> is_tile_code(n as int),
            r matches Some(m) ==> move_type_tile(m) == n,
    {
        if n == 143 {
            Some(MoveType::NoMove)
        } else if n == 134 {
            Some(MoveType::Ground)
        } else if n == 137 {
            Some(MoveType::Hover)
        } else if n == 140 {
            Some(MoveType::Water)
        } else if n == 99999 {
            Some(MoveType::Air)
        } else {
            None
        }
    }
}

/// Whether the map file number `n` names a kind of tile.
pub open spec fn is_tile_code(n: int) -> bool {
    n == 143 || n == 134 || n == 137 || n == 140 || n == 99999
}

/// The number the map file writes for tiles of kind `m`.
pub open spec fn move_type_tile(m: MoveType) -> int {
    match m {
        MoveType::NoMove => 143,
        MoveType::Ground => 134,
        MoveType::Hover => 137,
        MoveType::Water => 140,
        MoveType::Air => 99999,
    }
}

/// An effect that brings `amount` units of the kind named `unit_type`.
#[derive(Clone, Debug)]
pub struct SpawnUnits {
    pub amount: usize,
    pub unit_type: String,
}

} // verus!
