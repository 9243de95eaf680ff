use vstd::prelude::*;

verus! {

/// Which side a stone belongs to.
#[derive(Clone, Copy, PartialEq, Eq, Structural, Debug)]
pub enum Color {
    Black,
    White,
}

/// A board intersection, as a pair of integers.
#[derive(Clone, Copy, PartialEq, Eq, Structural, Debug)]
pub struct Position {
    pub i: i32,
    pub j: i32,
}

/// One placed move: sequence count, side, board coordinate and grid index.
#[derive(Clone, Copy, PartialEq, Eq, Structural, Debug)]
pub struct Stone {
    pub count: i32,
    pub color: Color,
    pub coordinate: Position,
    pub index: Position,
}

/// One envelope on the wire, tagged by message kind. Ids and free-form state
/// are carried as raw bytes of the UTF-8 payload.
#[derive(Clone, Debug, PartialEq, Eq)]
pub enum GameMessage {
    Join { room_id: Vec<u8> },
    CreateRoom { room_id: Vec<u8> },
    JoinRoom { room_id: Vec<u8> },
    Move { stone: Stone },
    GameState { state: Vec<u8> },
    Heartbeat { room_id: Vec<u8> },
}

/// Mathematical model of an envelope: byte fields become sequences.
pub enum MsgModel {
    Join { room_id: Seq<u8> },
    CreateRoom { room_id: Seq<u8> },
    JoinRoom { room_id: Seq<u8> },
    Move { stone: Stone },
    GameState { state: Seq<u8> },
    Heartbeat { room_id: Seq<u8> },
}

impl View for GameMessage {
    type V = MsgModel;

    open spec fn view(&self) -> MsgModel {
        match self {
            GameMessage::Join { room_id } => MsgModel::Join { room_id: room_id@ },
            GameMessage::CreateRoom { room_id } => MsgModel::CreateRoom { room_id: room_id@ },
            GameMessage::JoinRoom { room_id } => MsgModel::JoinRoom { room_id: room_id@ },
            GameMessage::Move { stone } => MsgModel::Move { stone: *stone },
            GameMessage::GameState { state } => MsgModel::GameState { state: state@ },
            GameMessage::Heartbeat { room_id } => MsgModel::Heartbeat { room_id: room_id@ },
        }
    }
}

/// Why a payload was refused: the tag was unrecognized, or a required field
/// was missing or mistyped for the envelope grammar.
#[derive(Clone, Copy, PartialEq, Eq, Structural, Debug)]
pub enum DecodeError {
    MalformedPayload,
}

} // verus!
