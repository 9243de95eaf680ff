//! Per-connection dispatch rules: which frames the read loop accepts, and
//! how one decoded envelope mutates the registry and what replies or
//! broadcasts it produces. The caller performs the actual socket writes;
//! every decision is made here.

use vstd::prelude::*;

use crate::codec::{
    decode_payload, encode_frame, lemma_escape_len, lemma_digits_len_le, spec_digits,
    spec_encode, spec_frame, spec_int_bytes, spec_pow10,
};
use crate::msg::{GameMessage, MsgModel, Stone};
use crate::registry::{
    clone_bytes, choose_room_id, flip, GameServer, PlayerModel, RoomModel, Turn,
};

verus! {

/// One outbound send owed to a player: a complete frame for its socket.
pub struct Effect {
    pub to: Vec<u8>,
    pub frame: Vec<u8>,
}

/// Mathematical model of an outbound send.
pub struct EffectModel {
    pub to: Seq<u8>,
    pub frame: Seq<u8>,
}

impl View for Effect {
    type V = EffectModel;

    open spec fn view(&self) -> EffectModel {
        EffectModel { to: self.to@, frame: self.frame@ }
    }
}

/// A length prefix is acceptable exactly when it lies in (0, 65536]. A
/// violating prefix means the frame is skipped; the connection stays open
/// and the next prefix is read.
pub fn frame_len_ok(len: u32) -> (r: bool)
    ensures
        r == (0 < len <= 65536),
{
    0 < len && len <= 65536
}

/// String fields small enough to have arrived in one accepted frame.
pub open spec fn msg_ok(m: MsgModel) -> bool {
    match m {
        MsgModel::Join { room_id } => room_id.len() <= 65536,
        MsgModel::CreateRoom { room_id } => room_id.len() <= 65536,
        MsgModel::JoinRoom { room_id } => room_id.len() <= 65536,
        MsgModel::Move { stone } => true,
        MsgModel::GameState { state } => state.len() <= 65536,
        MsgModel::Heartbeat { room_id } => room_id.len() <= 65536,
    }
}

/// The id a create request settles on: the requested one when given, else
/// some six-digit numeric code.
pub open spec fn valid_new_id(req: Seq<u8>, id: Seq<u8>) -> bool {
    if req.len() > 0 {
        id == req
    } else {
        (exists|n: u64| 100000 <= n < 999999 && id == spec_digits(n as nat)) && id.len() == 6
    }
}

/// State change of a create: the room stored fresh under `id` with the
/// creator as black occupant, everything else untouched but the creator's
/// back-reference.
pub open spec fn created(a: GameServer, b: GameServer, pid: Seq<u8>, id: Seq<u8>) -> bool {
    &&& b.spec_room(id) == Some(
        RoomModel {
            id: id,
            black: Some(pid),
            white: None,
            moves: Seq::<Stone>::empty(),
            turn: Turn::BlackToMove,
        },
    )
    &&& (forall|id2: Seq<u8>| id2 != id ==> (#[trigger] b.spec_room(id2)) == a.spec_room(id2))
    &&& (a.spec_player(pid) is None ==> b.spec_player(pid) is None)
    &&& (a.spec_player(pid) matches Some(p) ==> b.spec_player(pid) == Some(
        PlayerModel { id: p.id, room: Some(id) },
    ))
    &&& (forall|id2: Seq<u8>| id2 != pid ==> (#[trigger] b.spec_player(id2)) == a.spec_player(id2))
}

/// State change of a successful join: the joiner takes the white slot and
/// its back-reference moves, everything else untouched.
pub open spec fn joined(a: GameServer, b: GameServer, pid: Seq<u8>, rid: Seq<u8>) -> bool {
    &&& (a.spec_room(rid) matches Some(rm) ==> b.spec_room(rid) == Some(
        RoomModel { id: rm.id, black: rm.black, white: Some(pid), moves: rm.moves, turn: rm.turn },
    ))
    &&& (forall|id2: Seq<u8>| id2 != rid ==> (#[trigger] b.spec_room(id2)) == a.spec_room(id2))
    &&& (a.spec_player(pid) is None ==> b.spec_player(pid) is None)
    &&& (a.spec_player(pid) matches Some(p) ==> b.spec_player(pid) == Some(
        PlayerModel { id: p.id, room: Some(rid) },
    ))
    &&& (forall|id2: Seq<u8>| id2 != pid ==> (#[trigger] b.spec_player(id2)) == a.spec_player(id2))
}

/// The whole routing step for one decoded envelope: how the registry moves
/// from `a` to `b` and which sends `effs` are owed, for each message kind.
/// This is the contract of `route_message`, and through it of every payload
/// the dispatcher accepts.
pub open spec fn routed(
    a: GameServer,
    b: GameServer,
    pid: Seq<u8>,
    mm: MsgModel,
    effs: Seq<Effect>,
) -> bool {
    &&& b.waiting_players@ == a.waiting_players@
    &&& match mm {
        MsgModel::Join { room_id } => b == a && effs.len() == 0,
        MsgModel::GameState { state } => b == a && effs.len() == 0,
        MsgModel::Heartbeat { room_id } => b == a && (if room_id.len() > 0 && a.spec_player(pid)
            is Some {
            effs.len() == 1 && effs[0]@.to == pid && effs[0]@.frame == spec_frame(
                MsgModel::Heartbeat { room_id },
            )
        } else {
            effs.len() == 0
        }),
        MsgModel::CreateRoom { room_id } => exists|id: Seq<u8>|
            #[trigger] valid_new_id(room_id, id) && created(a, b, pid, id) && (if a.spec_player(
                pid,
            ) is Some {
                effs.len() == 1 && effs[0]@.to == pid && effs[0]@.frame == spec_frame(
                    MsgModel::CreateRoom { room_id: id },
                )
            } else {
                effs.len() == 0
            }),
        MsgModel::JoinRoom { room_id } => match a.spec_room(room_id) {
            Some(rm) => if rm.white is None {
                joined(a, b, pid, room_id) && (if a.spec_player(pid) is Some {
                    effs.len() == 1 && effs[0]@.to == pid && effs[0]@.frame == spec_frame(
                        MsgModel::JoinRoom { room_id },
                    )
                } else {
                    effs.len() == 0
                })
            } else {
                b == a && effs.len() == 0
            },
            None => b == a && effs.len() == 0,
        },
        MsgModel::Move { stone } => match a.spec_player(pid) {
            Some(p) => match p.room {
                Some(rid) => match a.spec_room(rid) {
                    Some(rm) => {
                        &&& b.spec_room(rid) == Some(
                            RoomModel {
                                id: rm.id,
                                black: rm.black,
                                white: rm.white,
                                moves: rm.moves.push(stone),
                                turn: flip(rm.turn),
                            },
                        )
                        &&& move_effects(a, rm, spec_frame(MsgModel::Move { stone }), effs)
                        &&& (forall|id2: Seq<u8>| id2 != rid ==> (#[trigger] b.spec_room(id2))
                            == a.spec_room(id2))
                        &&& b.players@ == a.players@
                    },
                    None => b == a && effs.len() == 0,
                },
                None => b == a && effs.len() == 0,
            },
            None => b == a && effs.len() == 0,
        },
    }
}

/// Best-effort fan-out plan: one send per occupant slot that is filled and
/// whose player is still registered — black first, then white — all
/// carrying the same frame.
pub open spec fn move_effects(a: GameServer, rm: RoomModel, fr: Seq<u8>, effs: Seq<Effect>) -> bool {
    let nb: int = match rm.black {
        Some(b) => if a.spec_player(b) is Some {
            1int
        } else {
            0int
        },
        None => 0int,
    };
    let nw: int = match rm.white {
        Some(w) => if a.spec_player(w) is Some {
            1int
        } else {
            0int
        },
        None => 0int,
    };
    &&& effs.len() == nb + nw
    &&& (rm.black matches Some(b) ==> (a.spec_player(b) is Some ==> effs[0]@.to == b
        && effs[0]@.frame == fr))
    &&& (rm.white matches Some(w) ==> (a.spec_player(w) is Some ==> effs[nb]@.to == w
        && effs[nb]@.frame == fr))
}

proof fn lemma_int_bytes_len(v: i32)
    ensures
        spec_int_bytes(v as int).len() <= 11,
{
    reveal_with_fuel(spec_pow10, 11);
    if v < 0 {
        lemma_digits_len_le((-(v as int)) as nat, 10);
    } else {
        lemma_digits_len_le(v as nat, 10);
    }
}

/// Every envelope whose fields fit one frame has an encoding whose length
/// fits the 32-bit prefix.
proof fn lemma_frame_encodable(mm: MsgModel)
    requires
        msg_ok(mm),
    ensures
        spec_encode(mm).len() <= 0xFFFF_FFFF,
{
    match mm {
        MsgModel::Join { room_id } => {
            lemma_escape_len(room_id);
        },
        MsgModel::CreateRoom { room_id } => {
            lemma_escape_len(room_id);
        },
        MsgModel::JoinRoom { room_id } => {
            lemma_escape_len(room_id);
        },
        MsgModel::GameState { state } => {
            lemma_escape_len(state);
        },
        MsgModel::Heartbeat { room_id } => {
            lemma_escape_len(room_id);
        },
        MsgModel::Move { stone } => {
            lemma_int_bytes_len(stone.count);
            lemma_int_bytes_len(stone.coordinate.i);
            lemma_int_bytes_len(stone.coordinate.j);
            lemma_int_bytes_len(stone.index.i);
            lemma_int_bytes_len(stone.index.j);
        },
    }
}

impl GameServer {
    /// Fan-out plan for one move in a room: the Move envelope is serialized
    /// exactly once, and each filled occupant slot whose player is still
    /// registered — black first, then white — is owed one copy. Best-effort,
    /// at most once, no delivery guarantee; a missing room yields no sends.
    pub fn broadcast_plan(&self, room_id: &Vec<u8>, stone: Stone) -> (effects: Vec<Effect>)
        requires
            self.wf(),
        ensures
            self.spec_room(room_id@) matches Some(rm) ==> move_effects(
                *self,
                rm,
                spec_frame(MsgModel::Move { stone }),
                effects@,
            ),
            self.spec_room(room_id@) is None ==> effects@.len() == 0,
    {
        let mut effects: Vec<Effect> = Vec::new();
        match self.room_occupants(room_id) {
            Some((black, white)) => {
                let envelope = GameMessage::Move { stone };
                proof {
                    lemma_frame_encodable(envelope@);
                }
                let frame = encode_frame(&envelope);
                match black {
                    Some(b) => {
                        if self.has_player(&b) {
                            let f2 = clone_bytes(&frame);
                            effects.push(Effect { to: b, frame: f2 });
                        }
                    },
                    None => {},
                }
                match white {
                    Some(w) => {
                        if self.has_player(&w) {
                            let f2 = clone_bytes(&frame);
                            effects.push(Effect { to: w, frame: f2 });
                        }
                    },
                    None => {},
                }
            },
            None => {},
        }
        effects
    }
}

/// Routes one decoded envelope: mutates the registry as the message asks
/// and returns the sends owed — an ack to the sender for CreateRoom and a
/// successful JoinRoom, a broadcast to both occupants for an accepted Move,
/// an echo for a non-empty Heartbeat; Join and GameState are accepted but
/// unrouted.
#[verifier::rlimit(100)]
pub fn route_message(s: &mut GameServer, player_id: &Vec<u8>, msg: &GameMessage) -> (effects: Vec<
    Effect,
>)
    requires
        old(s).wf(),
        msg_ok(msg@),
    ensures
        final(s).wf(),
        routed(*old(s), *final(s), player_id@, msg@, effects@),
{
    let mut effects: Vec<Effect> = Vec::new();
    match msg {
        GameMessage::CreateRoom { room_id } => {
            let id = choose_room_id(room_id);
            s.create_room_with_id(player_id, &id);
            if s.has_player(player_id) {
                let reply = GameMessage::CreateRoom { room_id: clone_bytes(&id) };
                proof {
                    lemma_frame_encodable(reply@);
                }
                let frame = encode_frame(&reply);
                effects.push(Effect { to: clone_bytes(player_id), frame });
            }
            proof {
                assert(valid_new_id(msg@->CreateRoom_room_id, id@));
            }
        },
        GameMessage::JoinRoom { room_id } => {
            let ok = s.join_room(player_id, room_id);
            if ok {
                if s.has_player(player_id) {
                    let reply = GameMessage::JoinRoom { room_id: clone_bytes(room_id) };
                    proof {
                        lemma_frame_encodable(reply@);
                    }
                    let frame = encode_frame(&reply);
                    effects.push(Effect { to: clone_bytes(player_id), frame });
                }
            }
        },
        GameMessage::Move { stone } => {
            let rid_o = s.player_room(player_id);
            let ok = s.record_move(player_id, *stone);
            if ok {
                let rid = match rid_o {
                    Some(Some(r)) => r,
                    _ => {
                        proof {
                            assert(false);
                        }
                        Vec::new()
                    },
                };
                effects = s.broadcast_plan(&rid, *stone);
            }
        },
        GameMessage::Heartbeat { room_id } => {
            if room_id.len() > 0 {
                if s.has_player(player_id) {
                    let reply = GameMessage::Heartbeat { room_id: clone_bytes(room_id) };
                    proof {
                        lemma_frame_encodable(reply@);
                    }
                    let frame = encode_frame(&reply);
                    effects.push(Effect { to: clone_bytes(player_id), frame });
                }
            }
        },
        GameMessage::Join { room_id } => {},
        GameMessage::GameState { state } => {},
    }
    effects
}

/// One payload step of the dispatcher: decode, and route on success. A
/// malformed payload is discarded — the registry is untouched, nothing is
/// sent, and the connection stays open for the next frame.
pub fn handle_frame_payload(s: &mut GameServer, player_id: &Vec<u8>, payload: &Vec<u8>) -> (r: (
    Vec<Effect>,
    bool,
))
    requires
        old(s).wf(),
        payload@.len() <= 65536,
    ensures
        final(s).wf(),
        r.1 == !(exists|mm: MsgModel| payload@ == #[trigger] spec_encode(mm)),
        r.1 ==> *final(s) == *old(s) && r.0@.len() == 0,
        !r.1 ==> exists|mm: MsgModel|
            payload@ == #[trigger] spec_encode(mm) && routed(*old(s), *final(s), player_id@, mm, r.0@),
{
    match decode_payload(payload) {
        Err(_) => {
            proof {
                if exists|mm: MsgModel| payload@ == spec_encode(mm) {
                    let mm = choose|mm: MsgModel| payload@ == spec_encode(mm);
                    assert(false);
                }
            }
            (Vec::new(), true)
        },
        Ok(m) => {
            proof {
                assert(payload@ == spec_encode(m@));
                lemma_msg_ok_of_short_encoding(m@);
            }
            let effs = route_message(s, player_id, &m);
            proof {
                assert(payload@ == spec_encode(m@) && routed(*old(s), *s, player_id@, m@, effs@));
            }
            (effs, false)
        },
    }
}

/// A message decoded from an accepted frame has fields no longer than that
/// frame.
proof fn lemma_msg_ok_of_short_encoding(mm: MsgModel)
    requires
        spec_encode(mm).len() <= 65536,
    ensures
        msg_ok(mm),
{
    match mm {
        MsgModel::Join { room_id } => {
            lemma_escape_len(room_id);
        },
        MsgModel::CreateRoom { room_id } => {
            lemma_escape_len(room_id);
        },
        MsgModel::JoinRoom { room_id } => {
            lemma_escape_len(room_id);
        },
        MsgModel::GameState { state } => {
            lemma_escape_len(state);
        },
        MsgModel::Heartbeat { room_id } => {
            lemma_escape_len(room_id);
        },
        MsgModel::Move { stone } => {},
    }
}

} // verus!
