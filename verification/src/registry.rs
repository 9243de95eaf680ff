//! The player/room registry: the process-wide shared state of the relay.
//! Rooms pair up to two players (a black and a white slot) and record the
//! move history; players carry a back-reference to the room they sit in.
//! Every operation is one atomic mutation of this state; callers serialize
//! access around it.

use vstd::prelude::*;

use crate::codec::{push_digits, spec_digits, lemma_digits_len_le, spec_pow10};
use crate::msg::Stone;

verus! {

/// Whose move the room expects next. Turn starts with black and flips
/// unconditionally after every accepted move.
#[derive(Clone, Copy, PartialEq, Eq, Structural, Debug)]
pub enum Turn {
    BlackToMove,
    WhiteToMove,
}

/// The other side's turn.
pub open spec fn flip(t: Turn) -> Turn {
    match t {
        Turn::BlackToMove => Turn::WhiteToMove,
        Turn::WhiteToMove => Turn::BlackToMove,
    }
}

/// A pairing session: up to two occupants and the recorded move history.
pub struct Room {
    pub id: Vec<u8>,
    pub player_black: Option<Vec<u8>>,
    pub player_white: Option<Vec<u8>>,
    pub moves: Vec<Stone>,
    pub turn: Turn,
}

/// Mathematical model of a room.
pub struct RoomModel {
    pub id: Seq<u8>,
    pub black: Option<Seq<u8>>,
    pub white: Option<Seq<u8>>,
    pub moves: Seq<Stone>,
    pub turn: Turn,
}

impl View for Room {
    type V = RoomModel;

    open spec fn view(&self) -> RoomModel {
        RoomModel {
            id: self.id@,
            black: match self.player_black {
                Some(p) => Some(p@),
                None => None,
            },
            white: match self.player_white {
                Some(p) => Some(p@),
                None => None,
            },
            moves: self.moves@,
            turn: self.turn,
        }
    }
}

/// One connected player: a server-generated id and an optional room
/// back-reference. The byte stream itself lives with the caller, keyed by
/// the id.
pub struct PlayerConnection {
    pub id: Vec<u8>,
    pub room_id: Option<Vec<u8>>,
}

/// Mathematical model of a player entry.
pub struct PlayerModel {
    pub id: Seq<u8>,
    pub room: Option<Seq<u8>>,
}

impl View for PlayerConnection {
    type V = PlayerModel;

    open spec fn view(&self) -> PlayerModel {
        PlayerModel {
            id: self.id@,
            room: match self.room_id {
                Some(r) => Some(r@),
                None => None,
            },
        }
    }
}

/// How many occupant slots of a room are filled.
pub open spec fn occupant_count(rm: RoomModel) -> int {
    (if rm.black is Some {
        1int
    } else {
        0int
    }) + (if rm.white is Some {
        1int
    } else {
        0int
    })
}

/// The registry: all rooms and players, plus a waiting list reserved for
/// future quick-match pairing (unused by the current flow).
pub struct GameServer {
    pub rooms: Vec<Room>,
    pub players: Vec<PlayerConnection>,
    pub waiting_players: Vec<Vec<u8>>,
}

/// Distinct room ids, pairwise.
pub open spec fn uniq_rooms(v: Seq<Room>) -> bool {
    forall|i: int, j: int| 0 <= i < v.len() && 0 <= j < v.len() && i != j ==> (#[trigger] v[i]@).id
        != (#[trigger] v[j]@).id
}

/// The room stored under `id`, if any.
pub open spec fn room_in(v: Seq<Room>, id: Seq<u8>) -> Option<RoomModel> {
    if exists|i: int| 0 <= i < v.len() && (#[trigger] v[i]@).id == id {
        Some(v[choose|i: int| 0 <= i < v.len() && (#[trigger] v[i]@).id == id]@)
    } else {
        None
    }
}

proof fn lemma_room_in_at(v: Seq<Room>, i: int)
    requires
        uniq_rooms(v),
        0 <= i < v.len(),
    ensures
        room_in(v, v[i]@.id) == Some(v[i]@),
{
    let id = v[i]@.id;
    assert(exists|k: int| 0 <= k < v.len() && (#[trigger] v[k]@).id == id);
    let j = choose|k: int| 0 <= k < v.len() && (#[trigger] v[k]@).id == id;
    assert(j == i);
}

proof fn lemma_room_in_absent(v: Seq<Room>, id: Seq<u8>)
    requires
        forall|i: int| 0 <= i < v.len() ==> (#[trigger] v[i]@).id != id,
    ensures
        room_in(v, id) is None,
{
    if exists|i: int| 0 <= i < v.len() && (#[trigger] v[i]@).id == id {
        let j = choose|i: int| 0 <= i < v.len() && (#[trigger] v[i]@).id == id;
        assert(false);
    }
}

proof fn lemma_room_in_push(v: Seq<Room>, r: Room, id: Seq<u8>)
    requires
        uniq_rooms(v),
        id != r@.id,
    ensures
        room_in(v.push(r), id) == room_in(v, id),
{
    let w = v.push(r);
    assert(forall|i: int| 0 <= i < v.len() ==> w[i] == v[i]);
    if exists|i: int| 0 <= i < v.len() && (#[trigger] v[i]@).id == id {
        let i = choose|i: int| 0 <= i < v.len() && (#[trigger] v[i]@).id == id;
        assert(w[i]@.id == id);
        let j = choose|k: int| 0 <= k < w.len() && (#[trigger] w[k]@).id == id;
        assert(j != v.len() as int);
        assert(j == i) by {
            if j != i {
                assert(v[j]@.id != v[i]@.id);
            }
        }
    } else {
        if exists|k: int| 0 <= k < w.len() && (#[trigger] w[k]@).id == id {
            let j = choose|k: int| 0 <= k < w.len() && (#[trigger] w[k]@).id == id;
            assert(j != v.len() as int);
            assert(v[j]@.id == id);
            assert(false);
        }
    }
}

proof fn lemma_room_in_push_new(v: Seq<Room>, r: Room)
    requires
        forall|i: int| 0 <= i < v.len() ==> (#[trigger] v[i]@).id != r@.id,
    ensures
        room_in(v.push(r), r@.id) == Some(r@),
        uniq_rooms(v) ==> uniq_rooms(v.push(r)),
{
    let w = v.push(r);
    assert(w[v.len() as int]@.id == r@.id);
    let j = choose|k: int| 0 <= k < w.len() && (#[trigger] w[k]@).id == r@.id;
    assert(j == v.len() as int) by {
        if j < v.len() {
            assert(v[j]@.id == r@.id);
        }
    }
}

proof fn lemma_room_in_remove(v: Seq<Room>, i: int, id: Seq<u8>)
    requires
        uniq_rooms(v),
        0 <= i < v.len(),
        v[i]@.id != id,
    ensures
        room_in(v.remove(i), id) == room_in(v, id),
        uniq_rooms(v.remove(i)),
{
    let w = v.remove(i);
    assert(forall|k: int| 0 <= k < i ==> w[k] == v[k]);
    assert(forall|k: int| i <= k < w.len() ==> w[k] == v[k + 1]);
    if exists|k: int| 0 <= k < v.len() && (#[trigger] v[k]@).id == id {
        let k = choose|k: int| 0 <= k < v.len() && (#[trigger] v[k]@).id == id;
        assert(k != i);
        let k2: int = if k < i { k } else { k - 1 };
        assert(w[k2]@.id == id);
        let j = choose|m: int| 0 <= m < w.len() && (#[trigger] w[m]@).id == id;
        let jo: int = if j < i { j } else { j + 1 };
        assert(w[j] == v[jo]);
        assert(jo == k) by {
            if jo != k {
                assert(v[jo]@.id != v[k]@.id);
            }
        }
        assert(room_in(v, id) == Some(v[k]@));
        assert(room_in(w, id) == Some(w[j]@));
    } else {
        if exists|m: int| 0 <= m < w.len() && (#[trigger] w[m]@).id == id {
            let j = choose|m: int| 0 <= m < w.len() && (#[trigger] w[m]@).id == id;
            let jo: int = if j < i { j } else { j + 1 };
            assert(v[jo]@.id == id);
            assert(false);
        }
    }
}

proof fn lemma_room_in_remove_gone(v: Seq<Room>, i: int)
    requires
        uniq_rooms(v),
        0 <= i < v.len(),
    ensures
        room_in(v.remove(i), v[i]@.id) is None,
{
    let w = v.remove(i);
    assert(forall|k: int| 0 <= k < i ==> w[k] == v[k]);
    assert(forall|k: int| i <= k < w.len() ==> w[k] == v[k + 1]);
    if exists|m: int| 0 <= m < w.len() && (#[trigger] w[m]@).id == v[i]@.id {
        let j = choose|m: int| 0 <= m < w.len() && (#[trigger] w[m]@).id == v[i]@.id;
        let jo: int = if j < i { j } else { j + 1 };
        assert(v[jo]@.id == v[i]@.id);
        assert(jo != i);
        assert(false);
    }
    lemma_room_in_absent(w, v[i]@.id);
}

/// Distinct player ids, pairwise.
pub open spec fn uniq_players(v: Seq<PlayerConnection>) -> bool {
    forall|i: int, j: int| 0 <= i < v.len() && 0 <= j < v.len() && i != j ==> (#[trigger] v[i]@).id
        != (#[trigger] v[j]@).id
}

/// The player stored under `id`, if any.
pub open spec fn player_in(v: Seq<PlayerConnection>, id: Seq<u8>) -> Option<PlayerModel> {
    if exists|i: int| 0 <= i < v.len() && (#[trigger] v[i]@).id == id {
        Some(v[choose|i: int| 0 <= i < v.len() && (#[trigger] v[i]@).id == id]@)
    } else {
        None
    }
}

proof fn lemma_player_in_at(v: Seq<PlayerConnection>, i: int)
    requires
        uniq_players(v),
        0 <= i < v.len(),
    ensures
        player_in(v, v[i]@.id) == Some(v[i]@),
{
    let id = v[i]@.id;
    assert(exists|k: int| 0 <= k < v.len() && (#[trigger] v[k]@).id == id);
    let j = choose|k: int| 0 <= k < v.len() && (#[trigger] v[k]@).id == id;
    assert(j == i);
}

proof fn lemma_player_in_absent(v: Seq<PlayerConnection>, id: Seq<u8>)
    requires
        forall|i: int| 0 <= i < v.len() ==> (#[trigger] v[i]@).id != id,
    ensures
        player_in(v, id) is None,
{
    if exists|i: int| 0 <= i < v.len() && (#[trigger] v[i]@).id == id {
        let j = choose|i: int| 0 <= i < v.len() && (#[trigger] v[i]@).id == id;
        assert(false);
    }
}

proof fn lemma_player_in_push(v: Seq<PlayerConnection>, r: PlayerConnection, id: Seq<u8>)
    requires
        uniq_players(v),
        id != r@.id,
    ensures
        player_in(v.push(r), id) == player_in(v, id),
{
    let w = v.push(r);
    assert(forall|i: int| 0 <= i < v.len() ==> w[i] == v[i]);
    if exists|i: int| 0 <= i < v.len() && (#[trigger] v[i]@).id == id {
        let i = choose|i: int| 0 <= i < v.len() && (#[trigger] v[i]@).id == id;
        assert(w[i]@.id == id);
        let j = choose|k: int| 0 <= k < w.len() && (#[trigger] w[k]@).id == id;
        assert(j != v.len() as int);
        assert(j == i) by {
            if j != i {
                assert(v[j]@.id != v[i]@.id);
            }
        }
    } else {
        if exists|k: int| 0 <= k < w.len() && (#[trigger] w[k]@).id == id {
            let j = choose|k: int| 0 <= k < w.len() && (#[trigger] w[k]@).id == id;
            assert(j != v.len() as int);
            assert(v[j]@.id == id);
            assert(false);
        }
    }
}

proof fn lemma_player_in_push_new(v: Seq<PlayerConnection>, r: PlayerConnection)
    requires
        forall|i: int| 0 <= i < v.len() ==> (#[trigger] v[i]@).id != r@.id,
    ensures
        player_in(v.push(r), r@.id) == Some(r@),
        uniq_players(v) ==> uniq_players(v.push(r)),
{
    let w = v.push(r);
    assert(w[v.len() as int]@.id == r@.id);
    let j = choose|k: int| 0 <= k < w.len() && (#[trigger] w[k]@).id == r@.id;
    assert(j == v.len() as int) by {
        if j < v.len() {
            assert(v[j]@.id == r@.id);
        }
    }
}

proof fn lemma_player_in_remove(v: Seq<PlayerConnection>, i: int, id: Seq<u8>)
    requires
        uniq_players(v),
        0 <= i < v.len(),
        v[i]@.id != id,
    ensures
        player_in(v.remove(i), id) == player_in(v, id),
        uniq_players(v.remove(i)),
{
    let w = v.remove(i);
    assert(forall|k: int| 0 <= k < i ==> w[k] == v[k]);
    assert(forall|k: int| i <= k < w.len() ==> w[k] == v[k + 1]);
    if exists|k: int| 0 <= k < v.len() && (#[trigger] v[k]@).id == id {
        let k = choose|k: int| 0 <= k < v.len() && (#[trigger] v[k]@).id == id;
        assert(k != i);
        let k2: int = if k < i { k } else { k - 1 };
        assert(w[k2]@.id == id);
        let j = choose|m: int| 0 <= m < w.len() && (#[trigger] w[m]@).id == id;
        let jo: int = if j < i { j } else { j + 1 };
        assert(w[j] == v[jo]);
        assert(jo == k) by {
            if jo != k {
                assert(v[jo]@.id != v[k]@.id);
            }
        }
        assert(player_in(v, id) == Some(v[k]@));
        assert(player_in(w, id) == Some(w[j]@));
    } else {
        if exists|m: int| 0 <= m < w.len() && (#[trigger] w[m]@).id == id {
            let j = choose|m: int| 0 <= m < w.len() && (#[trigger] w[m]@).id == id;
            let jo: int = if j < i { j } else { j + 1 };
            assert(v[jo]@.id == id);
            assert(false);
        }
    }
}

proof fn lemma_player_in_remove_gone(v: Seq<PlayerConnection>, i: int)
    requires
        uniq_players(v),
        0 <= i < v.len(),
    ensures
        player_in(v.remove(i), v[i]@.id) is None,
{
    let w = v.remove(i);
    assert(forall|k: int| 0 <= k < i ==> w[k] == v[k]);
    assert(forall|k: int| i <= k < w.len() ==> w[k] == v[k + 1]);
    if exists|m: int| 0 <= m < w.len() && (#[trigger] w[m]@).id == v[i]@.id {
        let j = choose|m: int| 0 <= m < w.len() && (#[trigger] w[m]@).id == v[i]@.id;
        let jo: int = if j < i { j } else { j + 1 };
        assert(v[jo]@.id == v[i]@.id);
        assert(jo != i);
        assert(false);
    }
    lemma_player_in_absent(w, v[i]@.id);
}

impl GameServer {
    /// Well-formedness: ids are unique on both maps, and no room is empty —
    /// a room with zero occupants is destroyed at once, so none persists.
    pub open spec fn wf(&self) -> bool {
        &&& uniq_rooms(self.rooms@)
        &&& uniq_players(self.players@)
        &&& forall|i: int| 0 <= i < self.rooms@.len() ==> occupant_count(
            (#[trigger] self.rooms@[i])@,
        ) >= 1
    }

    /// The room stored under `id`, if any.
    pub open spec fn spec_room(&self, id: Seq<u8>) -> Option<RoomModel> {
        room_in(self.rooms@, id)
    }

    /// The player stored under `id`, if any.
    pub open spec fn spec_player(&self, id: Seq<u8>) -> Option<PlayerModel> {
        player_in(self.players@, id)
    }

    /// A fresh registry with no rooms and no players.
    pub fn new() -> (s: GameServer)
        ensures
            s.wf(),
            s.rooms@.len() == 0,
            s.players@.len() == 0,
            s.waiting_players@.len() == 0,
    {
        GameServer { rooms: Vec::new(), players: Vec::new(), waiting_players: Vec::new() }
    }

    fn find_room_idx(&self, id: &Vec<u8>) -> (r: Option<usize>)
        ensures
            r matches Some(i) ==> i < self.rooms@.len() && self.rooms@[i as int]@.id == id@,
            r is None ==> forall|i: int| 0 <= i < self.rooms@.len() ==> (#[trigger] self.rooms@[i])@.id
                != id@,
    {
        let n = self.rooms.len();
        let mut k: usize = 0;
        while k < n
            invariant
                n == self.rooms@.len(),
                k <= n,
                forall|i: int| 0 <= i < k ==> (#[trigger] self.rooms@[i])@.id != id@,
            decreases n - k,
        {
            if bytes_eq(&self.rooms[k].id, id) {
                return Some(k);
            }
            k = k + 1;
        }
        None
    }

    fn find_player_idx(&self, id: &Vec<u8>) -> (r: Option<usize>)
        ensures
            r matches Some(i) ==> i < self.players@.len() && self.players@[i as int]@.id == id@,
            r is None ==> forall|i: int| 0 <= i < self.players@.len() ==> (
            #[trigger] self.players@[i])@.id != id@,
    {
        let n = self.players.len();
        let mut k: usize = 0;
        while k < n
            invariant
                n == self.players@.len(),
                k <= n,
                forall|i: int| 0 <= i < k ==> (#[trigger] self.players@[i])@.id != id@,
            decreases n - k,
        {
            if bytes_eq(&self.players[k].id, id) {
                return Some(k);
            }
            k = k + 1;
        }
        None
    }
}

/// Byte-for-byte equality of two buffers.
pub fn bytes_eq(a: &Vec<u8>, b: &Vec<u8>) -> (r: bool)
    ensures
        r == (a@ == b@),
{
    if a.len() != b.len() {
        proof {
            if a@ == b@ {
                assert(a@.len() == b@.len());
            }
        }
        return false;
    }
    let n = a.len();
    let mut k: usize = 0;
    while k < n
        invariant
            n == a@.len() == b@.len(),
            k <= n,
            forall|i: int| 0 <= i < k ==> a@[i] == b@[i],
        decreases n - k,
    {
        if a[k] != b[k] {
            proof {
                if a@ == b@ {
                    assert(a@[k as int] == b@[k as int]);
                }
            }
            return false;
        }
        k = k + 1;
    }
    assert(a@ =~= b@);
    true
}

/// Copies a byte buffer.
pub fn clone_bytes(v: &Vec<u8>) -> (r: Vec<u8>)
    ensures
        r@ == v@,
{
    let n = v.len();
    let mut r: Vec<u8> = Vec::new();
    let mut k: usize = 0;
    while k < n
        invariant
            n == v@.len(),
            k <= n,
            r@ == v@.take(k as int),
        decreases n - k,
    {
        r.push(v[k]);
        assert(r@ =~= v@.take(k + 1));
        k = k + 1;
    }
    assert(v@.take(n as int) =~= v@);
    r
}


proof fn lemma_uniq_rooms_remove(v: Seq<Room>, i: int)
    requires
        uniq_rooms(v),
        0 <= i < v.len(),
    ensures
        uniq_rooms(v.remove(i)),
{
    let w = v.remove(i);
    assert forall|a: int, b: int|
        0 <= a < w.len() && 0 <= b < w.len() && a != b implies (#[trigger] w[a]@).id != (
    #[trigger] w[b]@).id by {
        let ao: int = if a < i { a } else { a + 1 };
        let bo: int = if b < i { b } else { b + 1 };
        assert(w[a] == v[ao] && w[b] == v[bo]);
    }
}

proof fn lemma_uniq_players_remove(v: Seq<PlayerConnection>, i: int)
    requires
        uniq_players(v),
        0 <= i < v.len(),
    ensures
        uniq_players(v.remove(i)),
{
    let w = v.remove(i);
    assert forall|a: int, b: int|
        0 <= a < w.len() && 0 <= b < w.len() && a != b implies (#[trigger] w[a]@).id != (
    #[trigger] w[b]@).id by {
        let ao: int = if a < i { a } else { a + 1 };
        let bo: int = if b < i { b } else { b + 1 };
        assert(w[a] == v[ao] && w[b] == v[bo]);
    }
}

/// Same rooms stored under every id.
pub open spec fn same_rooms(a: GameServer, b: GameServer) -> bool {
    forall|id: Seq<u8>| (#[trigger] a.spec_room(id)) == b.spec_room(id)
}

/// Same players stored under every id.
pub open spec fn same_players(a: GameServer, b: GameServer) -> bool {
    forall|id: Seq<u8>| (#[trigger] a.spec_player(id)) == b.spec_player(id)
}

/// A room after one occupant's departure: every slot holding that player is
/// emptied, everything else stays.
pub open spec fn spec_clear(rm: RoomModel, pid: Seq<u8>) -> RoomModel {
    RoomModel {
        id: rm.id,
        black: if rm.black == Some(pid) {
            None
        } else {
            rm.black
        },
        white: if rm.white == Some(pid) {
            None
        } else {
            rm.white
        },
        moves: rm.moves,
        turn: rm.turn,
    }
}

/// Occupancy law: a well-formed registry never stores a room with zero
/// occupants, and a room can never hold more than its two fixed slots.
pub proof fn lemma_room_occupancy(s: &GameServer, id: Seq<u8>)
    requires
        s.wf(),
        s.spec_room(id) is Some,
    ensures
        s.spec_room(id) matches Some(rm) && 1 <= occupant_count(rm) <= 2,
{
    let i = choose|i: int| 0 <= i < s.rooms@.len() && (#[trigger] s.rooms@[i]@).id == id;
    assert(occupant_count(s.rooms@[i]@) >= 1);
}

/// Relies on uuid::Uuid::new_v4 and its hyphenated Display form: a freshly
/// drawn random identifier, always 36 ASCII bytes.
#[verifier::external_body]
fn fresh_player_id() -> (r: Vec<u8>)
    ensures
        r@.len() == 36,
{
    uuid::Uuid::new_v4().to_string().into_bytes()
}

/// Relies on rand::random_range over 100000..999999: a number drawn from
/// that half-open range.
#[verifier::external_body]
fn gen_room_code() -> (r: u64)
    ensures
        100000 <= r < 999999,
{
    rand::random_range(100000u64..999999)
}

proof fn lemma_digits_len_ge(n: nat, k: nat)
    requires
        k >= 1,
        n >= spec_pow10((k - 1) as nat),
    ensures
        spec_digits(n).len() >= k,
    decreases k,
{
    if k > 1 {
        assert(spec_pow10((k - 1) as nat) == 10 * spec_pow10((k - 2) as nat));
        assert(n >= 10) by {
            assert(spec_pow10((k - 2) as nat) >= 1) by {
                lemma_pow10_pos((k - 2) as nat);
            }
        }
        assert(n / 10 >= spec_pow10((k - 2) as nat));
        lemma_digits_len_ge(n / 10, (k - 1) as nat);
    }
}

proof fn lemma_pow10_pos(k: nat)
    ensures
        spec_pow10(k) >= 1,
    decreases k,
{
    if k > 0 {
        lemma_pow10_pos((k - 1) as nat);
    }
}

/// The room id a create request settles on: the requested id when one was
/// given, otherwise a freshly drawn six-digit numeric code.
pub fn choose_room_id(requested: &Vec<u8>) -> (id: Vec<u8>)
    ensures
        requested@.len() > 0 ==> id@ == requested@,
        requested@.len() == 0 ==> (exists|n: u64|
            100000 <= n < 999999 && id@ == spec_digits(n as nat)) && id@.len() == 6,
{
    if requested.len() > 0 {
        clone_bytes(requested)
    } else {
        let code = gen_room_code();
        let mut v: Vec<u8> = Vec::new();
        push_digits(code, &mut v);
        proof {
            reveal_with_fuel(spec_pow10, 8);
            lemma_digits_len_le(code as nat, 6);
            lemma_digits_len_ge(code as nat, 6);
            assert(v@ =~= spec_digits(code as nat));
        }
        v
    }
}

/// The other side's turn.
pub fn flip_turn(t: Turn) -> (r: Turn)
    ensures
        r == flip(t),
{
    match t {
        Turn::BlackToMove => Turn::WhiteToMove,
        Turn::WhiteToMove => Turn::BlackToMove,
    }
}

impl GameServer {
    /// Registers a new connection: allocates an opaque player id and stores
    /// an entry with no room membership. Never fails.
    pub fn register(&mut self) -> (pid: Vec<u8>)
        requires
            old(self).wf(),
        ensures
            final(self).wf(),
            pid@.len() == 36,
            final(self).spec_player(pid@) == Some(PlayerModel { id: pid@, room: None }),
            forall|id2: Seq<u8>| id2 != pid@ ==> final(self).spec_player(id2) == old(
                self,
            ).spec_player(id2),
            final(self).rooms@ == old(self).rooms@,
            final(self).waiting_players@ == old(self).waiting_players@,
    {
        let pid = fresh_player_id();
        let entry = PlayerConnection { id: clone_bytes(&pid), room_id: None };
        match self.find_player_idx(&pid) {
            Some(j) => {
                let _gone = self.players.remove(j);
                proof {
                    lemma_uniq_players_remove(old(self).players@, j as int);
                    lemma_player_in_remove_gone(old(self).players@, j as int);
                    lemma_player_in_push_new(self.players@, entry);
                    assert forall|id2: Seq<u8>| id2 != pid@ implies player_in(
                        self.players@.push(entry),
                        id2,
                    ) == player_in(old(self).players@, id2) by {
                        lemma_player_in_remove(old(self).players@, j as int, id2);
                        lemma_player_in_push(self.players@, entry, id2);
                    }
                }
                self.players.push(entry);
            },
            None => {
                proof {
                    lemma_player_in_push_new(self.players@, entry);
                    assert forall|id2: Seq<u8>| id2 != pid@ implies player_in(
                        self.players@.push(entry),
                        id2,
                    ) == player_in(old(self).players@, id2) by {
                        lemma_player_in_push(self.players@, entry, id2);
                    }
                }
                self.players.push(entry);
            },
        }
        pid
    }

    /// Creates the room `room_id` — overwriting any room already stored
    /// under that id — with the creator as black occupant, an empty move
    /// history and black to move; the creator's back-reference is updated
    /// when the creator is registered.
    pub fn create_room_with_id(&mut self, player_id: &Vec<u8>, room_id: &Vec<u8>)
        requires
            old(self).wf(),
        ensures
            final(self).wf(),
            final(self).spec_room(room_id@) == Some(
                RoomModel {
                    id: room_id@,
                    black: Some(player_id@),
                    white: None,
                    moves: Seq::<Stone>::empty(),
                    turn: Turn::BlackToMove,
                },
            ),
            forall|id2: Seq<u8>| id2 != room_id@ ==> final(self).spec_room(id2) == old(
                self,
            ).spec_room(id2),
            old(self).spec_player(player_id@) is None ==> final(self).spec_player(player_id@)
                is None,
            old(self).spec_player(player_id@) matches Some(p) ==> final(self).spec_player(
                player_id@,
            ) == Some(PlayerModel { id: p.id, room: Some(room_id@) }),
            forall|id2: Seq<u8>| id2 != player_id@ ==> final(self).spec_player(id2) == old(
                self,
            ).spec_player(id2),
            final(self).waiting_players@ == old(self).waiting_players@,
    {
        let new_room = Room {
            id: clone_bytes(room_id),
            player_black: Some(clone_bytes(player_id)),
            player_white: None,
            moves: Vec::new(),
            turn: Turn::BlackToMove,
        };
        match self.find_room_idx(room_id) {
            Some(i) => {
                let _gone = self.rooms.remove(i);
                proof {
                    lemma_uniq_rooms_remove(old(self).rooms@, i as int);
                    lemma_room_in_remove_gone(old(self).rooms@, i as int);
                    lemma_room_in_push_new(self.rooms@, new_room);
                    assert forall|id2: Seq<u8>| id2 != room_id@ implies room_in(
                        self.rooms@.push(new_room),
                        id2,
                    ) == room_in(old(self).rooms@, id2) by {
                        lemma_room_in_remove(old(self).rooms@, i as int, id2);
                        lemma_room_in_push(self.rooms@, new_room, id2);
                    }
                    assert forall|k: int|
                        0 <= k < self.rooms@.push(new_room).len() implies occupant_count(
                        (#[trigger] self.rooms@.push(new_room)[k])@,
                    ) >= 1 by {
                        if k < self.rooms@.len() {
                            let ko: int = if k < i {
                                k
                            } else {
                                k + 1
                            };
                            assert(self.rooms@[k] == old(self).rooms@[ko]);
                        }
                    }
                }
                self.rooms.push(new_room);
            },
            None => {
                proof {
                    lemma_room_in_push_new(self.rooms@, new_room);
                    assert forall|id2: Seq<u8>| id2 != room_id@ implies room_in(
                        self.rooms@.push(new_room),
                        id2,
                    ) == room_in(old(self).rooms@, id2) by {
                        lemma_room_in_push(self.rooms@, new_room, id2);
                    }
                    assert forall|k: int|
                        0 <= k < self.rooms@.push(new_room).len() implies occupant_count(
                        (#[trigger] self.rooms@.push(new_room)[k])@,
                    ) >= 1 by {
                        if k < self.rooms@.len() {
                            assert(self.rooms@.push(new_room)[k] == self.rooms@[k]);
                        }
                    }
                }
                self.rooms.push(new_room);
            },
        }
        self.set_backref(player_id, room_id);
    }

    /// Points a registered player's back-reference at `room_id`; a player
    /// that is not registered is left alone.
    fn set_backref(&mut self, player_id: &Vec<u8>, room_id: &Vec<u8>)
        requires
            old(self).wf(),
        ensures
            final(self).wf(),
            final(self).rooms@ == old(self).rooms@,
            old(self).spec_player(player_id@) is None ==> final(self).spec_player(player_id@)
                is None,
            old(self).spec_player(player_id@) matches Some(p) ==> final(self).spec_player(
                player_id@,
            ) == Some(PlayerModel { id: p.id, room: Some(room_id@) }),
            forall|id2: Seq<u8>| id2 != player_id@ ==> final(self).spec_player(id2) == old(
                self,
            ).spec_player(id2),
            final(self).waiting_players@ == old(self).waiting_players@,
    {
        match self.find_player_idx(player_id) {
            Some(j) => {
                proof {
                    lemma_player_in_at(self.players@, j as int);
                }
                let mut p = self.players.remove(j);
                p.room_id = Some(clone_bytes(room_id));
                proof {
                    lemma_uniq_players_remove(old(self).players@, j as int);
                    lemma_player_in_remove_gone(old(self).players@, j as int);
                    lemma_player_in_push_new(self.players@, p);
                    assert forall|id2: Seq<u8>| id2 != player_id@ implies player_in(
                        self.players@.push(p),
                        id2,
                    ) == player_in(old(self).players@, id2) by {
                        lemma_player_in_remove(old(self).players@, j as int, id2);
                        lemma_player_in_push(self.players@, p, id2);
                    }
                }
                self.players.push(p);
            },
            None => {
                proof {
                    lemma_player_in_absent(self.players@, player_id@);
                }
            },
        }
    }

    /// Joining succeeds exactly when the room exists and its white slot is
    /// empty; on success the joiner takes the white slot and the joiner's
    /// back-reference is updated. On failure — room missing or already full —
    /// nothing changes.
    pub fn join_room(&mut self, player_id: &Vec<u8>, room_id: &Vec<u8>) -> (r: bool)
        requires
            old(self).wf(),
        ensures
            final(self).wf(),
            r == (old(self).spec_room(room_id@) matches Some(rm) && rm.white is None),
            !r ==> *final(self) == *old(self),
            r ==> (old(self).spec_room(room_id@) matches Some(rm) && final(self).spec_room(
                room_id@,
            ) == Some(
                RoomModel {
                    id: rm.id,
                    black: rm.black,
                    white: Some(player_id@),
                    moves: rm.moves,
                    turn: rm.turn,
                },
            )),
            r ==> forall|id2: Seq<u8>| id2 != room_id@ ==> final(self).spec_room(id2) == old(
                self,
            ).spec_room(id2),
            r ==> (old(self).spec_player(player_id@) is None ==> final(self).spec_player(
                player_id@,
            ) is None),
            r ==> (old(self).spec_player(player_id@) matches Some(p) ==> final(self).spec_player(
                player_id@,
            ) == Some(PlayerModel { id: p.id, room: Some(room_id@) })),
            r ==> forall|id2: Seq<u8>| id2 != player_id@ ==> final(self).spec_player(id2) == old(
                self,
            ).spec_player(id2),
            final(self).waiting_players@ == old(self).waiting_players@,
    {
        match self.find_room_idx(room_id) {
            None => {
                proof {
                    lemma_room_in_absent(self.rooms@, room_id@);
                }
                false
            },
            Some(i) => {
                proof {
                    lemma_room_in_at(self.rooms@, i as int);
                }
                if self.rooms[i].player_white.is_none() {
                    let mut rm = self.rooms.remove(i);
                    rm.player_white = Some(clone_bytes(player_id));
                    proof {
                        lemma_uniq_rooms_remove(old(self).rooms@, i as int);
                        lemma_room_in_remove_gone(old(self).rooms@, i as int);
                        lemma_room_in_push_new(self.rooms@, rm);
                        assert forall|id2: Seq<u8>| id2 != room_id@ implies room_in(
                            self.rooms@.push(rm),
                            id2,
                        ) == room_in(old(self).rooms@, id2) by {
                            lemma_room_in_remove(old(self).rooms@, i as int, id2);
                            lemma_room_in_push(self.rooms@, rm, id2);
                        }
                        assert forall|k: int|
                            0 <= k < self.rooms@.push(rm).len() implies occupant_count(
                            (#[trigger] self.rooms@.push(rm)[k])@,
                        ) >= 1 by {
                            if k < self.rooms@.len() {
                                let ko: int = if k < i {
                                    k
                                } else {
                                    k + 1
                                };
                                assert(self.rooms@[k] == old(self).rooms@[ko]);
                            }
                        }
                    }
                    self.rooms.push(rm);
                    self.set_backref(player_id, room_id);
                    true
                } else {
                    false
                }
            },
        }
    }

    /// Recording a move succeeds exactly when the sender is registered, has
    /// a room back-reference, and that room still exists; the stone is then
    /// appended — the history grows by exactly one — and the turn indicator
    /// flips exactly once. No legality or turn-order check is made: the
    /// relay trusts its clients. On failure nothing changes.
    pub fn record_move(&mut self, player_id: &Vec<u8>, stone: Stone) -> (r: bool)
        requires
            old(self).wf(),
        ensures
            final(self).wf(),
            r == (old(self).spec_player(player_id@) matches Some(p) && p.room matches Some(rid)
                && old(self).spec_room(rid) is Some),
            !r ==> *final(self) == *old(self),
            r ==> (old(self).spec_player(player_id@) matches Some(p) && p.room matches Some(rid)
                && old(self).spec_room(rid) matches Some(rm) && final(self).spec_room(rid) == Some(
                RoomModel {
                    id: rm.id,
                    black: rm.black,
                    white: rm.white,
                    moves: rm.moves.push(stone),
                    turn: flip(rm.turn),
                },
            ) && (forall|id2: Seq<u8>| id2 != rid ==> final(self).spec_room(id2) == old(
                self,
            ).spec_room(id2))),
            final(self).players@ == old(self).players@,
            final(self).waiting_players@ == old(self).waiting_players@,
    {
        let j = match self.find_player_idx(player_id) {
            Some(j) => j,
            None => {
                proof {
                    lemma_player_in_absent(self.players@, player_id@);
                }
                return false;
            },
        };
        proof {
            lemma_player_in_at(self.players@, j as int);
        }
        let rid = match &self.players[j].room_id {
            Some(r) => clone_bytes(r),
            None => {
                return false;
            },
        };
        let i = match self.find_room_idx(&rid) {
            Some(i) => i,
            None => {
                proof {
                    lemma_room_in_absent(self.rooms@, rid@);
                }
                return false;
            },
        };
        proof {
            lemma_room_in_at(self.rooms@, i as int);
        }
        let mut rm = self.rooms.remove(i);
        rm.moves.push(stone);
        rm.turn = flip_turn(rm.turn);
        proof {
            lemma_uniq_rooms_remove(old(self).rooms@, i as int);
            lemma_room_in_remove_gone(old(self).rooms@, i as int);
            lemma_room_in_push_new(self.rooms@, rm);
            assert forall|id2: Seq<u8>| id2 != rid@ implies room_in(self.rooms@.push(rm), id2)
                == room_in(old(self).rooms@, id2) by {
                lemma_room_in_remove(old(self).rooms@, i as int, id2);
                lemma_room_in_push(self.rooms@, rm, id2);
            }
            assert forall|k: int| 0 <= k < self.rooms@.push(rm).len() implies occupant_count(
                (#[trigger] self.rooms@.push(rm)[k])@,
            ) >= 1 by {
                if k < self.rooms@.len() {
                    let ko: int = if k < i {
                        k
                    } else {
                        k + 1
                    };
                    assert(self.rooms@[k] == old(self).rooms@[ko]);
                }
            }
        }
        self.rooms.push(rm);
        true
    }

    /// Removes a player on disconnect. Any occupant slot the player held in
    /// the room it referenced is emptied, and a room left with no occupants
    /// is destroyed at once.
    pub fn remove_player(&mut self, player_id: &Vec<u8>)
        requires
            old(self).wf(),
        ensures
            final(self).wf(),
            final(self).spec_player(player_id@) is None,
            forall|id2: Seq<u8>| id2 != player_id@ ==> final(self).spec_player(id2) == old(
                self,
            ).spec_player(id2),
            final(self).waiting_players@ == old(self).waiting_players@,
            old(self).spec_player(player_id@) is None ==> *final(self) == *old(self),
            old(self).spec_player(player_id@) matches Some(p) ==> (p.room is None ==> same_rooms(
                *final(self),
                *old(self),
            )),
            old(self).spec_player(player_id@) matches Some(p) ==> (p.room matches Some(rid) ==> (
            old(self).spec_room(rid) is None ==> same_rooms(*final(self), *old(self)))),
            old(self).spec_player(player_id@) matches Some(p) ==> (p.room matches Some(rid) ==> (
            old(self).spec_room(rid) matches Some(rm) ==> ({
                let rm2 = spec_clear(rm, player_id@);
                &&& (occupant_count(rm2) == 0 ==> final(self).spec_room(rid) is None)
                &&& (occupant_count(rm2) != 0 ==> final(self).spec_room(rid) == Some(rm2))
                &&& (forall|id2: Seq<u8>| id2 != rid ==> final(self).spec_room(id2) == old(
                    self,
                ).spec_room(id2))
            }))),
    {
        let j = match self.find_player_idx(player_id) {
            Some(j) => j,
            None => {
                proof {
                    lemma_player_in_absent(self.players@, player_id@);
                }
                return ;
            },
        };
        proof {
            lemma_player_in_at(self.players@, j as int);
        }
        let p = self.players.remove(j);
        proof {
            lemma_uniq_players_remove(old(self).players@, j as int);
            lemma_player_in_remove_gone(old(self).players@, j as int);
            assert forall|id2: Seq<u8>| id2 != player_id@ implies player_in(self.players@, id2)
                == player_in(old(self).players@, id2) by {
                lemma_player_in_remove(old(self).players@, j as int, id2);
            }
        }
        let rid = match &p.room_id {
            Some(r) => r,
            None => {
                return ;
            },
        };
        let i = match self.find_room_idx(rid) {
            Some(i) => i,
            None => {
                proof {
                    lemma_room_in_absent(self.rooms@, rid@);
                }
                return ;
            },
        };
        proof {
            lemma_room_in_at(self.rooms@, i as int);
        }
        let ghost rooms0 = self.rooms@;
        let mut rm = self.rooms.remove(i);
        let clear_black = match &rm.player_black {
            Some(b) => bytes_eq(b, player_id),
            None => false,
        };
        if clear_black {
            rm.player_black = None;
        }
        let clear_white = match &rm.player_white {
            Some(w) => bytes_eq(w, player_id),
            None => false,
        };
        if clear_white {
            rm.player_white = None;
        }
        proof {
            assert(rm@ == spec_clear(rooms0[i as int]@, player_id@));
            lemma_uniq_rooms_remove(rooms0, i as int);
            lemma_room_in_remove_gone(rooms0, i as int);
            assert forall|id2: Seq<u8>| id2 != rid@ implies room_in(rooms0.remove(i as int), id2)
                == room_in(rooms0, id2) by {
                lemma_room_in_remove(rooms0, i as int, id2);
            }
        }
        if rm.player_black.is_none() && rm.player_white.is_none() {
            // the last occupant left: the room is destroyed
        } else {
            proof {
                lemma_room_in_push_new(self.rooms@, rm);
                assert forall|id2: Seq<u8>| id2 != rid@ implies room_in(
                    self.rooms@.push(rm),
                    id2,
                ) == room_in(self.rooms@, id2) by {
                    lemma_room_in_push(self.rooms@, rm, id2);
                }
                assert forall|k: int| 0 <= k < self.rooms@.push(rm).len() implies occupant_count(
                    (#[trigger] self.rooms@.push(rm)[k])@,
                ) >= 1 by {
                    if k < self.rooms@.len() {
                        let ko: int = if k < i {
                            k
                        } else {
                            k + 1
                        };
                        assert(self.rooms@[k] == rooms0[ko]);
                    }
                }
            }
            self.rooms.push(rm);
        }
    }
}


/// Bytes of an optional buffer.
pub open spec fn opt_bytes(o: Option<Vec<u8>>) -> Option<Seq<u8>> {
    match o {
        Some(v) => Some(v@),
        None => None,
    }
}

impl GameServer {
    /// Whether a player id is registered.
    pub fn has_player(&self, id: &Vec<u8>) -> (r: bool)
        requires
            self.wf(),
        ensures
            r == (self.spec_player(id@) is Some),
    {
        match self.find_player_idx(id) {
            Some(j) => {
                proof {
                    lemma_player_in_at(self.players@, j as int);
                }
                true
            },
            None => {
                proof {
                    lemma_player_in_absent(self.players@, id@);
                }
                false
            },
        }
    }

    /// A registered player's room back-reference: None for an unknown
    /// player, Some(None) for a player sitting in no room.
    pub fn player_room(&self, id: &Vec<u8>) -> (r: Option<Option<Vec<u8>>>)
        requires
            self.wf(),
        ensures
            r is Some == (self.spec_player(id@) is Some),
            r matches Some(o) ==> (self.spec_player(id@) matches Some(p) && opt_bytes(o) == p.room),
    {
        match self.find_player_idx(id) {
            Some(j) => {
                proof {
                    lemma_player_in_at(self.players@, j as int);
                }
                match &self.players[j].room_id {
                    Some(rid) => Some(Some(clone_bytes(rid))),
                    None => Some(None),
                }
            },
            None => {
                proof {
                    lemma_player_in_absent(self.players@, id@);
                }
                None
            },
        }
    }

    /// The two occupant slots of a room, if the room exists.
    pub fn room_occupants(&self, room_id: &Vec<u8>) -> (r: Option<
        (Option<Vec<u8>>, Option<Vec<u8>>),
    >)
        requires
            self.wf(),
        ensures
            r is Some == (self.spec_room(room_id@) is Some),
            r matches Some(x) ==> (self.spec_room(room_id@) matches Some(rm) && opt_bytes(x.0)
                == rm.black && opt_bytes(x.1) == rm.white),
    {
        match self.find_room_idx(room_id) {
            Some(i) => {
                proof {
                    lemma_room_in_at(self.rooms@, i as int);
                }
                let b = match &self.rooms[i].player_black {
                    Some(x) => Some(clone_bytes(x)),
                    None => None,
                };
                let w = match &self.rooms[i].player_white {
                    Some(x) => Some(clone_bytes(x)),
                    None => None,
                };
                Some((b, w))
            },
            None => {
                proof {
                    lemma_room_in_absent(self.rooms@, room_id@);
                }
                None
            },
        }
    }
}

} // verus!
