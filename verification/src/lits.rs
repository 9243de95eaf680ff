use vstd::prelude::*;

verus! {

// Fixed byte sequences of the wire envelope grammar: each literal has a spec
// sequence, a function that appends it to a buffer, and a builder.

/// Bytes of `{\"type\":\"Join\",\"roomId\":\"`.
pub open spec fn lit_hdr_join() -> Seq<u8> {
    seq![123u8, 34, 116, 121, 112, 101, 34, 58, 34, 74, 111, 105, 110, 34, 44, 34, 114, 111, 111, 109, 73, 100, 34, 58, 34]
}

pub fn push_hdr_join(out: &mut Vec<u8>)
    ensures
        final(out)@ == old(out)@ + lit_hdr_join(),
{
    out.push(123);
    out.push(34);
    out.push(116);
    out.push(121);
    out.push(112);
    out.push(101);
    out.push(34);
    out.push(58);
    out.push(34);
    out.push(74);
    out.push(111);
    out.push(105);
    out.push(110);
    out.push(34);
    out.push(44);
    out.push(34);
    out.push(114);
    out.push(111);
    out.push(111);
    out.push(109);
    out.push(73);
    out.push(100);
    out.push(34);
    out.push(58);
    out.push(34);
    assert(out@ =~= old(out)@ + lit_hdr_join());
}

pub fn make_hdr_join() -> (v: Vec<u8>)
    ensures
        v@ == lit_hdr_join(),
{
    let mut v: Vec<u8> = Vec::new();
    push_hdr_join(&mut v);
    assert(v@ =~= lit_hdr_join());
    v
}

/// Bytes of `{\"type\":\"CreateRoom\",\"roomId\":\"`.
pub open spec fn lit_hdr_create_room() -> Seq<u8> {
    seq![123u8, 34, 116, 121, 112, 101, 34, 58, 34, 67, 114, 101, 97, 116, 101, 82, 111, 111, 109, 34, 44, 34, 114, 111, 111, 109, 73, 100, 34, 58, 34]
}

pub fn push_hdr_create_room(out: &mut Vec<u8>)
    ensures
        final(out)@ == old(out)@ + lit_hdr_create_room(),
{
    out.push(123);
    out.push(34);
    out.push(116);
    out.push(121);
    out.push(112);
    out.push(101);
    out.push(34);
    out.push(58);
    out.push(34);
    out.push(67);
    out.push(114);
    out.push(101);
    out.push(97);
    out.push(116);
    out.push(101);
    out.push(82);
    out.push(111);
    out.push(111);
    out.push(109);
    out.push(34);
    out.push(44);
    out.push(34);
    out.push(114);
    out.push(111);
    out.push(111);
    out.push(109);
    out.push(73);
    out.push(100);
    out.push(34);
    out.push(58);
    out.push(34);
    assert(out@ =~= old(out)@ + lit_hdr_create_room());
}

pub fn make_hdr_create_room() -> (v: Vec<u8>)
    ensures
        v@ == lit_hdr_create_room(),
{
    let mut v: Vec<u8> = Vec::new();
    push_hdr_create_room(&mut v);
    assert(v@ =~= lit_hdr_create_room());
    v
}

/// Bytes of `{\"type\":\"JoinRoom\",\"roomId\":\"`.
pub open spec fn lit_hdr_join_room() -> Seq<u8> {
    seq![123u8, 34, 116, 121, 112, 101, 34, 58, 34, 74, 111, 105, 110, 82, 111, 111, 109, 34, 44, 34, 114, 111, 111, 109, 73, 100, 34, 58, 34]
}

pub fn push_hdr_join_room(out: &mut Vec<u8>)
    ensures
        final(out)@ == old(out)@ + lit_hdr_join_room(),
{
    out.push(123);
    out.push(34);
    out.push(116);
    out.push(121);
    out.push(112);
    out.push(101);
    out.push(34);
    out.push(58);
    out.push(34);
    out.push(74);
    out.push(111);
    out.push(105);
    out.push(110);
    out.push(82);
    out.push(111);
    out.push(111);
    out.push(109);
    out.push(34);
    out.push(44);
    out.push(34);
    out.push(114);
    out.push(111);
    out.push(111);
    out.push(109);
    out.push(73);
    out.push(100);
    out.push(34);
    out.push(58);
    out.push(34);
    assert(out@ =~= old(out)@ + lit_hdr_join_room());
}

pub fn make_hdr_join_room() -> (v: Vec<u8>)
    ensures
        v@ == lit_hdr_join_room(),
{
    let mut v: Vec<u8> = Vec::new();
    push_hdr_join_room(&mut v);
    assert(v@ =~= lit_hdr_join_room());
    v
}

/// Bytes of `{\"type\":\"Move\",\"networkStone\":{\"count\":`.
pub open spec fn lit_hdr_move() -> Seq<u8> {
    seq![123u8, 34, 116, 121, 112, 101, 34, 58, 34, 77, 111, 118, 101, 34, 44, 34, 110, 101, 116, 119, 111, 114, 107, 83, 116, 111, 110, 101, 34, 58, 123, 34, 99, 111, 117, 110, 116, 34, 58]
}

pub fn push_hdr_move(out: &mut Vec<u8>)
    ensures
        final(out)@ == old(out)@ + lit_hdr_move(),
{
    out.push(123);
    out.push(34);
    out.push(116);
    out.push(121);
    out.push(112);
    out.push(101);
    out.push(34);
    out.push(58);
    out.push(34);
    out.push(77);
    out.push(111);
    out.push(118);
    out.push(101);
    out.push(34);
    out.push(44);
    out.push(34);
    out.push(110);
    out.push(101);
    out.push(116);
    out.push(119);
    out.push(111);
    out.push(114);
    out.push(107);
    out.push(83);
    out.push(116);
    out.push(111);
    out.push(110);
    out.push(101);
    out.push(34);
    out.push(58);
    out.push(123);
    out.push(34);
    out.push(99);
    out.push(111);
    out.push(117);
    out.push(110);
    out.push(116);
    out.push(34);
    out.push(58);
    assert(out@ =~= old(out)@ + lit_hdr_move());
}

pub fn make_hdr_move() -> (v: Vec<u8>)
    ensures
        v@ == lit_hdr_move(),
{
    let mut v: Vec<u8> = Vec::new();
    push_hdr_move(&mut v);
    assert(v@ =~= lit_hdr_move());
    v
}

/// Bytes of `{\"type\":\"GameState\",\"state\":\"`.
pub open spec fn lit_hdr_game_state() -> Seq<u8> {
    seq![123u8, 34, 116, 121, 112, 101, 34, 58, 34, 71, 97, 109, 101, 83, 116, 97, 116, 101, 34, 44, 34, 115, 116, 97, 116, 101, 34, 58, 34]
}

pub fn push_hdr_game_state(out: &mut Vec<u8>)
    ensures
        final(out)@ == old(out)@ + lit_hdr_game_state(),
{
    out.push(123);
    out.push(34);
    out.push(116);
    out.push(121);
    out.push(112);
    out.push(101);
    out.push(34);
    out.push(58);
    out.push(34);
    out.push(71);
    out.push(97);
    out.push(109);
    out.push(101);
    out.push(83);
    out.push(116);
    out.push(97);
    out.push(116);
    out.push(101);
    out.push(34);
    out.push(44);
    out.push(34);
    out.push(115);
    out.push(116);
    out.push(97);
    out.push(116);
    out.push(101);
    out.push(34);
    out.push(58);
    out.push(34);
    assert(out@ =~= old(out)@ + lit_hdr_game_state());
}

pub fn make_hdr_game_state() -> (v: Vec<u8>)
    ensures
        v@ == lit_hdr_game_state(),
{
    let mut v: Vec<u8> = Vec::new();
    push_hdr_game_state(&mut v);
    assert(v@ =~= lit_hdr_game_state());
    v
}

/// Bytes of `{\"type\":\"Heartbeat\",\"roomId\":\"`.
pub open spec fn lit_hdr_heartbeat() -> Seq<u8> {
    seq![123u8, 34, 116, 121, 112, 101, 34, 58, 34, 72, 101, 97, 114, 116, 98, 101, 97, 116, 34, 44, 34, 114, 111, 111, 109, 73, 100, 34, 58, 34]
}

pub fn push_hdr_heartbeat(out: &mut Vec<u8>)
    ensures
        final(out)@ == old(out)@ + lit_hdr_heartbeat(),
{
    out.push(123);
    out.push(34);
    out.push(116);
    out.push(121);
    out.push(112);
    out.push(101);
    out.push(34);
    out.push(58);
    out.push(34);
    out.push(72);
    out.push(101);
    out.push(97);
    out.push(114);
    out.push(116);
    out.push(98);
    out.push(101);
    out.push(97);
    out.push(116);
    out.push(34);
    out.push(44);
    out.push(34);
    out.push(114);
    out.push(111);
    out.push(111);
    out.push(109);
    out.push(73);
    out.push(100);
    out.push(34);
    out.push(58);
    out.push(34);
    assert(out@ =~= old(out)@ + lit_hdr_heartbeat());
}

pub fn make_hdr_heartbeat() -> (v: Vec<u8>)
    ensures
        v@ == lit_hdr_heartbeat(),
{
    let mut v: Vec<u8> = Vec::new();
    push_hdr_heartbeat(&mut v);
    assert(v@ =~= lit_hdr_heartbeat());
    v
}

/// Bytes of `,\"color\":\"`.
pub open spec fn lit_color_key() -> Seq<u8> {
    seq![44u8, 34, 99, 111, 108, 111, 114, 34, 58, 34]
}

pub fn push_color_key(out: &mut Vec<u8>)
    ensures
        final(out)@ == old(out)@ + lit_color_key(),
{
    out.push(44);
    out.push(34);
    out.push(99);
    out.push(111);
    out.push(108);
    out.push(111);
    out.push(114);
    out.push(34);
    out.push(58);
    out.push(34);
    assert(out@ =~= old(out)@ + lit_color_key());
}

pub fn make_color_key() -> (v: Vec<u8>)
    ensures
        v@ == lit_color_key(),
{
    let mut v: Vec<u8> = Vec::new();
    push_color_key(&mut v);
    assert(v@ =~= lit_color_key());
    v
}

/// Bytes of `BLACK`.
pub open spec fn lit_color_black() -> Seq<u8> {
    seq![66u8, 76, 65, 67, 75]
}

pub fn push_color_black(out: &mut Vec<u8>)
    ensures
        final(out)@ == old(out)@ + lit_color_black(),
{
    out.push(66);
    out.push(76);
    out.push(65);
    out.push(67);
    out.push(75);
    assert(out@ =~= old(out)@ + lit_color_black());
}

pub fn make_color_black() -> (v: Vec<u8>)
    ensures
        v@ == lit_color_black(),
{
    let mut v: Vec<u8> = Vec::new();
    push_color_black(&mut v);
    assert(v@ =~= lit_color_black());
    v
}

/// Bytes of `WHITE`.
pub open spec fn lit_color_white() -> Seq<u8> {
    seq![87u8, 72, 73, 84, 69]
}

pub fn push_color_white(out: &mut Vec<u8>)
    ensures
        final(out)@ == old(out)@ + lit_color_white(),
{
    out.push(87);
    out.push(72);
    out.push(73);
    out.push(84);
    out.push(69);
    assert(out@ =~= old(out)@ + lit_color_white());
}

pub fn make_color_white() -> (v: Vec<u8>)
    ensures
        v@ == lit_color_white(),
{
    let mut v: Vec<u8> = Vec::new();
    push_color_white(&mut v);
    assert(v@ =~= lit_color_white());
    v
}

/// Bytes of `\",\"coordinate\":{\"i\":`.
pub open spec fn lit_coordinate_key() -> Seq<u8> {
    seq![34u8, 44, 34, 99, 111, 111, 114, 100, 105, 110, 97, 116, 101, 34, 58, 123, 34, 105, 34, 58]
}

pub fn push_coordinate_key(out: &mut Vec<u8>)
    ensures
        final(out)@ == old(out)@ + lit_coordinate_key(),
{
    out.push(34);
    out.push(44);
    out.push(34);
    out.push(99);
    out.push(111);
    out.push(111);
    out.push(114);
    out.push(100);
    out.push(105);
    out.push(110);
    out.push(97);
    out.push(116);
    out.push(101);
    out.push(34);
    out.push(58);
    out.push(123);
    out.push(34);
    out.push(105);
    out.push(34);
    out.push(58);
    assert(out@ =~= old(out)@ + lit_coordinate_key());
}

pub fn make_coordinate_key() -> (v: Vec<u8>)
    ensures
        v@ == lit_coordinate_key(),
{
    let mut v: Vec<u8> = Vec::new();
    push_coordinate_key(&mut v);
    assert(v@ =~= lit_coordinate_key());
    v
}

/// Bytes of `,\"j\":`.
pub open spec fn lit_j_key() -> Seq<u8> {
    seq![44u8, 34, 106, 34, 58]
}

pub fn push_j_key(out: &mut Vec<u8>)
    ensures
        final(out)@ == old(out)@ + lit_j_key(),
{
    out.push(44);
    out.push(34);
    out.push(106);
    out.push(34);
    out.push(58);
    assert(out@ =~= old(out)@ + lit_j_key());
}

pub fn make_j_key() -> (v: Vec<u8>)
    ensures
        v@ == lit_j_key(),
{
    let mut v: Vec<u8> = Vec::new();
    push_j_key(&mut v);
    assert(v@ =~= lit_j_key());
    v
}

/// Bytes of `},\"index\":{\"i\":`.
pub open spec fn lit_index_key() -> Seq<u8> {
    seq![125u8, 44, 34, 105, 110, 100, 101, 120, 34, 58, 123, 34, 105, 34, 58]
}

pub fn push_index_key(out: &mut Vec<u8>)
    ensures
        final(out)@ == old(out)@ + lit_index_key(),
{
    out.push(125);
    out.push(44);
    out.push(34);
    out.push(105);
    out.push(110);
    out.push(100);
    out.push(101);
    out.push(120);
    out.push(34);
    out.push(58);
    out.push(123);
    out.push(34);
    out.push(105);
    out.push(34);
    out.push(58);
    assert(out@ =~= old(out)@ + lit_index_key());
}

pub fn make_index_key() -> (v: Vec<u8>)
    ensures
        v@ == lit_index_key(),
{
    let mut v: Vec<u8> = Vec::new();
    push_index_key(&mut v);
    assert(v@ =~= lit_index_key());
    v
}

/// Bytes of `}}}`.
pub open spec fn lit_move_tail() -> Seq<u8> {
    seq![125u8, 125, 125]
}

pub fn push_move_tail(out: &mut Vec<u8>)
    ensures
        final(out)@ == old(out)@ + lit_move_tail(),
{
    out.push(125);
    out.push(125);
    out.push(125);
    assert(out@ =~= old(out)@ + lit_move_tail());
}

pub fn make_move_tail() -> (v: Vec<u8>)
    ensures
        v@ == lit_move_tail(),
{
    let mut v: Vec<u8> = Vec::new();
    push_move_tail(&mut v);
    assert(v@ =~= lit_move_tail());
    v
}

/// Bytes of `}`.
pub open spec fn lit_rbrace() -> Seq<u8> {
    seq![125u8]
}

pub fn push_rbrace(out: &mut Vec<u8>)
    ensures
        final(out)@ == old(out)@ + lit_rbrace(),
{
    out.push(125);
    assert(out@ =~= old(out)@ + lit_rbrace());
}

pub fn make_rbrace() -> (v: Vec<u8>)
    ensures
        v@ == lit_rbrace(),
{
    let mut v: Vec<u8> = Vec::new();
    push_rbrace(&mut v);
    assert(v@ =~= lit_rbrace());
    v
}

} // verus!
