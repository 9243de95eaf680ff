//! Wire codec for the envelope grammar: a four-byte big-endian length prefix
//! followed by a UTF-8 tagged object. Encoding is canonical (tag first, fields
//! in a fixed order, backslash escapes for quote, backslash and control
//! bytes); decoding accepts exactly the canonical form and refuses everything
//! else as a malformed payload.

use vstd::prelude::*;

use crate::lits::{
    lit_color_black, lit_color_white, lit_color_key, lit_coordinate_key, lit_hdr_create_room,
    lit_hdr_game_state, lit_hdr_heartbeat, lit_hdr_join, lit_hdr_join_room, lit_hdr_move,
    lit_index_key, lit_j_key, lit_move_tail, lit_rbrace, make_color_black, make_color_white,
    make_color_key, make_coordinate_key, make_hdr_create_room, make_hdr_game_state,
    make_hdr_heartbeat, make_hdr_join, make_hdr_join_room, make_hdr_move, make_index_key,
    make_j_key, make_move_tail, make_rbrace, push_color_black, push_color_white, push_color_key,
    push_coordinate_key, push_hdr_create_room, push_hdr_game_state, push_hdr_heartbeat,
    push_hdr_join, push_hdr_join_room, push_hdr_move, push_index_key, push_j_key, push_move_tail,
    push_rbrace,
};
use crate::msg::{Color, DecodeError, GameMessage, MsgModel, Position, Stone};

verus! {

/// True for the ASCII code of a decimal digit.
pub open spec fn is_digit_byte(b: u8) -> bool {
    48 <= b <= 57
}

/// Decimal digits of `n`, most significant first, no leading zeros.
pub open spec fn spec_digits(n: nat) -> Seq<u8>
    decreases n,
{
    if n < 10 {
        seq![(48 + n) as u8]
    } else {
        spec_digits(n / 10) + seq![(48 + n % 10) as u8]
    }
}

/// Numeric value of a sequence of digit bytes.
pub open spec fn spec_digits_val(s: Seq<u8>) -> int
    decreases s.len(),
{
    if s.len() == 0 {
        0
    } else {
        spec_digits_val(s.drop_last()) * 10 + (s.last() - 48)
    }
}

/// Decimal bytes of a signed integer: a minus sign, then the digits of the
/// magnitude.
pub open spec fn spec_int_bytes(v: int) -> Seq<u8> {
    if v < 0 {
        seq![45u8] + spec_digits((-v) as nat)
    } else {
        spec_digits(v as nat)
    }
}

/// Lowercase hexadecimal digit of a value below sixteen.
pub open spec fn hex_lc(n: nat) -> u8 {
    if n < 10 {
        (48 + n) as u8
    } else {
        (87 + n) as u8
    }
}

/// How one byte appears inside a quoted string: quote and backslash take a
/// backslash escape, control bytes take a four-digit hexadecimal escape,
/// everything else stands for itself.
pub open spec fn spec_esc_byte(b: u8) -> Seq<u8> {
    if b == 34 || b == 92 {
        seq![92u8, b]
    } else if b < 32 {
        seq![92u8, 117, 48, 48, hex_lc((b / 16) as nat), hex_lc((b % 16) as nat)]
    } else {
        seq![b]
    }
}

/// Escaped form of a whole string body.
pub open spec fn spec_escape(s: Seq<u8>) -> Seq<u8>
    decreases s.len(),
{
    if s.len() == 0 {
        Seq::empty()
    } else {
        spec_escape(s.drop_last()) + spec_esc_byte(s.last())
    }
}

pub proof fn lemma_digits_shape(n: nat)
    ensures
        spec_digits(n).len() >= 1,
        forall|k: int| 0 <= k < spec_digits(n).len() ==> is_digit_byte(#[trigger] spec_digits(n)[k]),
        n >= 1 ==> spec_digits(n)[0] != 48,
    decreases n,
{
    if n >= 10 {
        lemma_digits_shape(n / 10);
        assert(spec_digits(n) == spec_digits(n / 10) + seq![(48 + n % 10) as u8]);
        assert(spec_digits(n)[0] == spec_digits(n / 10)[0]);
    }
}

pub proof fn lemma_digits_val_of_digits(n: nat)
    ensures
        spec_digits_val(spec_digits(n)) == n,
    decreases n,
{
    reveal_with_fuel(spec_digits_val, 3);
    if n < 10 {
        assert(spec_digits(n).drop_last() =~= Seq::<u8>::empty());
        assert(spec_digits(n).last() == (48 + n) as u8);
        assert((48 + n) as u8 as int == 48 + n);
    } else {
        lemma_digits_val_of_digits(n / 10);
        assert(spec_digits(n).drop_last() =~= spec_digits(n / 10));
        assert(spec_digits(n).last() == (48 + n % 10) as u8);
        assert((48 + n % 10) as u8 as int == 48 + n % 10);
    }
}

pub proof fn lemma_digits_val_nonneg(s: Seq<u8>)
    requires
        forall|k: int| 0 <= k < s.len() ==> is_digit_byte(#[trigger] s[k]),
    ensures
        spec_digits_val(s) >= 0,
    decreases s.len(),
{
    if s.len() > 0 {
        lemma_digits_val_nonneg(s.drop_last());
    }
}

pub proof fn lemma_digits_val_pos(s: Seq<u8>)
    requires
        s.len() >= 1,
        forall|k: int| 0 <= k < s.len() ==> is_digit_byte(#[trigger] s[k]),
        s[0] != 48,
    ensures
        spec_digits_val(s) >= 1,
    decreases s.len(),
{
    reveal_with_fuel(spec_digits_val, 3);
    assert(is_digit_byte(s.last()));
    if s.len() == 1 {
        assert(s.drop_last() =~= Seq::<u8>::empty());
        assert(s.last() == s[0]);
    } else {
        assert(s.drop_last()[0] == s[0]);
        lemma_digits_val_pos(s.drop_last());
    }
}

/// A nonempty digit string without a leading zero is the digit form of its
/// own value.
pub proof fn lemma_digits_of_val(s: Seq<u8>)
    requires
        s.len() >= 1,
        forall|k: int| 0 <= k < s.len() ==> is_digit_byte(#[trigger] s[k]),
        s[0] != 48 || s.len() == 1,
    ensures
        spec_digits_val(s) >= 0,
        spec_digits(spec_digits_val(s) as nat) == s,
    decreases s.len(),
{
    reveal_with_fuel(spec_digits_val, 3);
    reveal_with_fuel(spec_digits, 3);
    lemma_digits_val_nonneg(s);
    assert(is_digit_byte(s.last()));
    if s.len() == 1 {
        assert(s.drop_last() =~= Seq::<u8>::empty());
        assert(s.last() == s[0]);
        assert(spec_digits_val(s) == s[0] - 48);
        assert(spec_digits((s[0] - 48) as nat) =~= s);
    } else {
        let s0 = s.drop_last();
        let d = s.last() - 48;
        lemma_digits_of_val(s0);
        lemma_digits_val_pos(s0);
        let v0 = spec_digits_val(s0);
        let v = spec_digits_val(s);
        assert(v == v0 * 10 + d);
        assert(v >= 10) by (nonlinear_arith)
            requires
                v == v0 * 10 + d,
                v0 >= 1,
                d >= 0,
        ;
        assert(v / 10 == v0 && v % 10 == d) by (nonlinear_arith)
            requires
                v == v0 * 10 + d,
                0 <= d < 10,
                v0 >= 0,
        ;
        assert(spec_digits(v as nat) == spec_digits(v0 as nat) + seq![(48 + d) as u8]);
        assert(spec_digits(v as nat) =~= s);
    }
}

/// Appending digit bytes never shrinks the value.
pub proof fn lemma_digits_val_append_ge(s: Seq<u8>, t: Seq<u8>)
    requires
        forall|k: int| 0 <= k < s.len() ==> is_digit_byte(#[trigger] s[k]),
        forall|k: int| 0 <= k < t.len() ==> is_digit_byte(#[trigger] t[k]),
    ensures
        spec_digits_val(s + t) >= spec_digits_val(s),
    decreases t.len(),
{
    lemma_digits_val_nonneg(s);
    if t.len() == 0 {
        assert(s + t =~= s);
    } else {
        assert((s + t).drop_last() =~= s + t.drop_last());
        lemma_digits_val_append_ge(s, t.drop_last());
        let w = spec_digits_val(s + t.drop_last());
        assert(spec_digits_val(s + t) == w * 10 + ((s + t).last() - 48));
        assert(w * 10 + ((s + t).last() - 48) >= spec_digits_val(s)) by (nonlinear_arith)
            requires
                w >= spec_digits_val(s),
                spec_digits_val(s) >= 0,
                (s + t).last() >= 48,
        ;
    }
}

/// Powers of ten, for digit-count bounds.
pub open spec fn spec_pow10(k: nat) -> nat
    decreases k,
{
    if k == 0 {
        1
    } else {
        10 * spec_pow10((k - 1) as nat)
    }
}

pub proof fn lemma_digits_len_le(n: nat, k: nat)
    requires
        k >= 1,
        n < spec_pow10(k),
    ensures
        spec_digits(n).len() <= k,
    decreases n,
{
    if n >= 10 {
        assert(spec_pow10(k) == 10 * spec_pow10((k - 1) as nat));
        assert(k >= 2) by {
            if k == 1 {
                assert(spec_pow10(1nat) == 10);
            }
        }
        assert(n / 10 < spec_pow10((k - 1) as nat));
        lemma_digits_len_le(n / 10, (k - 1) as nat);
    }
}

pub proof fn lemma_escape_append(a: Seq<u8>, b: Seq<u8>)
    ensures
        spec_escape(a + b) == spec_escape(a) + spec_escape(b),
    decreases b.len(),
{
    if b.len() == 0 {
        assert(a + b =~= a);
        assert(spec_escape(a) + spec_escape(b) =~= spec_escape(a));
    } else {
        assert((a + b).drop_last() =~= a + b.drop_last());
        lemma_escape_append(a, b.drop_last());
        assert(spec_escape(a + b) == spec_escape(a) + spec_escape(b.drop_last())
            + spec_esc_byte(b.last()));
        assert(spec_escape(a) + spec_escape(b.drop_last()) + spec_esc_byte(b.last())
            =~= spec_escape(a) + (spec_escape(b.drop_last()) + spec_esc_byte(b.last())));
    }
}

/// Peels the escaped form of the byte at position `k` out of the middle.
pub proof fn lemma_escape_split(s: Seq<u8>, k: int)
    requires
        0 <= k < s.len(),
    ensures
        spec_escape(s) == spec_escape(s.take(k)) + spec_esc_byte(s[k]) + spec_escape(
            s.skip(k + 1),
        ),
    decreases s.len(),
{
    reveal_with_fuel(spec_escape, 3);
    assert(s =~= s.take(k) + seq![s[k]] + s.skip(k + 1));
    lemma_escape_append(s.take(k) + seq![s[k]], s.skip(k + 1));
    lemma_escape_append(s.take(k), seq![s[k]]);
    assert(seq![s[k]].drop_last() =~= Seq::<u8>::empty());
    assert(seq![s[k]].last() == s[k]);
    assert(Seq::<u8>::empty() + spec_esc_byte(s[k]) =~= spec_esc_byte(s[k]));
    assert(spec_escape(seq![s[k]]) == spec_esc_byte(s[k]));
}

pub proof fn lemma_escape_len(s: Seq<u8>)
    ensures
        s.len() <= spec_escape(s).len() <= 6 * s.len(),
    decreases s.len(),
{
    if s.len() > 0 {
        lemma_escape_len(s.drop_last());
    }
}

/// Appends the decimal digits of `n`.
pub fn push_digits(n: u64, out: &mut Vec<u8>)
    ensures
        final(out)@ == old(out)@ + spec_digits(n as nat),
    decreases n,
{
    if n < 10 {
        out.push(48 + n as u8);
        assert(out@ =~= old(out)@ + spec_digits(n as nat));
    } else {
        push_digits(n / 10, out);
        out.push(48 + (n % 10) as u8);
        assert(out@ =~= old(out)@ + spec_digits(n as nat));
    }
}

/// Appends the decimal form of a signed integer.
pub fn push_int(v: i32, out: &mut Vec<u8>)
    ensures
        final(out)@ == old(out)@ + spec_int_bytes(v as int),
{
    if v < 0 {
        out.push(45);
        let mag: u64 = (-(v as i64)) as u64;
        assert(mag as nat == (-(v as int)) as nat);
        push_digits(mag, out);
        assert(out@ =~= old(out)@ + spec_int_bytes(v as int));
    } else {
        push_digits(v as u64, out);
    }
}

/// The lowercase hexadecimal digit of a value below sixteen.
pub fn hex_digit(n: u8) -> (r: u8)
    requires
        n < 16,
    ensures
        r == hex_lc(n as nat),
{
    if n < 10 {
        48 + n
    } else {
        87 + n
    }
}

/// Appends the escaped form of `src`.
pub fn push_escaped(src: &Vec<u8>, out: &mut Vec<u8>)
    ensures
        final(out)@ == old(out)@ + spec_escape(src@),
{
    let n = src.len();
    let mut i: usize = 0;
    while i < n
        invariant
            n == src@.len(),
            i <= n,
            out@ == old(out)@ + spec_escape(src@.take(i as int)),
        decreases n - i,
    {
        let b = src[i];
        proof {
            assert(src@.take(i + 1).drop_last() =~= src@.take(i as int));
            assert(src@.take(i + 1).last() == src@[i as int]);
        }
        if b == 34 || b == 92 {
            out.push(92);
            out.push(b);
        } else if b < 32 {
            out.push(92);
            out.push(117);
            out.push(48);
            out.push(48);
            out.push(hex_digit(b / 16));
            out.push(hex_digit(b % 16));
        } else {
            out.push(b);
        }
        assert(out@ =~= old(out)@ + spec_escape(src@.take(i + 1)));
        i = i + 1;
    }
    assert(src@.take(n as int) =~= src@);
}

/// Bytes of the color name on the wire.
pub open spec fn spec_color_bytes(c: Color) -> Seq<u8> {
    match c {
        Color::Black => lit_color_black(),
        Color::White => lit_color_white(),
    }
}

/// Bytes of the serialized stone object body, from its `count` value on.
pub open spec fn spec_stone_bytes(s: Stone) -> Seq<u8> {
    spec_int_bytes(s.count as int) + lit_color_key() + spec_color_bytes(s.color)
        + lit_coordinate_key() + spec_int_bytes(s.coordinate.i as int) + lit_j_key()
        + spec_int_bytes(s.coordinate.j as int) + lit_index_key() + spec_int_bytes(
        s.index.i as int,
    ) + lit_j_key() + spec_int_bytes(s.index.j as int) + lit_move_tail()
}

/// Canonical payload bytes of an envelope.
pub open spec fn spec_encode(m: MsgModel) -> Seq<u8> {
    match m {
        MsgModel::Join { room_id } => lit_hdr_join() + spec_escape(room_id) + seq![34u8]
            + lit_rbrace(),
        MsgModel::CreateRoom { room_id } => lit_hdr_create_room() + spec_escape(room_id)
            + seq![34u8] + lit_rbrace(),
        MsgModel::JoinRoom { room_id } => lit_hdr_join_room() + spec_escape(room_id) + seq![34u8]
            + lit_rbrace(),
        MsgModel::Move { stone } => lit_hdr_move() + spec_stone_bytes(stone),
        MsgModel::GameState { state } => lit_hdr_game_state() + spec_escape(state) + seq![34u8]
            + lit_rbrace(),
        MsgModel::Heartbeat { room_id } => lit_hdr_heartbeat() + spec_escape(room_id) + seq![34u8]
            + lit_rbrace(),
    }
}

/// Serializes one envelope into its canonical payload bytes.
#[verifier::rlimit(80)]
pub fn encode_payload(m: &GameMessage) -> (out: Vec<u8>)
    ensures
        out@ == spec_encode(m@),
{
    let mut out: Vec<u8> = Vec::new();
    match m {
        GameMessage::Join { room_id } => {
            push_hdr_join(&mut out);
            push_escaped(room_id, &mut out);
            out.push(34);
            push_rbrace(&mut out);
            assert(out@ =~= spec_encode(m@));
        },
        GameMessage::CreateRoom { room_id } => {
            push_hdr_create_room(&mut out);
            push_escaped(room_id, &mut out);
            out.push(34);
            push_rbrace(&mut out);
            assert(out@ =~= spec_encode(m@));
        },
        GameMessage::JoinRoom { room_id } => {
            push_hdr_join_room(&mut out);
            push_escaped(room_id, &mut out);
            out.push(34);
            push_rbrace(&mut out);
            assert(out@ =~= spec_encode(m@));
        },
        GameMessage::Move { stone } => {
            push_hdr_move(&mut out);
            push_int(stone.count, &mut out);
            push_color_key(&mut out);
            match stone.color {
                Color::Black => push_color_black(&mut out),
                Color::White => push_color_white(&mut out),
            }
            push_coordinate_key(&mut out);
            push_int(stone.coordinate.i, &mut out);
            push_j_key(&mut out);
            push_int(stone.coordinate.j, &mut out);
            push_index_key(&mut out);
            push_int(stone.index.i, &mut out);
            push_j_key(&mut out);
            push_int(stone.index.j, &mut out);
            push_move_tail(&mut out);
            assert(out@ =~= spec_encode(m@));
        },
        GameMessage::GameState { state } => {
            push_hdr_game_state(&mut out);
            push_escaped(state, &mut out);
            out.push(34);
            push_rbrace(&mut out);
            assert(out@ =~= spec_encode(m@));
        },
        GameMessage::Heartbeat { room_id } => {
            push_hdr_heartbeat(&mut out);
            push_escaped(room_id, &mut out);
            out.push(34);
            push_rbrace(&mut out);
            assert(out@ =~= spec_encode(m@));
        },
    }
    out
}

/// Big-endian bytes of a 32-bit length.
pub open spec fn spec_be32(n: u32) -> Seq<u8> {
    seq![
        (n / 0x1000000) as u8,
        ((n / 0x10000) % 256) as u8,
        ((n / 256) % 256) as u8,
        (n % 256) as u8,
    ]
}

/// One whole frame: length prefix, then the canonical payload.
pub open spec fn spec_frame(m: MsgModel) -> Seq<u8> {
    spec_be32(spec_encode(m).len() as u32) + spec_encode(m)
}

/// Serializes one envelope into a complete frame.
pub fn encode_frame(m: &GameMessage) -> (out: Vec<u8>)
    requires
        spec_encode(m@).len() <= 0xFFFF_FFFF,
    ensures
        out@ == spec_frame(m@),
{
    let mut payload = encode_payload(m);
    let n = payload.len() as u32;
    let mut out: Vec<u8> = Vec::new();
    out.push((n / 0x1000000) as u8);
    out.push(((n / 0x10000) % 256) as u8);
    out.push(((n / 256) % 256) as u8);
    out.push((n % 256) as u8);
    out.append(&mut payload);
    assert(out@ =~= spec_frame(m@));
    out
}

/// Reads a four-byte big-endian length prefix.
pub fn parse_frame_len(b0: u8, b1: u8, b2: u8, b3: u8) -> (n: u32)
    ensures
        n == b0 * 0x1000000 + b1 * 0x10000 + b2 * 256 + b3,
        spec_be32(n) == seq![b0, b1, b2, b3],
{
    let n: u32 = (b0 as u32) * 0x1000000 + (b1 as u32) * 0x10000 + (b2 as u32) * 256 + (b3 as u32);
    proof {
        assert(n / 0x1000000 == b0 && (n / 0x10000) % 256 == b1 && (n / 256) % 256 == b2 && n
            % 256 == b3) by (nonlinear_arith)
            requires
                n == b0 * 0x1000000 + b1 * 0x10000 + b2 * 256 + b3,
                b0 < 256,
                b1 < 256,
                b2 < 256,
                b3 < 256,
        ;
        assert(spec_be32(n) =~= seq![b0, b1, b2, b3]);
    }
    n
}


/// Magnitude of a signed 32-bit value.
pub open spec fn spec_mag(v: i32) -> nat {
    if v < 0 {
        (-(v as int)) as nat
    } else {
        v as nat
    }
}

/// The canonical bytes of `v` sit at `pos` and end at a non-digit boundary.
pub open spec fn int_at(buf: Seq<u8>, pos: int, v: i32) -> bool {
    &&& pos + spec_int_bytes(v as int).len() <= buf.len()
    &&& buf.subrange(pos, pos + spec_int_bytes(v as int).len()) == spec_int_bytes(v as int)
    &&& (pos + spec_int_bytes(v as int).len() == buf.len() || !is_digit_byte(
        buf[pos + spec_int_bytes(v as int).len()],
    ))
}

/// The escaped bytes of `s` followed by a closing quote sit at `pos`.
pub open spec fn str_at(buf: Seq<u8>, pos: int, s: Seq<u8>) -> bool {
    &&& pos + spec_escape(s).len() + 1 <= buf.len()
    &&& buf.subrange(pos, pos + spec_escape(s).len() + 1) == spec_escape(s) + seq![34u8]
}

/// Compares the bytes of `lit` against `buf` at `pos`.
pub fn match_bytes(buf: &Vec<u8>, pos: usize, lit: &Vec<u8>) -> (r: bool)
    ensures
        r <==> (pos + lit@.len() <= buf@.len() && buf@.subrange(
            pos as int,
            pos + lit@.len(),
        ) == lit@),
{
    if pos > buf.len() || lit.len() > buf.len() - pos {
        return false;
    }
    let blen = buf.len();
    let n = lit.len();
    let mut k: usize = 0;
    while k < n
        invariant
            n == lit@.len(),
            blen == buf@.len(),
            pos + n <= blen,
            k <= n,
            forall|m: int| 0 <= m < k ==> buf@[pos + m] == lit@[m],
        decreases n - k,
    {
        assert(pos + k < buf@.len());
        if buf[pos + k] != lit[k] {
            proof {
                let sr = buf@.subrange(pos as int, pos + lit@.len());
                assert(sr[k as int] == buf@[pos + k]);
                if sr == lit@ {
                    assert(sr[k as int] == lit@[k as int]);
                }
            }
            return false;
        }
        k = k + 1;
    }
    assert(buf@.subrange(pos as int, pos + lit@.len()) =~= lit@);
    true
}

/// Sign analysis: any integer whose canonical bytes sit at `pos` agrees in
/// sign with the scanned minus flag, and its digits follow.
proof fn lemma_int_sign(buf: Seq<u8>, pos: int, start: int, neg: bool, v: i32)
    requires
        0 <= pos <= start <= buf.len(),
        neg ==> start == pos + 1 && pos < buf.len() && buf[pos] == 45,
        !neg ==> start == pos && (pos == buf.len() || buf[pos] != 45),
        int_at(buf, pos, v),
    ensures
        (v < 0) == neg,
        start + spec_digits(spec_mag(v)).len() <= buf.len(),
        buf.subrange(start, start + spec_digits(spec_mag(v)).len()) == spec_digits(spec_mag(v)),
        start + spec_digits(spec_mag(v)).len() == buf.len() || !is_digit_byte(
            buf[start + spec_digits(spec_mag(v)).len()],
        ),
{
    let mag = spec_mag(v);
    let ib = spec_int_bytes(v as int);
    let d = spec_digits(mag);
    lemma_digits_shape(mag);
    assert(forall|i: int| 0 <= i < ib.len() ==> buf[pos + i] == #[trigger] ib[i]) by {
        assert(forall|i: int| 0 <= i < ib.len() ==> buf.subrange(pos, pos + ib.len())[i]
            == #[trigger] ib[i]);
    }
    if v < 0 {
        assert(ib == seq![45u8] + d);
        assert(ib[0] == 45);
        assert(buf[pos] == 45);
        assert(neg);
        assert forall|t: int| 0 <= t < d.len() implies buf.subrange(start, start + d.len())[t]
            == d[t] by {
            assert(buf[pos + (1 + t)] == ib[1 + t]);
            assert(ib[1 + t] == d[t]);
            assert(buf.subrange(start, start + d.len())[t] == buf[start + t]);
            assert(start + t == pos + (1 + t));
        }
        assert(buf.subrange(start, start + d.len()) =~= d);
    } else {
        assert(ib == d);
        assert(is_digit_byte(ib[0]));
        assert(buf[pos] == ib[0]);
        assert(!neg);
        assert(buf.subrange(start, start + d.len()) =~= d);
    }
}

/// Maximal-munch: the scanned digit run is exactly the digit field of any
/// integer whose canonical bytes sit at `pos`.
proof fn lemma_int_match(buf: Seq<u8>, pos: int, start: int, cur: int, neg: bool, v: i32)
    requires
        0 <= pos <= start <= cur <= buf.len(),
        neg ==> start == pos + 1 && pos < buf.len() && buf[pos] == 45,
        !neg ==> start == pos && (pos == buf.len() || buf[pos] != 45),
        forall|k: int| start <= k < cur ==> is_digit_byte(#[trigger] buf[k]),
        cur == buf.len() || !is_digit_byte(buf[cur]),
        int_at(buf, pos, v),
    ensures
        (v < 0) == neg,
        cur == start + spec_digits(spec_mag(v)).len(),
        buf.subrange(start, cur) == spec_digits(spec_mag(v)),
{
    lemma_int_sign(buf, pos, start, neg, v);
    let d = spec_digits(spec_mag(v));
    lemma_digits_shape(spec_mag(v));
    let e = start + d.len();
    assert(forall|t: int| 0 <= t < d.len() ==> buf[start + t] == #[trigger] d[t]) by {
        assert(forall|t: int| 0 <= t < d.len() ==> buf.subrange(start, e)[t] == #[trigger] d[t]);
    }
    if e < cur {
        assert(is_digit_byte(buf[e]));
        assert(false);
    }
    if e > cur {
        assert(buf[cur] == d[cur - start]);
        assert(is_digit_byte(buf[cur]));
        assert(false);
    }
    assert(buf.subrange(start, cur) =~= d);
}

/// Reads one canonically written integer; refuses any other form.
#[verifier::rlimit(100)]
pub fn parse_int(buf: &Vec<u8>, pos: usize) -> (r: Option<(i32, usize)>)
    requires
        pos <= buf@.len(),
    ensures
        r matches Some(x) ==> pos + spec_int_bytes(x.0 as int).len() == x.1 && x.1 <= buf@.len()
            && buf@.subrange(pos as int, x.1 as int) == spec_int_bytes(x.0 as int),
        forall|v: i32| #[trigger] int_at(buf@, pos as int, v) ==> (r matches Some(x) && x.0 == v
            && x.1 == pos + spec_int_bytes(v as int).len()),
{
    let len = buf.len();
    let mut cur = pos;
    let mut neg = false;
    if cur < len && buf[cur] == 45 {
        neg = true;
        cur = cur + 1;
    }
    let start = cur;
    let mut acc: u64 = 0;
    loop
        invariant
            pos <= start <= cur <= len,
            len == buf@.len(),
            neg ==> start == pos + 1 && pos < len && buf@[pos as int] == 45,
            !neg ==> start == pos && (pos == len || buf@[pos as int] != 45),
            forall|k: int| start <= k < cur ==> is_digit_byte(#[trigger] buf@[k]),
            acc == spec_digits_val(buf@.subrange(start as int, cur as int)),
            acc <= 2147483648,
        ensures
            pos <= start <= cur <= len,
            forall|k: int| start <= k < cur ==> is_digit_byte(#[trigger] buf@[k]),
            acc == spec_digits_val(buf@.subrange(start as int, cur as int)),
            acc <= 2147483648,
            cur == len || !is_digit_byte(buf@[cur as int]),
        decreases len - cur,
    {
        if cur >= len {
            break;
        }
        let b = buf[cur];
        if !(48 <= b && b <= 57) {
            break;
        }
        let acc2 = acc * 10 + ((b - 48) as u64);
        proof {
            assert(buf@.subrange(start as int, cur + 1).drop_last() =~= buf@.subrange(
                start as int,
                cur as int,
            ));
            assert(buf@.subrange(start as int, cur + 1).last() == b);
        }
        if acc2 > 2147483648 {
            proof {
                let scanned1 = buf@.subrange(start as int, cur + 1);
                assert forall|v: i32| !int_at(buf@, pos as int, v) by {
                    if int_at(buf@, pos as int, v) {
                        lemma_int_sign(buf@, pos as int, start as int, neg, v);
                        let mag = spec_mag(v);
                        let d = spec_digits(mag);
                        lemma_digits_shape(mag);
                        let e = start + d.len();
                        assert(forall|t: int| 0 <= t < d.len() ==> buf@[start + t] == #[trigger] d[t])
                            by {
                            assert(forall|t: int| 0 <= t < d.len() ==> buf@.subrange(
                                start as int,
                                e as int,
                            )[t] == #[trigger] d[t]);
                        }
                        if e <= cur {
                            if e < cur + 1 {
                                if e == buf@.len() {
                                    assert(cur < buf@.len());
                                    assert(e <= cur);
                                    assert(false);
                                } else {
                                    assert(!is_digit_byte(buf@[e as int]));
                                    if e < cur {
                                        assert(is_digit_byte(buf@[e as int]));
                                    } else {
                                        assert(buf@[e as int] == b);
                                        assert(is_digit_byte(b));
                                    }
                                    assert(false);
                                }
                            }
                        }
                        assert(cur + 1 <= e);
                        assert(scanned1 =~= d.take(cur + 1 - start));
                        assert(d =~= d.take(cur + 1 - start) + d.skip(cur + 1 - start));
                        lemma_digits_val_append_ge(d.take(cur + 1 - start), d.skip(cur + 1 - start));
                        lemma_digits_val_of_digits(mag);
                        assert(spec_digits_val(scanned1) <= mag);
                        assert(mag <= 2147483648);
                        assert(acc2 > 2147483648);
                        assert(acc2 == spec_digits_val(scanned1));
                        assert(false);
                    }
                }
            }
            return None;
        }
        acc = acc2;
        cur = cur + 1;
    }
    if cur == start {
        proof {
            assert forall|v: i32| !int_at(buf@, pos as int, v) by {
                if int_at(buf@, pos as int, v) {
                    lemma_int_sign(buf@, pos as int, start as int, neg, v);
                    let d = spec_digits(spec_mag(v));
                    lemma_digits_shape(spec_mag(v));
                    assert(buf@.subrange(start as int, start + d.len())[0] == d[0]);
                    assert(is_digit_byte(buf@[start as int]));
                    assert(start < buf@.len());
                    assert(false);
                }
            }
        }
        return None;
    }
    let first = buf[start];
    if first == 48 && cur - start >= 2 {
        proof {
            assert forall|v: i32| !int_at(buf@, pos as int, v) by {
                if int_at(buf@, pos as int, v) {
                    lemma_int_match(buf@, pos as int, start as int, cur as int, neg, v);
                    let mag = spec_mag(v);
                    lemma_digits_shape(mag);
                    assert(spec_digits(mag)[0] == buf@[start as int]);
                    assert(mag == 0);
                    assert(spec_digits(0nat).len() == 1);
                    assert(cur - start == 1);
                    assert(false);
                }
            }
        }
        return None;
    }
    proof {
        let scanned = buf@.subrange(start as int, cur as int);
        assert(scanned[0] == buf@[start as int]);
        lemma_digits_of_val(scanned);
        assert(spec_digits(acc as nat) == scanned);
    }
    if neg {
        if acc == 0 {
            proof {
                assert forall|v: i32| !int_at(buf@, pos as int, v) by {
                    if int_at(buf@, pos as int, v) {
                        lemma_int_match(buf@, pos as int, start as int, cur as int, neg, v);
                        let mag = spec_mag(v);
                        lemma_digits_val_of_digits(mag);
                        assert(mag == acc);
                        assert(v < 0);
                        assert(mag >= 1);
                        assert(false);
                    }
                }
            }
            return None;
        }
        let x: i64 = -(acc as i64);
        assert(-2147483648 <= x < 0);
        let vi: i32 = x as i32;
        proof {
            assert(vi as int == x as int);
            assert(spec_mag(vi) == acc as nat);
            assert(spec_int_bytes(vi as int) == seq![45u8] + spec_digits(acc as nat));
            assert(buf@.subrange(pos as int, cur as int) =~= seq![45u8] + buf@.subrange(
                start as int,
                cur as int,
            ));
            assert forall|v: i32| int_at(buf@, pos as int, v) implies v == vi by {
                lemma_int_match(buf@, pos as int, start as int, cur as int, neg, v);
                lemma_digits_val_of_digits(spec_mag(v));
                assert(spec_mag(v) == acc);
                assert(v < 0);
            }
        }
        return Some((vi, cur));
    } else {
        if acc > 2147483647 {
            proof {
                assert forall|v: i32| !int_at(buf@, pos as int, v) by {
                    if int_at(buf@, pos as int, v) {
                        lemma_int_match(buf@, pos as int, start as int, cur as int, neg, v);
                        lemma_digits_val_of_digits(spec_mag(v));
                        assert(spec_mag(v) == acc);
                        assert(v >= 0);
                        assert(spec_mag(v) <= 2147483647);
                        assert(false);
                    }
                }
            }
            return None;
        }
        let vi: i32 = acc as i32;
        proof {
            assert(spec_mag(vi) == acc as nat);
            assert(spec_int_bytes(vi as int) == spec_digits(acc as nat));
            assert(buf@.subrange(pos as int, cur as int) == spec_digits(acc as nat));
            assert forall|v: i32| int_at(buf@, pos as int, v) implies v == vi by {
                lemma_int_match(buf@, pos as int, start as int, cur as int, neg, v);
                lemma_digits_val_of_digits(spec_mag(v));
                assert(spec_mag(v) == acc);
                assert(v >= 0);
            }
        }
        return Some((vi, cur));
    }
}

/// One step of the quoted-string scan: whatever string could close this
/// position, its next byte appears here in escaped form.
proof fn lemma_str_step(buf: Seq<u8>, pos: int, cur: int, acc: Seq<u8>, s: Seq<u8>)
    requires
        str_at(buf, pos, s),
        0 <= pos <= cur <= buf.len(),
        cur == pos + spec_escape(acc).len(),
        acc.len() <= s.len(),
        s.take(acc.len() as int) == acc,
    ensures
        acc.len() < s.len() ==> cur + spec_esc_byte(s[acc.len() as int]).len() <= buf.len()
            && buf.subrange(cur, cur + spec_esc_byte(s[acc.len() as int]).len()) == spec_esc_byte(
            s[acc.len() as int],
        ),
        acc.len() == s.len() ==> cur < buf.len() && buf[cur] == 34,
{
    let k = acc.len() as int;
    let e = spec_escape(s);
    let w = e + seq![34u8];
    assert(forall|i: int| 0 <= i < w.len() ==> buf[pos + i] == #[trigger] w[i]) by {
        assert(forall|i: int| 0 <= i < w.len() ==> buf.subrange(pos, pos + e.len() + 1)[i]
            == #[trigger] w[i]);
    }
    if k < s.len() {
        lemma_escape_split(s, k);
        let e1 = spec_escape(s.take(k));
        let eb = spec_esc_byte(s[k]);
        assert(e1 == spec_escape(acc));
        assert(e == e1 + eb + spec_escape(s.skip(k + 1)));
        assert(cur + eb.len() <= pos + e.len());
        assert(buf.subrange(cur, cur + eb.len()) =~= eb) by {
            assert forall|t: int| 0 <= t < eb.len() implies buf[cur + t] == eb[t] by {
                assert(w[(cur - pos) + t] == (e1 + eb + spec_escape(s.skip(k + 1)))[e1.len() + t]);
                assert((e1 + eb + spec_escape(s.skip(k + 1)))[e1.len() + t] == eb[t]);
            }
        }
    } else {
        assert(s.take(k) =~= s);
        assert(e == spec_escape(acc));
        assert(buf[pos + e.len() as int] == w[e.len() as int]);
        assert(w[e.len() as int] == 34);
    }
}

/// Reads one quoted, escaped string body up to its closing quote; refuses
/// any non-canonical escape.
#[verifier::rlimit(100)]
pub fn parse_jstring(buf: &Vec<u8>, pos: usize) -> (r: Option<(Vec<u8>, usize)>)
    requires
        pos <= buf@.len(),
    ensures
        r matches Some(x) ==> pos + spec_escape(x.0@).len() + 1 == x.1 && x.1 <= buf@.len()
            && buf@.subrange(pos as int, x.1 as int) == spec_escape(x.0@) + seq![34u8],
        forall|s: Seq<u8>| #[trigger] str_at(buf@, pos as int, s) ==> (r matches Some(x) && x.0@
            == s && x.1 == pos + spec_escape(s).len() + 1),
{
    let len = buf.len();
    let mut acc: Vec<u8> = Vec::new();
    let mut cur = pos;
    loop
        invariant
            pos <= cur <= len,
            len == buf@.len(),
            cur == pos + spec_escape(acc@).len(),
            buf@.subrange(pos as int, cur as int) == spec_escape(acc@),
            forall|s: Seq<u8>| #[trigger] str_at(buf@, pos as int, s) ==> acc@.len() <= s.len()
                && s.take(acc@.len() as int) == acc@,
        decreases len - cur,
    {
        if cur >= len {
            proof {
                assert forall|s: Seq<u8>| !str_at(buf@, pos as int, s) by {
                    if str_at(buf@, pos as int, s) {
                        lemma_str_step(buf@, pos as int, cur as int, acc@, s);
                        if acc@.len() < s.len() {
                            assert(cur + spec_esc_byte(s[acc@.len() as int]).len() <= len);
                            assert(spec_esc_byte(s[acc@.len() as int]).len() >= 1);
                        }
                        assert(false);
                    }
                }
            }
            return None;
        }
        let b = buf[cur];
        if b == 34 {
            proof {
                assert(buf@.subrange(pos as int, cur + 1) =~= spec_escape(acc@) + seq![34u8]);
                assert forall|s: Seq<u8>| #[trigger] str_at(buf@, pos as int, s) implies s == acc@
                    && pos + spec_escape(s).len() + 1 == cur + 1 by {
                    lemma_str_step(buf@, pos as int, cur as int, acc@, s);
                    if acc@.len() < s.len() {
                        let sk = s[acc@.len() as int];
                        let eb = spec_esc_byte(sk);
                        assert(buf@.subrange(cur as int, cur + eb.len())[0] == eb[0]);
                        assert(eb[0] == 34);
                        if sk == 34 || sk == 92 || sk < 32 {
                            assert(eb[0] == 92);
                        } else {
                            assert(eb[0] == sk);
                        }
                        assert(false);
                    }
                    assert(s.take(s.len() as int) =~= s);
                }
            }
            return Some((acc, cur + 1));
        }
        if b == 92 {
            if cur + 1 >= len {
                proof {
                    assert forall|s: Seq<u8>| !str_at(buf@, pos as int, s) by {
                        if str_at(buf@, pos as int, s) {
                            lemma_str_step(buf@, pos as int, cur as int, acc@, s);
                            if acc@.len() == s.len() {
                                assert(buf@[cur as int] == 34);
                                assert(false);
                            }
                            let sk = s[acc@.len() as int];
                            let eb = spec_esc_byte(sk);
                            assert(buf@.subrange(cur as int, cur + eb.len())[0] == eb[0]);
                            if sk == 34 || sk == 92 {
                                assert(eb.len() == 2);
                                assert(cur + 2 <= len);
                            } else if sk < 32 {
                                assert(eb.len() == 6);
                                assert(cur + 6 <= len);
                            } else {
                                assert(eb[0] == sk && eb[0] == 92);
                            }
                            assert(false);
                        }
                    }
                }
                return None;
            }
            let b2 = buf[cur + 1];
            if b2 == 34 || b2 == 92 {
                proof {
                    assert forall|s: Seq<u8>| #[trigger] str_at(buf@, pos as int, s) implies acc@.len()
                        + 1 <= s.len() && s.take(acc@.len() as int + 1) == acc@.push(b2) by {
                        lemma_str_step(buf@, pos as int, cur as int, acc@, s);
                        if acc@.len() == s.len() {
                            assert(buf@[cur as int] == 34);
                            assert(false);
                        }
                        let sk = s[acc@.len() as int];
                        let eb = spec_esc_byte(sk);
                        assert(buf@.subrange(cur as int, cur + eb.len())[0] == eb[0]);
                        if sk < 32 {
                            assert(buf@.subrange(cur as int, cur + eb.len())[1] == eb[1]);
                            assert(eb[1] == 117);
                            assert(false);
                        }
                        if !(sk == 34 || sk == 92) {
                            assert(eb[0] == sk && eb[0] == 92);
                            assert(false);
                        }
                        assert(eb == seq![92u8, sk]);
                        assert(buf@.subrange(cur as int, cur + 2)[1] == sk);
                        assert(sk == b2);
                        assert(s.take(acc@.len() as int + 1) =~= acc@.push(b2));
                    }
                    assert((acc@.push(b2)).drop_last() =~= acc@);
                    assert((acc@.push(b2)).last() == b2);
                    assert(spec_escape(acc@.push(b2)) == spec_escape(acc@) + spec_esc_byte(b2));
                    assert(spec_esc_byte(b2) == seq![92u8, b2]);
                    assert(buf@.subrange(pos as int, cur + 2) =~= spec_escape(acc@) + seq![
                        92u8,
                        b2,
                    ]);
                }
                acc.push(b2);
                cur = cur + 2;
            } else if b2 == 117 {
                if len - cur < 6 {
                    proof {
                        assert forall|s: Seq<u8>| !str_at(buf@, pos as int, s) by {
                            if str_at(buf@, pos as int, s) {
                                lemma_str_step(buf@, pos as int, cur as int, acc@, s);
                                if acc@.len() == s.len() {
                                    assert(buf@[cur as int] == 34);
                                    assert(false);
                                }
                                let sk = s[acc@.len() as int];
                                let eb = spec_esc_byte(sk);
                                assert(buf@.subrange(cur as int, cur + eb.len())[0] == eb[0]);
                                if sk == 34 || sk == 92 {
                                    assert(buf@.subrange(cur as int, cur + eb.len())[1] == eb[1]);
                                    assert(eb[1] == sk);
                                    assert(false);
                                }
                                if !(sk < 32) {
                                    assert(eb[0] == sk && eb[0] == 92);
                                    assert(false);
                                }
                                assert(eb.len() == 6);
                                assert(cur + 6 <= len);
                                assert(false);
                            }
                        }
                    }
                    return None;
                }
                let b3 = buf[cur + 2];
                let b4 = buf[cur + 3];
                let b5 = buf[cur + 4];
                let b6 = buf[cur + 5];
                let hex_ok = b3 == 48 && b4 == 48 && (b5 == 48 || b5 == 49) && ((48 <= b6 && b6
                    <= 57) || (97 <= b6 && b6 <= 102));
                proof {
                    assert forall|s: Seq<u8>|
                        #[trigger] str_at(buf@, pos as int, s) && acc@.len() < s.len() implies ({
                        let sk = s[acc@.len() as int];
                        sk < 32 && b3 == 48 && b4 == 48 && b5 == hex_lc((sk / 16) as nat) && b6
                            == hex_lc((sk % 16) as nat)
                    }) by {
                        lemma_str_step(buf@, pos as int, cur as int, acc@, s);
                        let sk = s[acc@.len() as int];
                        let eb = spec_esc_byte(sk);
                        assert(buf@.subrange(cur as int, cur + eb.len())[0] == eb[0]);
                        if sk == 34 || sk == 92 {
                            assert(buf@.subrange(cur as int, cur + eb.len())[1] == eb[1]);
                            assert(eb[1] == sk);
                            assert(false);
                        }
                        if !(sk < 32) {
                            assert(eb[0] == sk && eb[0] == 92);
                            assert(false);
                        }
                        assert(eb == seq![
                            92u8,
                            117,
                            48,
                            48,
                            hex_lc((sk / 16) as nat),
                            hex_lc((sk % 16) as nat),
                        ]);
                        assert(buf@.subrange(cur as int, cur + 6)[2] == eb[2]);
                        assert(buf@.subrange(cur as int, cur + 6)[3] == eb[3]);
                        assert(buf@.subrange(cur as int, cur + 6)[4] == eb[4]);
                        assert(buf@.subrange(cur as int, cur + 6)[5] == eb[5]);
                        assert(sk / 16 < 2 && sk % 16 < 16);
                    }
                }
                if !hex_ok {
                    proof {
                        assert forall|s: Seq<u8>| !str_at(buf@, pos as int, s) by {
                            if str_at(buf@, pos as int, s) {
                                lemma_str_step(buf@, pos as int, cur as int, acc@, s);
                                if acc@.len() == s.len() {
                                    assert(buf@[cur as int] == 34);
                                    assert(false);
                                }
                                let sk = s[acc@.len() as int];
                                assert(sk < 32);
                                assert(hex_lc((sk / 16) as nat) == 48 || hex_lc((sk / 16) as nat)
                                    == 49);
                                assert(48 <= hex_lc((sk % 16) as nat) <= 57 || 97 <= hex_lc(
                                    (sk % 16) as nat,
                                ) <= 102);
                                assert(false);
                            }
                        }
                    }
                    return None;
                }
                let h1: u8 = b5 - 48;
                let h2: u8 = if b6 <= 57 {
                    b6 - 48
                } else {
                    b6 - 87
                };
                let v: u8 = h1 * 16 + h2;
                proof {
                    assert(v < 32);
                    assert(v / 16 == h1 && v % 16 == h2) by (nonlinear_arith)
                        requires
                            v == h1 * 16 + h2,
                            0 <= h2 < 16,
                            0 <= h1 < 2,
                    ;
                    assert(hex_lc((v / 16) as nat) == b5);
                    assert(hex_lc((v % 16) as nat) == b6);
                    assert(spec_esc_byte(v) == seq![92u8, 117, 48, 48, b5, b6]);
                    assert forall|s: Seq<u8>| #[trigger] str_at(buf@, pos as int, s) implies acc@.len()
                        + 1 <= s.len() && s.take(acc@.len() as int + 1) == acc@.push(v) by {
                        lemma_str_step(buf@, pos as int, cur as int, acc@, s);
                        if acc@.len() == s.len() {
                            assert(buf@[cur as int] == 34);
                            assert(false);
                        }
                        let sk = s[acc@.len() as int];
                        assert(sk < 32 && b5 == hex_lc((sk / 16) as nat) && b6 == hex_lc(
                            (sk % 16) as nat,
                        ));
                        assert(sk / 16 == h1) by {
                            if sk / 16 == 0 {
                                assert(hex_lc((sk / 16) as nat) == 48);
                            } else {
                                assert(sk / 16 == 1);
                                assert(hex_lc((sk / 16) as nat) == 49);
                            }
                        }
                        assert(sk % 16 == h2) by {
                            if sk % 16 < 10 {
                                assert(hex_lc((sk % 16) as nat) == 48 + sk % 16);
                            } else {
                                assert(hex_lc((sk % 16) as nat) == 87 + sk % 16);
                            }
                        }
                        assert(sk == sk / 16 * 16 + sk % 16);
                        assert(sk == v);
                        assert(s.take(acc@.len() as int + 1) =~= acc@.push(v));
                    }
                    assert((acc@.push(v)).drop_last() =~= acc@);
                    assert((acc@.push(v)).last() == v);
                    assert(spec_escape(acc@.push(v)) == spec_escape(acc@) + spec_esc_byte(v));
                    assert(buf@.subrange(pos as int, cur + 6) =~= spec_escape(acc@) + seq![
                        92u8,
                        117,
                        48,
                        48,
                        b5,
                        b6,
                    ]);
                }
                acc.push(v);
                cur = cur + 6;
            } else {
                proof {
                    assert forall|s: Seq<u8>| !str_at(buf@, pos as int, s) by {
                        if str_at(buf@, pos as int, s) {
                            lemma_str_step(buf@, pos as int, cur as int, acc@, s);
                            if acc@.len() == s.len() {
                                assert(buf@[cur as int] == 34);
                                assert(false);
                            }
                            let sk = s[acc@.len() as int];
                            let eb = spec_esc_byte(sk);
                            assert(buf@.subrange(cur as int, cur + eb.len())[0] == eb[0]);
                            if sk == 34 || sk == 92 {
                                assert(buf@.subrange(cur as int, cur + eb.len())[1] == eb[1]);
                                assert(eb[1] == sk);
                                assert(false);
                            }
                            if sk < 32 {
                                assert(buf@.subrange(cur as int, cur + eb.len())[1] == eb[1]);
                                assert(eb[1] == 117);
                                assert(false);
                            }
                            assert(eb[0] == sk && eb[0] == 92);
                            assert(false);
                        }
                    }
                }
                return None;
            }
        } else {
            if b < 32 {
                proof {
                    assert forall|s: Seq<u8>| !str_at(buf@, pos as int, s) by {
                        if str_at(buf@, pos as int, s) {
                            lemma_str_step(buf@, pos as int, cur as int, acc@, s);
                            if acc@.len() == s.len() {
                                assert(buf@[cur as int] == 34);
                                assert(false);
                            }
                            let sk = s[acc@.len() as int];
                            let eb = spec_esc_byte(sk);
                            assert(buf@.subrange(cur as int, cur + eb.len())[0] == eb[0]);
                            if sk == 34 || sk == 92 || sk < 32 {
                                assert(eb[0] == 92);
                            } else {
                                assert(eb[0] == sk);
                            }
                            assert(false);
                        }
                    }
                }
                return None;
            }
            proof {
                assert forall|s: Seq<u8>| #[trigger] str_at(buf@, pos as int, s) implies acc@.len()
                    + 1 <= s.len() && s.take(acc@.len() as int + 1) == acc@.push(b) by {
                    lemma_str_step(buf@, pos as int, cur as int, acc@, s);
                    if acc@.len() == s.len() {
                        assert(buf@[cur as int] == 34);
                        assert(false);
                    }
                    let sk = s[acc@.len() as int];
                    let eb = spec_esc_byte(sk);
                    assert(buf@.subrange(cur as int, cur + eb.len())[0] == eb[0]);
                    if sk == 34 || sk == 92 || sk < 32 {
                        assert(eb[0] == 92);
                        assert(false);
                    }
                    assert(sk == b);
                    assert(s.take(acc@.len() as int + 1) =~= acc@.push(b));
                }
                assert((acc@.push(b)).drop_last() =~= acc@);
                assert((acc@.push(b)).last() == b);
                assert(spec_escape(acc@.push(b)) == spec_escape(acc@) + spec_esc_byte(b));
                assert(spec_esc_byte(b) == seq![b]);
                assert(buf@.subrange(pos as int, cur + 1) =~= spec_escape(acc@) + seq![b]);
            }
            acc.push(b);
            cur = cur + 1;
        }
    }
}


/// Splits a known two-part segment of `buf` into its parts.
proof fn lemma_seg(buf: Seq<u8>, off: int, a: Seq<u8>, b: Seq<u8>)
    requires
        0 <= off,
        off + a.len() + b.len() <= buf.len(),
        buf.subrange(off, off + a.len() + b.len()) == a + b,
    ensures
        buf.subrange(off, off + a.len()) == a,
        buf.subrange(off + a.len(), off + a.len() + b.len()) == b,
{
    let w = a + b;
    assert(forall|i: int| 0 <= i < w.len() ==> buf[off + i] == #[trigger] w[i]) by {
        assert(forall|i: int| 0 <= i < w.len() ==> buf.subrange(off, off + a.len() + b.len())[i]
            == #[trigger] w[i]);
    }
    assert(buf.subrange(off, off + a.len()) =~= a);
    assert forall|i: int| 0 <= i < b.len() implies buf.subrange(
        off + a.len(),
        off + a.len() + b.len(),
    )[i] == b[i] by {
        assert(buf[off + (a.len() + i)] == w[a.len() as int + i]);
        assert(w[a.len() as int + i] == b[i]);
    }
    assert(buf.subrange(off + a.len(), off + a.len() + b.len()) =~= b);
}

/// Joins two adjacent known segments of `buf` into one.
proof fn lemma_join_seg(buf: Seq<u8>, o1: int, o2: int, o3: int, a: Seq<u8>, b: Seq<u8>)
    requires
        0 <= o1 <= o2 <= o3 <= buf.len(),
        o2 - o1 == a.len(),
        o3 - o2 == b.len(),
        buf.subrange(o1, o2) == a,
        buf.subrange(o2, o3) == b,
    ensures
        buf.subrange(o1, o3) == a + b,
{
    assert forall|i: int| 0 <= i < o3 - o1 implies buf.subrange(o1, o3)[i] == (a + b)[i] by {
        if i < o2 - o1 {
            assert(buf.subrange(o1, o2)[i] == buf[o1 + i]);
        } else {
            assert(buf.subrange(o2, o3)[i - (o2 - o1)] == buf[o2 + (i - (o2 - o1))]);
        }
    }
    assert(buf.subrange(o1, o3) =~= a + b);
}

/// The serialized stone body of `st` sits at `pos`.
pub open spec fn stone_at(buf: Seq<u8>, pos: int, st: Stone) -> bool {
    &&& pos + spec_stone_bytes(st).len() <= buf.len()
    &&& buf.subrange(pos, pos + spec_stone_bytes(st).len()) == spec_stone_bytes(st)
}

/// Positional facts about every field of a stone body found at `pos`.
#[verifier::rlimit(100)]
proof fn lemma_stone_layout(buf: Seq<u8>, pos: int, st: Stone)
    requires
        0 <= pos,
        stone_at(buf, pos, st),
    ensures
        ({
            let c1 = spec_int_bytes(st.count as int);
            let cb = spec_color_bytes(st.color);
            let c2 = spec_int_bytes(st.coordinate.i as int);
            let c3 = spec_int_bytes(st.coordinate.j as int);
            let c4 = spec_int_bytes(st.index.i as int);
            let c5 = spec_int_bytes(st.index.j as int);
            let p1 = pos + c1.len();
            let p2 = p1 + lit_color_key().len();
            let p3 = p2 + cb.len();
            let p4 = p3 + lit_coordinate_key().len();
            let p5 = p4 + c2.len();
            let p6 = p5 + lit_j_key().len();
            let p7 = p6 + c3.len();
            let p8 = p7 + lit_index_key().len();
            let p9 = p8 + c4.len();
            let p10 = p9 + lit_j_key().len();
            let p11 = p10 + c5.len();
            let p12 = p11 + lit_move_tail().len();
            &&& int_at(buf, pos, st.count)
            &&& buf.subrange(p1, p2) == lit_color_key()
            &&& buf.subrange(p2, p3) == cb
            &&& buf.subrange(p3, p4) == lit_coordinate_key()
            &&& int_at(buf, p4, st.coordinate.i)
            &&& buf.subrange(p5, p6) == lit_j_key()
            &&& int_at(buf, p6, st.coordinate.j)
            &&& buf.subrange(p7, p8) == lit_index_key()
            &&& int_at(buf, p8, st.index.i)
            &&& buf.subrange(p9, p10) == lit_j_key()
            &&& int_at(buf, p10, st.index.j)
            &&& buf.subrange(p11, p12) == lit_move_tail()
            &&& p12 == pos + spec_stone_bytes(st).len()
            &&& p12 <= buf.len()
        }),
{
    let c1 = spec_int_bytes(st.count as int);
    let cb = spec_color_bytes(st.color);
    let c2 = spec_int_bytes(st.coordinate.i as int);
    let c3 = spec_int_bytes(st.coordinate.j as int);
    let c4 = spec_int_bytes(st.index.i as int);
    let c5 = spec_int_bytes(st.index.j as int);
    let l1 = c1 + lit_color_key();
    let l2 = l1 + cb;
    let l3 = l2 + lit_coordinate_key();
    let l4 = l3 + c2;
    let l5 = l4 + lit_j_key();
    let l6 = l5 + c3;
    let l7 = l6 + lit_index_key();
    let l8 = l7 + c4;
    let l9 = l8 + lit_j_key();
    let l10 = l9 + c5;
    let s = spec_stone_bytes(st);
    assert(s == l10 + lit_move_tail());
    let e = pos + s.len();
    lemma_seg(buf, pos, l10, lit_move_tail());
    lemma_seg(buf, pos, l9, c5);
    lemma_seg(buf, pos, l8, lit_j_key());
    lemma_seg(buf, pos, l7, c4);
    lemma_seg(buf, pos, l6, lit_index_key());
    lemma_seg(buf, pos, l5, c3);
    lemma_seg(buf, pos, l4, lit_j_key());
    lemma_seg(buf, pos, l3, c2);
    lemma_seg(buf, pos, l2, lit_coordinate_key());
    lemma_seg(buf, pos, l1, cb);
    lemma_seg(buf, pos, c1, lit_color_key());
    assert(lit_color_key()[0] == 44);
    assert(lit_j_key()[0] == 44);
    assert(lit_index_key()[0] == 125);
    assert(lit_move_tail()[0] == 125);
    let p1 = pos + c1.len();
    assert(buf[p1] == 44) by {
        assert(buf.subrange(p1, p1 + lit_color_key().len())[0] == buf[p1]);
    }
    let p4 = p1 + lit_color_key().len() + cb.len() + lit_coordinate_key().len();
    let p5 = p4 + c2.len();
    assert(buf[p5] == 44) by {
        assert(buf.subrange(p5, p5 + lit_j_key().len())[0] == buf[p5]);
    }
    let p6 = p5 + lit_j_key().len();
    let p7 = p6 + c3.len();
    assert(buf[p7] == 125) by {
        assert(buf.subrange(p7, p7 + lit_index_key().len())[0] == buf[p7]);
    }
    let p8 = p7 + lit_index_key().len();
    let p9 = p8 + c4.len();
    assert(buf[p9] == 44) by {
        assert(buf.subrange(p9, p9 + lit_j_key().len())[0] == buf[p9]);
    }
    let p10 = p9 + lit_j_key().len();
    let p11 = p10 + c5.len();
    assert(buf[p11] == 125) by {
        assert(buf.subrange(p11, p11 + lit_move_tail().len())[0] == buf[p11]);
    }
}

/// Reads the serialized stone body of a Move envelope; refuses any
/// non-canonical form.
#[verifier::rlimit(100)]
pub fn parse_stone(buf: &Vec<u8>, pos: usize) -> (r: Option<(Stone, usize)>)
    requires
        pos <= buf@.len(),
    ensures
        r matches Some(x) ==> pos + spec_stone_bytes(x.0).len() == x.1 && x.1 <= buf@.len()
            && buf@.subrange(pos as int, x.1 as int) == spec_stone_bytes(x.0),
        forall|st: Stone| #[trigger] stone_at(buf@, pos as int, st) ==> (r matches Some(x) && x.0
            == st && x.1 == pos + spec_stone_bytes(st).len()),
{
    let blen = buf.len();
    let ck = make_color_key();
    let cbl = make_color_black();
    let cwh = make_color_white();
    let dk = make_coordinate_key();
    let jk = make_j_key();
    let ik = make_index_key();
    let tl = make_move_tail();
    let r1 = parse_int(buf, pos);
    let (count, q1) = match r1 {
        Some(x) => x,
        None => {
            proof {
                assert forall|st: Stone| !stone_at(buf@, pos as int, st) by {
                    if stone_at(buf@, pos as int, st) {
                        lemma_stone_layout(buf@, pos as int, st);
                        assert(false);
                    }
                }
            }
            return None;
        },
    };
    if !match_bytes(buf, q1, &ck) {
            proof {
                assert forall|st: Stone| !stone_at(buf@, pos as int, st) by {
                    if stone_at(buf@, pos as int, st) {
                        lemma_stone_layout(buf@, pos as int, st);
                        assert(false);
                    }
                }
            }
        return None;
    }
    let q2 = q1 + ck.len();
    let color: Color;
    let q3: usize;
    if match_bytes(buf, q2, &cbl) {
        color = Color::Black;
        q3 = q2 + cbl.len();
    } else if match_bytes(buf, q2, &cwh) {
        color = Color::White;
        q3 = q2 + cwh.len();
    } else {
        proof {
            assert forall|st: Stone| !stone_at(buf@, pos as int, st) by {
                if stone_at(buf@, pos as int, st) {
                    lemma_stone_layout(buf@, pos as int, st);
                    assert(false);
                }
            }
        }
        return None;
    }
    proof {
        assert(lit_color_black()[0] == 66);
        assert(lit_color_white()[0] == 87);
    }
    if !match_bytes(buf, q3, &dk) {
            proof {
                assert forall|st: Stone| !stone_at(buf@, pos as int, st) by {
                    if stone_at(buf@, pos as int, st) {
                        lemma_stone_layout(buf@, pos as int, st);
                        assert(lit_color_black()[0] == 66);
                        assert(lit_color_white()[0] == 87);
                        if st.color != color {
                            let pc = q2 as int;
                            assert(buf@.subrange(pc, pc + spec_color_bytes(st.color).len())[0]
                                == buf@[pc]);
                            assert(buf@.subrange(pc, pc + spec_color_bytes(color).len())[0]
                                == buf@[pc]);
                        }
                        assert(false);
                    }
                }
            }
        return None;
    }
    let q4 = q3 + dk.len();
    let r2 = parse_int(buf, q4);
    let (ci, q5) = match r2 {
        Some(x) => x,
        None => {
            proof {
                assert forall|st: Stone| !stone_at(buf@, pos as int, st) by {
                    if stone_at(buf@, pos as int, st) {
                        lemma_stone_layout(buf@, pos as int, st);
                        assert(lit_color_black()[0] == 66);
                        assert(lit_color_white()[0] == 87);
                        if st.color != color {
                            let pc = q2 as int;
                            assert(buf@.subrange(pc, pc + spec_color_bytes(st.color).len())[0]
                                == buf@[pc]);
                            assert(buf@.subrange(pc, pc + spec_color_bytes(color).len())[0]
                                == buf@[pc]);
                        }
                        assert(false);
                    }
                }
            }
            return None;
        },
    };
    if !match_bytes(buf, q5, &jk) {
            proof {
                assert forall|st: Stone| !stone_at(buf@, pos as int, st) by {
                    if stone_at(buf@, pos as int, st) {
                        lemma_stone_layout(buf@, pos as int, st);
                        assert(lit_color_black()[0] == 66);
                        assert(lit_color_white()[0] == 87);
                        if st.color != color {
                            let pc = q2 as int;
                            assert(buf@.subrange(pc, pc + spec_color_bytes(st.color).len())[0]
                                == buf@[pc]);
                            assert(buf@.subrange(pc, pc + spec_color_bytes(color).len())[0]
                                == buf@[pc]);
                        }
                        assert(false);
                    }
                }
            }
        return None;
    }
    let q6 = q5 + jk.len();
    let r3 = parse_int(buf, q6);
    let (cj, q7) = match r3 {
        Some(x) => x,
        None => {
            proof {
                assert forall|st: Stone| !stone_at(buf@, pos as int, st) by {
                    if stone_at(buf@, pos as int, st) {
                        lemma_stone_layout(buf@, pos as int, st);
                        assert(lit_color_black()[0] == 66);
                        assert(lit_color_white()[0] == 87);
                        if st.color != color {
                            let pc = q2 as int;
                            assert(buf@.subrange(pc, pc + spec_color_bytes(st.color).len())[0]
                                == buf@[pc]);
                            assert(buf@.subrange(pc, pc + spec_color_bytes(color).len())[0]
                                == buf@[pc]);
                        }
                        assert(false);
                    }
                }
            }
            return None;
        },
    };
    if !match_bytes(buf, q7, &ik) {
            proof {
                assert forall|st: Stone| !stone_at(buf@, pos as int, st) by {
                    if stone_at(buf@, pos as int, st) {
                        lemma_stone_layout(buf@, pos as int, st);
                        assert(lit_color_black()[0] == 66);
                        assert(lit_color_white()[0] == 87);
                        if st.color != color {
                            let pc = q2 as int;
                            assert(buf@.subrange(pc, pc + spec_color_bytes(st.color).len())[0]
                                == buf@[pc]);
                            assert(buf@.subrange(pc, pc + spec_color_bytes(color).len())[0]
                                == buf@[pc]);
                        }
                        assert(false);
                    }
                }
            }
        return None;
    }
    let q8 = q7 + ik.len();
    let r4 = parse_int(buf, q8);
    let (ii, q9) = match r4 {
        Some(x) => x,
        None => {
            proof {
                assert forall|st: Stone| !stone_at(buf@, pos as int, st) by {
                    if stone_at(buf@, pos as int, st) {
                        lemma_stone_layout(buf@, pos as int, st);
                        assert(lit_color_black()[0] == 66);
                        assert(lit_color_white()[0] == 87);
                        if st.color != color {
                            let pc = q2 as int;
                            assert(buf@.subrange(pc, pc + spec_color_bytes(st.color).len())[0]
                                == buf@[pc]);
                            assert(buf@.subrange(pc, pc + spec_color_bytes(color).len())[0]
                                == buf@[pc]);
                        }
                        assert(false);
                    }
                }
            }
            return None;
        },
    };
    if !match_bytes(buf, q9, &jk) {
            proof {
                assert forall|st: Stone| !stone_at(buf@, pos as int, st) by {
                    if stone_at(buf@, pos as int, st) {
                        lemma_stone_layout(buf@, pos as int, st);
                        assert(lit_color_black()[0] == 66);
                        assert(lit_color_white()[0] == 87);
                        if st.color != color {
                            let pc = q2 as int;
                            assert(buf@.subrange(pc, pc + spec_color_bytes(st.color).len())[0]
                                == buf@[pc]);
                            assert(buf@.subrange(pc, pc + spec_color_bytes(color).len())[0]
                                == buf@[pc]);
                        }
                        assert(false);
                    }
                }
            }
        return None;
    }
    let q10 = q9 + jk.len();
    let r5 = parse_int(buf, q10);
    let (ij, q11) = match r5 {
        Some(x) => x,
        None => {
            proof {
                assert forall|st: Stone| !stone_at(buf@, pos as int, st) by {
                    if stone_at(buf@, pos as int, st) {
                        lemma_stone_layout(buf@, pos as int, st);
                        assert(lit_color_black()[0] == 66);
                        assert(lit_color_white()[0] == 87);
                        if st.color != color {
                            let pc = q2 as int;
                            assert(buf@.subrange(pc, pc + spec_color_bytes(st.color).len())[0]
                                == buf@[pc]);
                            assert(buf@.subrange(pc, pc + spec_color_bytes(color).len())[0]
                                == buf@[pc]);
                        }
                        assert(false);
                    }
                }
            }
            return None;
        },
    };
    if !match_bytes(buf, q11, &tl) {
            proof {
                assert forall|st: Stone| !stone_at(buf@, pos as int, st) by {
                    if stone_at(buf@, pos as int, st) {
                        lemma_stone_layout(buf@, pos as int, st);
                        assert(lit_color_black()[0] == 66);
                        assert(lit_color_white()[0] == 87);
                        if st.color != color {
                            let pc = q2 as int;
                            assert(buf@.subrange(pc, pc + spec_color_bytes(st.color).len())[0]
                                == buf@[pc]);
                            assert(buf@.subrange(pc, pc + spec_color_bytes(color).len())[0]
                                == buf@[pc]);
                        }
                        assert(false);
                    }
                }
            }
        return None;
    }
    let q12 = q11 + tl.len();
    let st = Stone {
        count,
        color,
        coordinate: Position { i: ci, j: cj },
        index: Position { i: ii, j: ij },
    };
    proof {
        let b = buf@;
        let c1 = spec_int_bytes(count as int);
        let cb = spec_color_bytes(color);
        let c2 = spec_int_bytes(ci as int);
        let c3 = spec_int_bytes(cj as int);
        let c4 = spec_int_bytes(ii as int);
        let c5 = spec_int_bytes(ij as int);
        lemma_join_seg(b, pos as int, q1 as int, q2 as int, c1, lit_color_key());
        lemma_join_seg(b, pos as int, q2 as int, q3 as int, c1 + lit_color_key(), cb);
        lemma_join_seg(b, pos as int, q3 as int, q4 as int, c1 + lit_color_key() + cb,
            lit_coordinate_key());
        lemma_join_seg(b, pos as int, q4 as int, q5 as int,
            c1 + lit_color_key() + cb + lit_coordinate_key(), c2);
        lemma_join_seg(b, pos as int, q5 as int, q6 as int,
            c1 + lit_color_key() + cb + lit_coordinate_key() + c2, lit_j_key());
        lemma_join_seg(b, pos as int, q6 as int, q7 as int,
            c1 + lit_color_key() + cb + lit_coordinate_key() + c2 + lit_j_key(), c3);
        lemma_join_seg(b, pos as int, q7 as int, q8 as int,
            c1 + lit_color_key() + cb + lit_coordinate_key() + c2 + lit_j_key() + c3,
            lit_index_key());
        lemma_join_seg(b, pos as int, q8 as int, q9 as int,
            c1 + lit_color_key() + cb + lit_coordinate_key() + c2 + lit_j_key() + c3
                + lit_index_key(), c4);
        lemma_join_seg(b, pos as int, q9 as int, q10 as int,
            c1 + lit_color_key() + cb + lit_coordinate_key() + c2 + lit_j_key() + c3
                + lit_index_key() + c4, lit_j_key());
        lemma_join_seg(b, pos as int, q10 as int, q11 as int,
            c1 + lit_color_key() + cb + lit_coordinate_key() + c2 + lit_j_key() + c3
                + lit_index_key() + c4 + lit_j_key(), c5);
        lemma_join_seg(b, pos as int, q11 as int, q12 as int,
            c1 + lit_color_key() + cb + lit_coordinate_key() + c2 + lit_j_key() + c3
                + lit_index_key() + c4 + lit_j_key() + c5, lit_move_tail());
        assert(b.subrange(pos as int, q12 as int) == spec_stone_bytes(st));
        assert forall|s2: Stone| #[trigger] stone_at(buf@, pos as int, s2) implies s2 == st && q12
            == pos + spec_stone_bytes(s2).len() by {
            lemma_stone_layout(buf@, pos as int, s2);
            assert(lit_color_black()[0] == 66);
            assert(lit_color_white()[0] == 87);
            if s2.color != color {
                let pc = q2 as int;
                assert(buf@.subrange(pc, pc + spec_color_bytes(s2.color).len())[0] == buf@[pc]);
                assert(buf@.subrange(pc, pc + spec_color_bytes(color).len())[0] == buf@[pc]);
                assert(false);
            }
        }
    }
    Some((st, q12))
}


/// A string-carrying envelope encoding decomposes into header, escaped body,
/// closing quote and brace.
proof fn lemma_str_body(buf: Seq<u8>, hdr: Seq<u8>, rm: Seq<u8>)
    requires
        buf == hdr + spec_escape(rm) + seq![34u8] + lit_rbrace(),
    ensures
        str_at(buf, hdr.len() as int, rm),
        buf.len() == hdr.len() + spec_escape(rm).len() + 2,
        hdr.len() <= buf.len(),
        buf.subrange(0, hdr.len() as int) == hdr,
        buf.subrange(buf.len() - 1, buf.len() as int) == lit_rbrace(),
{
    let e = spec_escape(rm);
    let mid = e + seq![34u8];
    assert(buf =~= (hdr + mid) + lit_rbrace());
    assert(buf.subrange(0, buf.len() as int) =~= buf);
    lemma_seg(buf, 0, hdr + mid, lit_rbrace());
    lemma_seg(buf, 0, hdr, mid);
}

/// A Move envelope encoding decomposes into header and stone body.
proof fn lemma_move_body(buf: Seq<u8>, st: Stone)
    requires
        buf == spec_encode(MsgModel::Move { stone: st }),
    ensures
        stone_at(buf, lit_hdr_move().len() as int, st),
        buf.len() == lit_hdr_move().len() + spec_stone_bytes(st).len(),
        lit_hdr_move().len() <= buf.len(),
        buf.subrange(0, lit_hdr_move().len() as int) == lit_hdr_move(),
{
    assert(buf.subrange(0, buf.len() as int) =~= buf);
    lemma_seg(buf, 0, lit_hdr_move(), spec_stone_bytes(st));
}

/// Reassembles a parsed string envelope into its full payload bytes.
proof fn lemma_str_assemble(buf: Seq<u8>, hdr: Seq<u8>, rm: Seq<u8>, p: int)
    requires
        hdr.len() <= buf.len(),
        buf.subrange(0, hdr.len() as int) == hdr,
        p == hdr.len() + spec_escape(rm).len() + 1,
        p + 1 == buf.len(),
        buf.subrange(hdr.len() as int, p) == spec_escape(rm) + seq![34u8],
        buf.subrange(p, p + 1) == lit_rbrace(),
    ensures
        buf == hdr + spec_escape(rm) + seq![34u8] + lit_rbrace(),
{
    lemma_join_seg(buf, 0, hdr.len() as int, p, hdr, spec_escape(rm) + seq![34u8]);
    assert(hdr + (spec_escape(rm) + seq![34u8]) =~= hdr + spec_escape(rm) + seq![34u8]);
    lemma_join_seg(buf, 0, p, p + 1, hdr + spec_escape(rm) + seq![34u8], lit_rbrace());
    assert(buf.subrange(0, p + 1) =~= buf);
}


#[verifier::rlimit(100)]
proof fn lemma_lit_hdr_join_facts()
    ensures
        
        lit_hdr_join().len() == 25,
        lit_hdr_join()[9] == 74,
        lit_hdr_join()[13] == 34,
    {
}

#[verifier::rlimit(100)]
proof fn lemma_lit_hdr_create_room_facts()
    ensures
        
        lit_hdr_create_room().len() == 31,
        lit_hdr_create_room()[9] == 67,
        lit_hdr_create_room()[13] == 116,
    {
}

#[verifier::rlimit(100)]
proof fn lemma_lit_hdr_join_room_facts()
    ensures
        
        lit_hdr_join_room().len() == 29,
        lit_hdr_join_room()[9] == 74,
        lit_hdr_join_room()[13] == 82,
    {
}

#[verifier::rlimit(100)]
proof fn lemma_lit_hdr_move_facts()
    ensures
        
        lit_hdr_move().len() == 39,
        lit_hdr_move()[9] == 77,
        lit_hdr_move()[13] == 34,
    {
}

#[verifier::rlimit(100)]
proof fn lemma_lit_hdr_game_state_facts()
    ensures
        
        lit_hdr_game_state().len() == 29,
        lit_hdr_game_state()[9] == 71,
        lit_hdr_game_state()[13] == 83,
    {
}

#[verifier::rlimit(100)]
proof fn lemma_lit_hdr_heartbeat_facts()
    ensures
        
        lit_hdr_heartbeat().len() == 30,
        lit_hdr_heartbeat()[9] == 72,
        lit_hdr_heartbeat()[13] == 116,
    {
}

/// Only a Join envelope can begin with the Join header.
proof fn lemma_hdr_join_forces(buf: Seq<u8>, mm: MsgModel)
    requires
        lit_hdr_join().len() <= buf.len(),
        buf.subrange(0, lit_hdr_join().len() as int) == lit_hdr_join(),
        buf == spec_encode(mm),
    ensures
        mm is Join,
{
    lemma_lit_hdr_join_facts();
    lemma_lit_hdr_create_room_facts();
    lemma_lit_hdr_join_room_facts();
    lemma_lit_hdr_move_facts();
    lemma_lit_hdr_game_state_facts();
    lemma_lit_hdr_heartbeat_facts();
    let h = lit_hdr_join();
    assert(forall|i: int| 0 <= i < h.len() ==> buf[i] == #[trigger] h[i]) by {
        assert(forall|i: int| 0 <= i < h.len() ==> buf.subrange(0, h.len() as int)[i]
            == #[trigger] h[i]);
    }
    match mm {
        MsgModel::Join { .. } => {},
        MsgModel::CreateRoom { room_id: x } => {
            assert(buf[9] == lit_hdr_create_room()[9]);
            assert(lit_hdr_create_room()[9] == 67);
            assert(h[9] == 74);
            assert(false);
        },
        MsgModel::JoinRoom { room_id: x } => {
            assert(buf[13] == lit_hdr_join_room()[13]);
            assert(lit_hdr_join_room()[13] == 82);
            assert(h[13] == 34);
            assert(false);
        },
        MsgModel::Move { stone: x } => {
            assert(buf[9] == lit_hdr_move()[9]);
            assert(lit_hdr_move()[9] == 77);
            assert(h[9] == 74);
            assert(false);
        },
        MsgModel::GameState { state: x } => {
            assert(buf[9] == lit_hdr_game_state()[9]);
            assert(lit_hdr_game_state()[9] == 71);
            assert(h[9] == 74);
            assert(false);
        },
        MsgModel::Heartbeat { room_id: x } => {
            assert(buf[9] == lit_hdr_heartbeat()[9]);
            assert(lit_hdr_heartbeat()[9] == 72);
            assert(h[9] == 74);
            assert(false);
        },
    }
}

/// Only a CreateRoom envelope can begin with the CreateRoom header.
proof fn lemma_hdr_createroom_forces(buf: Seq<u8>, mm: MsgModel)
    requires
        lit_hdr_create_room().len() <= buf.len(),
        buf.subrange(0, lit_hdr_create_room().len() as int) == lit_hdr_create_room(),
        buf == spec_encode(mm),
    ensures
        mm is CreateRoom,
{
    lemma_lit_hdr_join_facts();
    lemma_lit_hdr_create_room_facts();
    lemma_lit_hdr_join_room_facts();
    lemma_lit_hdr_move_facts();
    lemma_lit_hdr_game_state_facts();
    lemma_lit_hdr_heartbeat_facts();
    let h = lit_hdr_create_room();
    assert(forall|i: int| 0 <= i < h.len() ==> buf[i] == #[trigger] h[i]) by {
        assert(forall|i: int| 0 <= i < h.len() ==> buf.subrange(0, h.len() as int)[i]
            == #[trigger] h[i]);
    }
    match mm {
        MsgModel::Join { room_id: x } => {
            assert(buf[9] == lit_hdr_join()[9]);
            assert(lit_hdr_join()[9] == 74);
            assert(h[9] == 67);
            assert(false);
        },
        MsgModel::CreateRoom { .. } => {},
        MsgModel::JoinRoom { room_id: x } => {
            assert(buf[9] == lit_hdr_join_room()[9]);
            assert(lit_hdr_join_room()[9] == 74);
            assert(h[9] == 67);
            assert(false);
        },
        MsgModel::Move { stone: x } => {
            assert(buf[9] == lit_hdr_move()[9]);
            assert(lit_hdr_move()[9] == 77);
            assert(h[9] == 67);
            assert(false);
        },
        MsgModel::GameState { state: x } => {
            assert(buf[9] == lit_hdr_game_state()[9]);
            assert(lit_hdr_game_state()[9] == 71);
            assert(h[9] == 67);
            assert(false);
        },
        MsgModel::Heartbeat { room_id: x } => {
            assert(buf[9] == lit_hdr_heartbeat()[9]);
            assert(lit_hdr_heartbeat()[9] == 72);
            assert(h[9] == 67);
            assert(false);
        },
    }
}

/// Only a JoinRoom envelope can begin with the JoinRoom header.
proof fn lemma_hdr_joinroom_forces(buf: Seq<u8>, mm: MsgModel)
    requires
        lit_hdr_join_room().len() <= buf.len(),
        buf.subrange(0, lit_hdr_join_room().len() as int) == lit_hdr_join_room(),
        buf == spec_encode(mm),
    ensures
        mm is JoinRoom,
{
    lemma_lit_hdr_join_facts();
    lemma_lit_hdr_create_room_facts();
    lemma_lit_hdr_join_room_facts();
    lemma_lit_hdr_move_facts();
    lemma_lit_hdr_game_state_facts();
    lemma_lit_hdr_heartbeat_facts();
    let h = lit_hdr_join_room();
    assert(forall|i: int| 0 <= i < h.len() ==> buf[i] == #[trigger] h[i]) by {
        assert(forall|i: int| 0 <= i < h.len() ==> buf.subrange(0, h.len() as int)[i]
            == #[trigger] h[i]);
    }
    match mm {
        MsgModel::Join { room_id: x } => {
            assert(buf[13] == lit_hdr_join()[13]);
            assert(lit_hdr_join()[13] == 34);
            assert(h[13] == 82);
            assert(false);
        },
        MsgModel::CreateRoom { room_id: x } => {
            assert(buf[9] == lit_hdr_create_room()[9]);
            assert(lit_hdr_create_room()[9] == 67);
            assert(h[9] == 74);
            assert(false);
        },
        MsgModel::JoinRoom { .. } => {},
        MsgModel::Move { stone: x } => {
            assert(buf[9] == lit_hdr_move()[9]);
            assert(lit_hdr_move()[9] == 77);
            assert(h[9] == 74);
            assert(false);
        },
        MsgModel::GameState { state: x } => {
            assert(buf[9] == lit_hdr_game_state()[9]);
            assert(lit_hdr_game_state()[9] == 71);
            assert(h[9] == 74);
            assert(false);
        },
        MsgModel::Heartbeat { room_id: x } => {
            assert(buf[9] == lit_hdr_heartbeat()[9]);
            assert(lit_hdr_heartbeat()[9] == 72);
            assert(h[9] == 74);
            assert(false);
        },
    }
}

/// Only a Move envelope can begin with the Move header.
proof fn lemma_hdr_move_forces(buf: Seq<u8>, mm: MsgModel)
    requires
        lit_hdr_move().len() <= buf.len(),
        buf.subrange(0, lit_hdr_move().len() as int) == lit_hdr_move(),
        buf == spec_encode(mm),
    ensures
        mm is Move,
{
    lemma_lit_hdr_join_facts();
    lemma_lit_hdr_create_room_facts();
    lemma_lit_hdr_join_room_facts();
    lemma_lit_hdr_move_facts();
    lemma_lit_hdr_game_state_facts();
    lemma_lit_hdr_heartbeat_facts();
    let h = lit_hdr_move();
    assert(forall|i: int| 0 <= i < h.len() ==> buf[i] == #[trigger] h[i]) by {
        assert(forall|i: int| 0 <= i < h.len() ==> buf.subrange(0, h.len() as int)[i]
            == #[trigger] h[i]);
    }
    match mm {
        MsgModel::Join { room_id: x } => {
            assert(buf[9] == lit_hdr_join()[9]);
            assert(lit_hdr_join()[9] == 74);
            assert(h[9] == 77);
            assert(false);
        },
        MsgModel::CreateRoom { room_id: x } => {
            assert(buf[9] == lit_hdr_create_room()[9]);
            assert(lit_hdr_create_room()[9] == 67);
            assert(h[9] == 77);
            assert(false);
        },
        MsgModel::JoinRoom { room_id: x } => {
            assert(buf[9] == lit_hdr_join_room()[9]);
            assert(lit_hdr_join_room()[9] == 74);
            assert(h[9] == 77);
            assert(false);
        },
        MsgModel::Move { .. } => {},
        MsgModel::GameState { state: x } => {
            assert(buf[9] == lit_hdr_game_state()[9]);
            assert(lit_hdr_game_state()[9] == 71);
            assert(h[9] == 77);
            assert(false);
        },
        MsgModel::Heartbeat { room_id: x } => {
            assert(buf[9] == lit_hdr_heartbeat()[9]);
            assert(lit_hdr_heartbeat()[9] == 72);
            assert(h[9] == 77);
            assert(false);
        },
    }
}

/// Only a GameState envelope can begin with the GameState header.
proof fn lemma_hdr_gamestate_forces(buf: Seq<u8>, mm: MsgModel)
    requires
        lit_hdr_game_state().len() <= buf.len(),
        buf.subrange(0, lit_hdr_game_state().len() as int) == lit_hdr_game_state(),
        buf == spec_encode(mm),
    ensures
        mm is GameState,
{
    lemma_lit_hdr_join_facts();
    lemma_lit_hdr_create_room_facts();
    lemma_lit_hdr_join_room_facts();
    lemma_lit_hdr_move_facts();
    lemma_lit_hdr_game_state_facts();
    lemma_lit_hdr_heartbeat_facts();
    let h = lit_hdr_game_state();
    assert(forall|i: int| 0 <= i < h.len() ==> buf[i] == #[trigger] h[i]) by {
        assert(forall|i: int| 0 <= i < h.len() ==> buf.subrange(0, h.len() as int)[i]
            == #[trigger] h[i]);
    }
    match mm {
        MsgModel::Join { room_id: x } => {
            assert(buf[9] == lit_hdr_join()[9]);
            assert(lit_hdr_join()[9] == 74);
            assert(h[9] == 71);
            assert(false);
        },
        MsgModel::CreateRoom { room_id: x } => {
            assert(buf[9] == lit_hdr_create_room()[9]);
            assert(lit_hdr_create_room()[9] == 67);
            assert(h[9] == 71);
            assert(false);
        },
        MsgModel::JoinRoom { room_id: x } => {
            assert(buf[9] == lit_hdr_join_room()[9]);
            assert(lit_hdr_join_room()[9] == 74);
            assert(h[9] == 71);
            assert(false);
        },
        MsgModel::Move { stone: x } => {
            assert(buf[9] == lit_hdr_move()[9]);
            assert(lit_hdr_move()[9] == 77);
            assert(h[9] == 71);
            assert(false);
        },
        MsgModel::GameState { .. } => {},
        MsgModel::Heartbeat { room_id: x } => {
            assert(buf[9] == lit_hdr_heartbeat()[9]);
            assert(lit_hdr_heartbeat()[9] == 72);
            assert(h[9] == 71);
            assert(false);
        },
    }
}

/// Only a Heartbeat envelope can begin with the Heartbeat header.
proof fn lemma_hdr_heartbeat_forces(buf: Seq<u8>, mm: MsgModel)
    requires
        lit_hdr_heartbeat().len() <= buf.len(),
        buf.subrange(0, lit_hdr_heartbeat().len() as int) == lit_hdr_heartbeat(),
        buf == spec_encode(mm),
    ensures
        mm is Heartbeat,
{
    lemma_lit_hdr_join_facts();
    lemma_lit_hdr_create_room_facts();
    lemma_lit_hdr_join_room_facts();
    lemma_lit_hdr_move_facts();
    lemma_lit_hdr_game_state_facts();
    lemma_lit_hdr_heartbeat_facts();
    let h = lit_hdr_heartbeat();
    assert(forall|i: int| 0 <= i < h.len() ==> buf[i] == #[trigger] h[i]) by {
        assert(forall|i: int| 0 <= i < h.len() ==> buf.subrange(0, h.len() as int)[i]
            == #[trigger] h[i]);
    }
    match mm {
        MsgModel::Join { room_id: x } => {
            assert(buf[9] == lit_hdr_join()[9]);
            assert(lit_hdr_join()[9] == 74);
            assert(h[9] == 72);
            assert(false);
        },
        MsgModel::CreateRoom { room_id: x } => {
            assert(buf[9] == lit_hdr_create_room()[9]);
            assert(lit_hdr_create_room()[9] == 67);
            assert(h[9] == 72);
            assert(false);
        },
        MsgModel::JoinRoom { room_id: x } => {
            assert(buf[9] == lit_hdr_join_room()[9]);
            assert(lit_hdr_join_room()[9] == 74);
            assert(h[9] == 72);
            assert(false);
        },
        MsgModel::Move { stone: x } => {
            assert(buf[9] == lit_hdr_move()[9]);
            assert(lit_hdr_move()[9] == 77);
            assert(h[9] == 72);
            assert(false);
        },
        MsgModel::GameState { state: x } => {
            assert(buf[9] == lit_hdr_game_state()[9]);
            assert(lit_hdr_game_state()[9] == 71);
            assert(h[9] == 72);
            assert(false);
        },
        MsgModel::Heartbeat { .. } => {},
    }
}

/// Decodes one payload. Succeeds exactly on the canonical encoding of some
/// envelope, and then returns that envelope; any other byte string is a
/// malformed payload.
#[verifier::rlimit(100)]
pub fn decode_payload(buf: &Vec<u8>) -> (r: Result<GameMessage, DecodeError>)
    ensures
        r matches Ok(m) ==> buf@ == spec_encode(m@),
        forall|mm: MsgModel| buf@ == #[trigger] spec_encode(mm) ==> (r matches Ok(m) && m@ == mm),
{
    let blen = buf.len();
    let hj = make_hdr_join();
    let hc = make_hdr_create_room();
    let hjr = make_hdr_join_room();
    let hm = make_hdr_move();
    let hg = make_hdr_game_state();
    let hh = make_hdr_heartbeat();
    let rb = make_rbrace();
    if match_bytes(buf, 0, &hj) {
        let hl = hj.len();
        match parse_jstring(buf, hl) {
            Some((body, p)) => {
                if match_bytes(buf, p, &rb) && p + 1 == blen {
                    let m = GameMessage::Join { room_id: body };
                    proof {
                        lemma_str_assemble(buf@, lit_hdr_join(), m@->Join_room_id, p as int);
                        assert forall|mm: MsgModel| buf@ == spec_encode(mm) implies (Ok::<
                            GameMessage,
                            DecodeError,
                        >(m) matches Ok(m2) && m2@ == mm) by {
                            lemma_hdr_join_forces(buf@, mm);
                            let rm = mm->Join_room_id;
                            lemma_str_body(buf@, lit_hdr_join(), rm);
                        }
                    }
                    return Ok(m);
                } else {
                    proof {
                        assert forall|mm: MsgModel| buf@ != spec_encode(mm) by {
                            if buf@ == spec_encode(mm) {
                                lemma_hdr_join_forces(buf@, mm);
                                let rm = mm->Join_room_id;
                                lemma_str_body(buf@, lit_hdr_join(), rm);
                                assert(false);
                            }
                        }
                    }
                    return Err(DecodeError::MalformedPayload);
                }
            },
            None => {
                proof {
                    assert forall|mm: MsgModel| buf@ != spec_encode(mm) by {
                        if buf@ == spec_encode(mm) {
                            lemma_hdr_join_forces(buf@, mm);
                            let rm = mm->Join_room_id;
                            lemma_str_body(buf@, lit_hdr_join(), rm);
                            assert(false);
                        }
                    }
                }
                return Err(DecodeError::MalformedPayload);
            },
        }
    }
    else if match_bytes(buf, 0, &hc) {
        let hl = hc.len();
        match parse_jstring(buf, hl) {
            Some((body, p)) => {
                if match_bytes(buf, p, &rb) && p + 1 == blen {
                    let m = GameMessage::CreateRoom { room_id: body };
                    proof {
                        lemma_str_assemble(buf@, lit_hdr_create_room(), m@->CreateRoom_room_id, p as int);
                        assert forall|mm: MsgModel| buf@ == spec_encode(mm) implies (Ok::<
                            GameMessage,
                            DecodeError,
                        >(m) matches Ok(m2) && m2@ == mm) by {
                            lemma_hdr_createroom_forces(buf@, mm);
                            let rm = mm->CreateRoom_room_id;
                            lemma_str_body(buf@, lit_hdr_create_room(), rm);
                        }
                    }
                    return Ok(m);
                } else {
                    proof {
                        assert forall|mm: MsgModel| buf@ != spec_encode(mm) by {
                            if buf@ == spec_encode(mm) {
                                lemma_hdr_createroom_forces(buf@, mm);
                                let rm = mm->CreateRoom_room_id;
                                lemma_str_body(buf@, lit_hdr_create_room(), rm);
                                assert(false);
                            }
                        }
                    }
                    return Err(DecodeError::MalformedPayload);
                }
            },
            None => {
                proof {
                    assert forall|mm: MsgModel| buf@ != spec_encode(mm) by {
                        if buf@ == spec_encode(mm) {
                            lemma_hdr_createroom_forces(buf@, mm);
                            let rm = mm->CreateRoom_room_id;
                            lemma_str_body(buf@, lit_hdr_create_room(), rm);
                            assert(false);
                        }
                    }
                }
                return Err(DecodeError::MalformedPayload);
            },
        }
    }
    else if match_bytes(buf, 0, &hjr) {
        let hl = hjr.len();
        match parse_jstring(buf, hl) {
            Some((body, p)) => {
                if match_bytes(buf, p, &rb) && p + 1 == blen {
                    let m = GameMessage::JoinRoom { room_id: body };
                    proof {
                        lemma_str_assemble(buf@, lit_hdr_join_room(), m@->JoinRoom_room_id, p as int);
                        assert forall|mm: MsgModel| buf@ == spec_encode(mm) implies (Ok::<
                            GameMessage,
                            DecodeError,
                        >(m) matches Ok(m2) && m2@ == mm) by {
                            lemma_hdr_joinroom_forces(buf@, mm);
                            let rm = mm->JoinRoom_room_id;
                            lemma_str_body(buf@, lit_hdr_join_room(), rm);
                        }
                    }
                    return Ok(m);
                } else {
                    proof {
                        assert forall|mm: MsgModel| buf@ != spec_encode(mm) by {
                            if buf@ == spec_encode(mm) {
                                lemma_hdr_joinroom_forces(buf@, mm);
                                let rm = mm->JoinRoom_room_id;
                                lemma_str_body(buf@, lit_hdr_join_room(), rm);
                                assert(false);
                            }
                        }
                    }
                    return Err(DecodeError::MalformedPayload);
                }
            },
            None => {
                proof {
                    assert forall|mm: MsgModel| buf@ != spec_encode(mm) by {
                        if buf@ == spec_encode(mm) {
                            lemma_hdr_joinroom_forces(buf@, mm);
                            let rm = mm->JoinRoom_room_id;
                            lemma_str_body(buf@, lit_hdr_join_room(), rm);
                            assert(false);
                        }
                    }
                }
                return Err(DecodeError::MalformedPayload);
            },
        }
    }
    else if match_bytes(buf, 0, &hm) {
        let hl = hm.len();
        match parse_stone(buf, hl) {
            Some((st, p)) => {
                if p == blen {
                    let m = GameMessage::Move { stone: st };
                    proof {
                        lemma_join_seg(buf@, 0, hl as int, p as int, lit_hdr_move(),
                            spec_stone_bytes(st));
                        assert(buf@.subrange(0, p as int) =~= buf@);
                        assert forall|mm: MsgModel| buf@ == spec_encode(mm) implies (Ok::<
                            GameMessage,
                            DecodeError,
                        >(m) matches Ok(m2) && m2@ == mm) by {
                            lemma_hdr_move_forces(buf@, mm);
                            let st2 = mm->Move_stone;
                            lemma_move_body(buf@, st2);
                        }
                    }
                    return Ok(m);
                } else {
                    proof {
                        assert forall|mm: MsgModel| buf@ != spec_encode(mm) by {
                            if buf@ == spec_encode(mm) {
                                lemma_hdr_move_forces(buf@, mm);
                                let st2 = mm->Move_stone;
                                lemma_move_body(buf@, st2);
                                assert(false);
                            }
                        }
                    }
                    return Err(DecodeError::MalformedPayload);
                }
            },
            None => {
                proof {
                    assert forall|mm: MsgModel| buf@ != spec_encode(mm) by {
                        if buf@ == spec_encode(mm) {
                            lemma_hdr_move_forces(buf@, mm);
                            let st2 = mm->Move_stone;
                            lemma_move_body(buf@, st2);
                            assert(false);
                        }
                    }
                }
                return Err(DecodeError::MalformedPayload);
            },
        }
    }
    else if match_bytes(buf, 0, &hg) {
        let hl = hg.len();
        match parse_jstring(buf, hl) {
            Some((body, p)) => {
                if match_bytes(buf, p, &rb) && p + 1 == blen {
                    let m = GameMessage::GameState { state: body };
                    proof {
                        lemma_str_assemble(buf@, lit_hdr_game_state(), m@->GameState_state, p as int);
                        assert forall|mm: MsgModel| buf@ == spec_encode(mm) implies (Ok::<
                            GameMessage,
                            DecodeError,
                        >(m) matches Ok(m2) && m2@ == mm) by {
                            lemma_hdr_gamestate_forces(buf@, mm);
                            let rm = mm->GameState_state;
                            lemma_str_body(buf@, lit_hdr_game_state(), rm);
                        }
                    }
                    return Ok(m);
                } else {
                    proof {
                        assert forall|mm: MsgModel| buf@ != spec_encode(mm) by {
                            if buf@ == spec_encode(mm) {
                                lemma_hdr_gamestate_forces(buf@, mm);
                                let rm = mm->GameState_state;
                                lemma_str_body(buf@, lit_hdr_game_state(), rm);
                                assert(false);
                            }
                        }
                    }
                    return Err(DecodeError::MalformedPayload);
                }
            },
            None => {
                proof {
                    assert forall|mm: MsgModel| buf@ != spec_encode(mm) by {
                        if buf@ == spec_encode(mm) {
                            lemma_hdr_gamestate_forces(buf@, mm);
                            let rm = mm->GameState_state;
                            lemma_str_body(buf@, lit_hdr_game_state(), rm);
                            assert(false);
                        }
                    }
                }
                return Err(DecodeError::MalformedPayload);
            },
        }
    }
    else if match_bytes(buf, 0, &hh) {
        let hl = hh.len();
        match parse_jstring(buf, hl) {
            Some((body, p)) => {
                if match_bytes(buf, p, &rb) && p + 1 == blen {
                    let m = GameMessage::Heartbeat { room_id: body };
                    proof {
                        lemma_str_assemble(buf@, lit_hdr_heartbeat(), m@->Heartbeat_room_id, p as int);
                        assert forall|mm: MsgModel| buf@ == spec_encode(mm) implies (Ok::<
                            GameMessage,
                            DecodeError,
                        >(m) matches Ok(m2) && m2@ == mm) by {
                            lemma_hdr_heartbeat_forces(buf@, mm);
                            let rm = mm->Heartbeat_room_id;
                            lemma_str_body(buf@, lit_hdr_heartbeat(), rm);
                        }
                    }
                    return Ok(m);
                } else {
                    proof {
                        assert forall|mm: MsgModel| buf@ != spec_encode(mm) by {
                            if buf@ == spec_encode(mm) {
                                lemma_hdr_heartbeat_forces(buf@, mm);
                                let rm = mm->Heartbeat_room_id;
                                lemma_str_body(buf@, lit_hdr_heartbeat(), rm);
                                assert(false);
                            }
                        }
                    }
                    return Err(DecodeError::MalformedPayload);
                }
            },
            None => {
                proof {
                    assert forall|mm: MsgModel| buf@ != spec_encode(mm) by {
                        if buf@ == spec_encode(mm) {
                            lemma_hdr_heartbeat_forces(buf@, mm);
                            let rm = mm->Heartbeat_room_id;
                            lemma_str_body(buf@, lit_hdr_heartbeat(), rm);
                            assert(false);
                        }
                    }
                }
                return Err(DecodeError::MalformedPayload);
            },
        }
    }
    else {
        proof {
            assert forall|mm: MsgModel| buf@ != spec_encode(mm) by {
                if buf@ == spec_encode(mm) {
                    match mm {
                        MsgModel::Join { room_id } => {
                            lemma_str_body(buf@, lit_hdr_join(), room_id);
                        },
                        MsgModel::CreateRoom { room_id } => {
                            lemma_str_body(buf@, lit_hdr_create_room(), room_id);
                        },
                        MsgModel::JoinRoom { room_id } => {
                            lemma_str_body(buf@, lit_hdr_join_room(), room_id);
                        },
                        MsgModel::Move { stone } => {
                            lemma_move_body(buf@, stone);
                        },
                        MsgModel::GameState { state } => {
                            lemma_str_body(buf@, lit_hdr_game_state(), state);
                        },
                        MsgModel::Heartbeat { room_id } => {
                            lemma_str_body(buf@, lit_hdr_heartbeat(), room_id);
                        },
                    }
                    assert(false);
                }
            }
        }
        return Err(DecodeError::MalformedPayload);
    }
}

} // verus!
