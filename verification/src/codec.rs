use vstd::prelude::*;

use crate::board::Board;
use crate::bot::Weight;
use vstd::bytes::{
    lemma_auto_spec_u16_to_from_le_bytes, lemma_auto_spec_u32_to_from_le_bytes,
    lemma_auto_spec_u64_to_from_le_bytes, spec_u16_from_le_bytes, spec_u16_to_le_bytes,
    spec_u32_from_le_bytes, spec_u32_to_le_bytes, spec_u64_from_le_bytes, spec_u64_to_le_bytes,
    u16_from_le_bytes, u16_to_le_bytes, u32_from_le_bytes, u32_to_le_bytes, u64_from_le_bytes,
    u64_to_le_bytes,
};
use vstd::arithmetic::div_mod::lemma_fundamental_div_mod;
use vstd::slice::slice_subrange;

verus! {

/// Why a byte record was rejected: it does not hold a whole number of
/// 26-byte records.
#[derive(Clone, Copy, Debug, PartialEq, Eq, Structural)]
pub enum DecodeError {
    Truncated,
}

/// The first `n` weights as bytes, each little-endian in two bytes.
pub open spec fn weights_bytes(w: Seq<i16>, n: int) -> Seq<u8>
    decreases n,
{
    if n <= 0 {
        Seq::empty()
    } else {
        weights_bytes(w, n - 1) + spec_u16_to_le_bytes(w[n - 1] as u16)
    }
}

/// One 26-byte record: the board's packed pair little-endian (8 bytes then
/// 4), then the seven weights (2 bytes each), no header or separator.
pub open spec fn encode_spec(b: Board, w: Seq<i16>) -> Seq<u8> {
    spec_u64_to_le_bytes(b.upper) + spec_u32_to_le_bytes(b.lower) + weights_bytes(w, 7)
}

/// The board a 26-byte record holds.
pub open spec fn decode_board_spec(bytes: Seq<u8>) -> Board {
    Board {
        upper: spec_u64_from_le_bytes(bytes.subrange(0, 8)),
        lower: spec_u32_from_le_bytes(bytes.subrange(8, 12)),
    }
}

/// The `i`-th weight a 26-byte record holds.
pub open spec fn decode_weight_spec(bytes: Seq<u8>, i: int) -> i16 {
    spec_u16_from_le_bytes(bytes.subrange(12 + 2 * i, 14 + 2 * i)) as i16
}

proof fn lemma_weights_bytes_len(w: Seq<i16>, n: int)
    requires
        0 <= n,
    ensures
        weights_bytes(w, n).len() == 2 * n,
    decreases n,
{
    if n > 0 {
        lemma_weights_bytes_len(w, n - 1);
        lemma_auto_spec_u16_to_from_le_bytes();
    }
}

proof fn lemma_weights_bytes_index(w: Seq<i16>, n: int, j: int)
    requires
        0 <= j < n,
    ensures
        weights_bytes(w, n).subrange(2 * j, 2 * j + 2) == spec_u16_to_le_bytes(w[j] as u16),
    decreases n,
{
    lemma_auto_spec_u16_to_from_le_bytes();
    lemma_weights_bytes_len(w, n - 1);
    if j == n - 1 {
        assert(weights_bytes(w, n).subrange(2 * j, 2 * j + 2) =~= spec_u16_to_le_bytes(
            w[j] as u16,
        ));
    } else {
        lemma_weights_bytes_index(w, n - 1, j);
        assert(weights_bytes(w, n).subrange(2 * j, 2 * j + 2) =~= weights_bytes(
            w,
            n - 1,
        ).subrange(2 * j, 2 * j + 2));
    }
}

/// A cast to u16 and back returns any 16-bit signed value unchanged.
proof fn lemma_u16_i16_roundtrip(v: i16)
    by (bit_vector)
    ensures
        ((v as u16) as i16) == v,
{
}

/// Decoding an encoded record gives back the board and the weights
/// (round-trip law).
pub proof fn lemma_codec_round_trip(b: Board, w: Seq<i16>)
    requires
        w.len() == 7,
    ensures
        encode_spec(b, w).len() == 26,
        decode_board_spec(encode_spec(b, w)) == b,
        forall|i: int| 0 <= i < 7 ==> decode_weight_spec(encode_spec(b, w), i) == w[i],
{
    let bytes = encode_spec(b, w);
    lemma_auto_spec_u64_to_from_le_bytes();
    lemma_auto_spec_u32_to_from_le_bytes();
    lemma_auto_spec_u16_to_from_le_bytes();
    lemma_weights_bytes_len(w, 7);
    assert(bytes.subrange(0, 8) =~= spec_u64_to_le_bytes(b.upper));
    assert(bytes.subrange(8, 12) =~= spec_u32_to_le_bytes(b.lower));
    assert(decode_board_spec(bytes) == b);
    assert forall|i: int| 0 <= i < 7 implies decode_weight_spec(bytes, i) == w[i] by {
        lemma_weights_bytes_index(w, 7, i);
        assert(bytes.subrange(12 + 2 * i, 14 + 2 * i) =~= weights_bytes(w, 7).subrange(
            2 * i,
            2 * i + 2,
        ));
        lemma_u16_i16_roundtrip(w[i]);
    }
}

/// Writes one (board, weights) pair as its 26-byte record.
pub fn serialize_weights(board: &Board, weight: &Weight) -> (r: Vec<u8>)
    ensures
        r@ == encode_spec(*board, weight@),
        r@.len() == 26,
{
    proof {
        lemma_auto_spec_u64_to_from_le_bytes();
        lemma_auto_spec_u32_to_from_le_bytes();
        lemma_auto_spec_u16_to_from_le_bytes();
        lemma_weights_bytes_len(weight@, 7);
    }
    let pair = board.as_pair();
    let mut out = u64_to_le_bytes(pair.0);
    let mut right = u32_to_le_bytes(pair.1);
    out.append(&mut right);
    let ghost prefix = spec_u64_to_le_bytes(board.upper) + spec_u32_to_le_bytes(board.lower);
    let mut i: usize = 0;
    while i < 7
        invariant
            i <= 7,
            prefix == spec_u64_to_le_bytes(board.upper) + spec_u32_to_le_bytes(board.lower),
            out@ == prefix + weights_bytes(weight@, i as int),
        decreases 7 - i,
    {
        let mut wb = u16_to_le_bytes(weight.0[i] as u16);
        out.append(&mut wb);
        proof {
            assert(out@ =~= prefix + weights_bytes(weight@, i as int + 1));
        }
        i += 1;
    }
    proof {
        assert(out@ =~= encode_spec(*board, weight@));
        lemma_weights_bytes_len(weight@, 7);
    }
    out
}

/// Reads one 26-byte record back into a (board, weights) pair; anything
/// shorter or longer is refused as truncated or malformed.
pub fn deserialize_weights(bytes: &[u8]) -> (r: Result<(Board, Weight), DecodeError>)
    ensures
        bytes@.len() != 26 ==> r == Err::<(Board, Weight), DecodeError>(DecodeError::Truncated),
        bytes@.len() == 26 ==> match r {
            Ok(p) => {
                &&& p.0 == decode_board_spec(bytes@)
                &&& p.1@.len() == 7
                &&& forall|i: int| 0 <= i < 7 ==> p.1@[i] == decode_weight_spec(bytes@, i)
            },
            Err(_) => false,
        },
{
    if bytes.len() != 26 {
        return Err(DecodeError::Truncated);
    }
    let upper = u64_from_le_bytes(slice_subrange(bytes, 0, 8));
    let lower = u32_from_le_bytes(slice_subrange(bytes, 8, 12));
    let board = Board::from_pair((upper, lower));
    let w0 = u16_from_le_bytes(slice_subrange(bytes, 12, 14)) as i16;
    let w1 = u16_from_le_bytes(slice_subrange(bytes, 14, 16)) as i16;
    let w2 = u16_from_le_bytes(slice_subrange(bytes, 16, 18)) as i16;
    let w3 = u16_from_le_bytes(slice_subrange(bytes, 18, 20)) as i16;
    let w4 = u16_from_le_bytes(slice_subrange(bytes, 20, 22)) as i16;
    let w5 = u16_from_le_bytes(slice_subrange(bytes, 22, 24)) as i16;
    let w6 = u16_from_le_bytes(slice_subrange(bytes, 24, 26)) as i16;
    let weight = Weight([w0, w1, w2, w3, w4, w5, w6]);
    Ok((board, weight))
}

/// Reads a whole stream of 26-byte records, consuming until its end.  A
/// stream that is not an exact multiple of 26 bytes holds a trailing
/// partial record and is refused, never zero-filled or cut short.
pub fn deserialize_records(bytes: &[u8]) -> (r: Result<Vec<(Board, Weight)>, DecodeError>)
    ensures
        bytes@.len() % 26 != 0 ==> r == Err::<Vec<(Board, Weight)>, DecodeError>(
            DecodeError::Truncated,
        ),
        bytes@.len() % 26 == 0 ==> match r {
            Ok(v) => {
                &&& v@.len() * 26 == bytes@.len()
                &&& forall|j: int|
                    0 <= j < v@.len() ==> {
                        let rec = bytes@.subrange(26 * j, 26 * j + 26);
                        &&& (#[trigger] v@[j]).0 == decode_board_spec(rec)
                        &&& v@[j].1@.len() == 7
                        &&& forall|i: int| 0 <= i < 7 ==> v@[j].1@[i] == decode_weight_spec(rec, i)
                    }
            },
            Err(_) => false,
        },
{
    if bytes.len() % 26 != 0 {
        return Err(DecodeError::Truncated);
    }
    proof {
        lemma_fundamental_div_mod(bytes@.len() as int, 26);
    }
    let ghost m = bytes@.len() as int / 26;
    let mut out: Vec<(Board, Weight)> = Vec::new();
    let mut offset: usize = 0;
    while offset < bytes.len()
        invariant
            bytes@.len() == 26 * m,
            offset == 26 * out@.len(),
            out@.len() <= m,
            forall|j: int|
                0 <= j < out@.len() ==> {
                    let rec = bytes@.subrange(26 * j, 26 * j + 26);
                    &&& (#[trigger] out@[j]).0 == decode_board_spec(rec)
                    &&& out@[j].1@.len() == 7
                    &&& forall|i: int| 0 <= i < 7 ==> out@[j].1@[i] == decode_weight_spec(rec, i)
                },
        decreases bytes@.len() - offset,
    {
        let rec = slice_subrange(bytes, offset, offset + 26);
        let pair = match deserialize_weights(rec) {
            Ok(p) => p,
            Err(_) => {
                proof {
                    assert(false);
                }
                return Err(DecodeError::Truncated);
            },
        };
        out.push(pair);
        offset += 26;
    }
    Ok(out)
}

} // verus!
