//! Mathematical model of the BLAKE2b compression core. Every executable
//! function in this crate is specified against these functions: the G mixing
//! step, the round function, single-block compression, and the multi-block
//! driver with its byte counter, zero-padded final block, flag masks, and
//! strided block layout.

use vstd::prelude::*;
use vstd::bytes::spec_u64_from_le_bytes;
use vstd::wrapping::u128_specs;
use vstd::wrapping::u64_specs;

use crate::consts::IV;
use crate::consts::SIGMA;

verus! {

/// Boolean-to-mask encoding of the two BLAKE2b flags: true becomes the
/// all-ones 64-bit word, false becomes zero.
pub open spec fn spec_u64_flag(b: bool) -> u64 {
    if b {
        0xffff_ffff_ffff_ffff
    } else {
        0
    }
}

/// Right rotation of a 64-bit word by `n` places, 0 < n < 64.
pub open spec fn spec_rotr(x: u64, n: u64) -> u64
    recommends
        0 < n < 64,
{
    (x >> n) | (x << (64 - n))
}

/// The low 64 bits of the 128-bit byte counter.
pub open spec fn spec_count_low(count: u128) -> u64 {
    count as u64
}

/// The high 64 bits of the 128-bit byte counter.
pub open spec fn spec_count_high(count: u128) -> u64 {
    (count >> 64) as u64
}

/// The G mixing primitive: mutates the four working-state slots `a`, `b`,
/// `c`, `d` using the two message words `x` and `y`, with 64-bit wraparound
/// additions and the fixed rotation distances 32, 24, 16, 63.
#[verifier::opaque]
pub open spec fn spec_g(v: Seq<u64>, a: int, b: int, c: int, d: int, x: u64, y: u64) -> Seq<u64>
    recommends
        v.len() == 16,
        0 <= a < 16,
        0 <= b < 16,
        0 <= c < 16,
        0 <= d < 16,
{
    let a1 = u64_specs::wrapping_add(u64_specs::wrapping_add(v[a], v[b]), x);
    let d1 = spec_rotr(v[d] ^ a1, 32);
    let c1 = u64_specs::wrapping_add(v[c], d1);
    let b1 = spec_rotr(v[b] ^ c1, 24);
    let a2 = u64_specs::wrapping_add(u64_specs::wrapping_add(a1, b1), y);
    let d2 = spec_rotr(d1 ^ a2, 16);
    let c2 = u64_specs::wrapping_add(c1, d2);
    let b2 = spec_rotr(b1 ^ c2, 63);
    v.update(a, a2).update(b, b2).update(c, c2).update(d, d2)
}

/// One round of the compression function: eight applications of G, first to
/// the four columns of the working state and then to its four diagonals,
/// consuming the message words selected by row `r` of SIGMA.
#[verifier::opaque]
pub open spec fn spec_round(r: int, m: Seq<u64>, v: Seq<u64>) -> Seq<u64>
    recommends
        0 <= r < 12,
        m.len() == 16,
        v.len() == 16,
{
    let s = SIGMA[r];
    let v1 = spec_g(v, 0, 4, 8, 12, m[s[0] as int], m[s[1] as int]);
    let v2 = spec_g(v1, 1, 5, 9, 13, m[s[2] as int], m[s[3] as int]);
    let v3 = spec_g(v2, 2, 6, 10, 14, m[s[4] as int], m[s[5] as int]);
    let v4 = spec_g(v3, 3, 7, 11, 15, m[s[6] as int], m[s[7] as int]);
    let v5 = spec_g(v4, 0, 5, 10, 15, m[s[8] as int], m[s[9] as int]);
    let v6 = spec_g(v5, 1, 6, 11, 12, m[s[10] as int], m[s[11] as int]);
    let v7 = spec_g(v6, 2, 7, 8, 13, m[s[12] as int], m[s[13] as int]);
    spec_g(v7, 3, 4, 9, 14, m[s[14] as int], m[s[15] as int])
}

/// The twelve rounds of BLAKE2b, applied in order.
pub open spec fn spec_twelve_rounds(m: Seq<u64>, v: Seq<u64>) -> Seq<u64>
    recommends
        m.len() == 16,
        v.len() == 16,
{
    let v1 = spec_round(0, m, v);
    let v2 = spec_round(1, m, v1);
    let v3 = spec_round(2, m, v2);
    let v4 = spec_round(3, m, v3);
    let v5 = spec_round(4, m, v4);
    let v6 = spec_round(5, m, v5);
    let v7 = spec_round(6, m, v6);
    let v8 = spec_round(7, m, v7);
    let v9 = spec_round(8, m, v8);
    let v10 = spec_round(9, m, v9);
    let v11 = spec_round(10, m, v10);
    spec_round(11, m, v11)
}

/// The sixteen message words of one 128-byte block, parsed little-endian.
pub open spec fn block_words(b: Seq<u8>) -> Seq<u64>
    recommends
        b.len() == 128,
{
    Seq::new(16, |i: int| spec_u64_from_le_bytes(b.subrange(8 * i, 8 * i + 8)))
}

/// Single-block compression: seeds a 16-word working state from the chain
/// value, the IV, the counter halves and the two flag masks, runs the twelve
/// rounds, and feeds both halves of the result back into the chain value by
/// XOR. `count` is the byte counter *after* this block's bytes are added.
pub open spec fn spec_compress(
    h: Seq<u64>,
    m: Seq<u64>,
    count: u128,
    last_block: u64,
    last_node: u64,
) -> Seq<u64>
    recommends
        h.len() == 8,
        m.len() == 16,
{
    let v0 = seq![
        h[0],
        h[1],
        h[2],
        h[3],
        h[4],
        h[5],
        h[6],
        h[7],
        IV[0],
        IV[1],
        IV[2],
        IV[3],
        IV[4] ^ spec_count_low(count),
        IV[5] ^ spec_count_high(count),
        IV[6] ^ last_block,
        IV[7] ^ last_node,
    ];
    let w = spec_twelve_rounds(m, v0);
    seq![
        h[0] ^ w[0] ^ w[8],
        h[1] ^ w[1] ^ w[9],
        h[2] ^ w[2] ^ w[10],
        h[3] ^ w[3] ^ w[11],
        h[4] ^ w[4] ^ w[12],
        h[5] ^ w[5] ^ w[13],
        h[6] ^ w[6] ^ w[14],
        h[7] ^ w[7] ^ w[15],
    ]
}

/// A run of `n` zero bytes.
pub open spec fn zero_bytes(n: nat) -> Seq<u8> {
    Seq::new(n, |i: int| 0u8)
}

/// Byte offset of the designated final block: the greatest multiple of the
/// padded block width `pb` that does not exceed `len - 1`; 0 for empty input.
pub open spec fn spec_fin_offset(len: nat, pb: nat) -> nat
    recommends
        1 <= pb,
{
    if len == 0 {
        0
    } else {
        ((len - 1) - ((len - 1) % (pb as int))) as nat
    }
}

/// True byte length of the final block: the input bytes from the final
/// offset on, capped at the 128-byte block width. Padding bytes are not
/// counted.
pub open spec fn spec_fin_len(len: nat, pb: nat) -> nat
    recommends
        1 <= pb,
{
    let fin = spec_fin_offset(len, pb);
    if len - fin >= 128 {
        128
    } else {
        (len - fin) as nat
    }
}

/// Contents of the final block: the true tail bytes at the final offset,
/// zero-padded to the full 128-byte block width.
pub open spec fn spec_final_block(input: Seq<u8>, pb: nat) -> Seq<u8>
    recommends
        1 <= pb,
{
    let fin = spec_fin_offset(input.len(), pb);
    let fl = spec_fin_len(input.len(), pb);
    input.subrange(fin as int, fin as int + fl as int) + zero_bytes((128 - fl) as nat)
}

/// The driver's walk from block offset `offset` on: each interior block is
/// the full 128 bytes at its offset and advances the counter by 128 with
/// both flag masks zero; the block at the final offset is the zero-padded
/// final block, advances the counter by its true byte length, and carries
/// the masks `lb` and `ln`. Returns the chain value and the counter after
/// the final compression. The counter injected into each compression
/// reflects the bytes consumed including that block.
pub open spec fn spec_blocks_from(
    input: Seq<u8>,
    h: Seq<u64>,
    count: u128,
    offset: nat,
    pb: nat,
    lb: u64,
    ln: u64,
) -> (Seq<u64>, u128)
    recommends
        h.len() == 8,
        128 <= pb,
        offset as int % pb as int == 0,
        offset <= spec_fin_offset(input.len(), pb),
    decreases spec_fin_offset(input.len(), pb) - offset,
{
    let fin = spec_fin_offset(input.len(), pb);
    if pb < 128 || offset + pb > fin {
        let c = u128_specs::wrapping_add(count, spec_fin_len(input.len(), pb) as u128);
        (spec_compress(h, block_words(spec_final_block(input, pb)), c, lb, ln), c)
    } else {
        let c = u128_specs::wrapping_add(count, 128);
        let h2 = spec_compress(
            h,
            block_words(input.subrange(offset as int, offset as int + 128)),
            c,
            0,
            0,
        );
        spec_blocks_from(input, h2, c, (offset + pb) as nat, pb, lb, ln)
    }
}

/// The multi-block driver over a whole input: walks block offsets from 0 by
/// the padded block width `pb`, compressing every block, with the last-block
/// mask set on the final block exactly when `finalize` holds and the
/// last-node mask set there exactly when both `finalize` and `last_node`
/// hold. Returns the updated chain value and the updated byte counter.
pub open spec fn spec_compress1_loop(
    input: Seq<u8>,
    h: Seq<u64>,
    count: u128,
    last_node: bool,
    finalize: bool,
    pb: nat,
) -> (Seq<u64>, u128)
    recommends
        h.len() == 8,
        128 <= pb,
{
    spec_blocks_from(
        input,
        h,
        count,
        0,
        pb,
        spec_u64_flag(finalize),
        spec_u64_flag(finalize && last_node),
    )
}

/// The counter component of the driver's walk, on its own: it depends only
/// on the input length, not on the bytes, the chain value or the flags.
pub open spec fn spec_count_from(len: nat, count: u128, offset: nat, pb: nat) -> u128
    recommends
        128 <= pb,
        offset as int % pb as int == 0,
        offset <= spec_fin_offset(len, pb),
    decreases spec_fin_offset(len, pb) - offset,
{
    let fin = spec_fin_offset(len, pb);
    if pb < 128 || offset + pb > fin {
        u128_specs::wrapping_add(count, spec_fin_len(len, pb) as u128)
    } else {
        spec_count_from(len, u128_specs::wrapping_add(count, 128), (offset + pb) as nat, pb)
    }
}

/// The byte counter after one driver invocation on an input of length `len`
/// with prior counter `count` and padded block width `pb`.
pub open spec fn spec_updated_count(len: nat, count: u128, pb: nat) -> u128
    recommends
        128 <= pb,
{
    spec_count_from(len, count, 0, pb)
}

/// Block-at-a-time description of serial hashing, structurally recursive on
/// the input: while more than one block remains, compress the first 128
/// bytes as an interior block; the last at-most-128 bytes are zero-padded
/// and compressed with the flag masks.
pub open spec fn spec_blockwise(
    input: Seq<u8>,
    h: Seq<u64>,
    count: u128,
    last_node: bool,
    finalize: bool,
) -> Seq<u64>
    recommends
        h.len() == 8,
    decreases input.len(),
{
    if input.len() > 128 {
        let c = u128_specs::wrapping_add(count, 128);
        let h2 = spec_compress(h, block_words(input.subrange(0, 128)), c, 0, 0);
        spec_blockwise(input.skip(128), h2, c, last_node, finalize)
    } else {
        let c = u128_specs::wrapping_add(count, input.len() as u128);
        spec_compress(
            h,
            block_words(input + zero_bytes((128 - input.len()) as nat)),
            c,
            spec_u64_flag(finalize),
            spec_u64_flag(finalize && last_node),
        )
    }
}

/// Placement of the final block: the final offset is a multiple of the
/// padded block width, lies within the input, and the true tail fits
/// between it and the end of the input.
pub proof fn lemma_fin_offset_facts(len: nat, pb: nat)
    requires
        1 <= pb,
    ensures
        spec_fin_offset(len, pb) as int % pb as int == 0,
        spec_fin_offset(len, pb) <= len,
        len > 0 ==> spec_fin_offset(len, pb) < len,
        spec_fin_len(len, pb) <= 128,
        spec_fin_offset(len, pb) + spec_fin_len(len, pb) <= len,
        len == 0 ==> spec_fin_offset(len, pb) == 0 && spec_fin_len(len, pb) == 0,
{
    let p = pb as int;
    if len == 0 {
        vstd::arithmetic::div_mod::lemma_small_mod(0, pb);
    } else {
        let x = (len - 1) as int;
        vstd::arithmetic::div_mod::lemma_mod_bound(x, p);
        vstd::arithmetic::div_mod::lemma_mod_decreases((len - 1) as nat, pb);
        vstd::arithmetic::div_mod::lemma_fundamental_div_mod(x, p);
        assert(x - x % p == p * (x / p));
        vstd::arithmetic::div_mod::lemma_mod_multiples_basic(x / p, p);
        assert(((x / p) * p) % p == 0);
        assert(p * (x / p) == (x / p) * p) by (nonlinear_arith);
    }
}

/// Between one block offset and the next lies a whole padded block width:
/// of two distinct multiples of `pb`, the smaller is at least `pb` below
/// the larger.
pub proof fn lemma_step_to_next_block(offset: int, fin: int, pb: int)
    requires
        1 <= pb,
        offset % pb == 0,
        fin % pb == 0,
        0 <= offset < fin,
    ensures
        offset + pb <= fin,
{
    vstd::arithmetic::div_mod::lemma_fundamental_div_mod(offset, pb);
    vstd::arithmetic::div_mod::lemma_fundamental_div_mod(fin, pb);
    let k = offset / pb;
    let q = fin / pb;
    assert(offset + pb <= fin) by (nonlinear_arith)
        requires
            1 <= pb,
            offset == pb * k,
            fin == pb * q,
            offset < fin,
    ;
}

/// Stepping one padded block width forward from a block offset lands on a
/// block offset again.
pub proof fn lemma_next_offset_aligned(offset: int, pb: int)
    requires
        1 <= pb,
        0 <= offset,
        offset % pb == 0,
    ensures
        (offset + pb) % pb == 0,
{
    vstd::arithmetic::div_mod::lemma_mod_multiples_vanish(1, offset, pb);
    assert(pb * 1 + offset == offset + pb);
}

} // verus!
