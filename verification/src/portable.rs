//! Portable executable implementation of the BLAKE2b compression core,
//! verified against the model: the G mixing primitive, the round function,
//! single-block compression, and the multi-block driver loop.

use vstd::prelude::*;
use vstd::slice::slice_subrange;

use crate::consts::lemma_sigma_in_bounds;
use crate::consts::BLOCKBYTES;
use crate::consts::IV;
use crate::consts::SIGMA;
use crate::model::block_words;
use crate::model::lemma_fin_offset_facts;
use crate::model::lemma_next_offset_aligned;
use crate::model::lemma_step_to_next_block;
use crate::model::spec_blocks_from;
use crate::model::spec_compress;
use crate::model::spec_compress1_loop;
use crate::model::spec_count_from;
use crate::model::spec_fin_len;
use crate::model::spec_fin_offset;
use crate::model::spec_final_block;
use crate::model::spec_g;
use crate::model::spec_round;
use crate::model::spec_rotr;
use crate::model::spec_u64_flag;
use crate::model::spec_updated_count;

verus! {

/// Spacing between consecutive blocks of one lane, as a multiple of the
/// 128-byte block width: 1 for a single-lane caller, more for callers that
/// interleave the blocks of several lanes in one buffer.
#[derive(Clone, Copy)]
pub struct Stride {
    padded: usize,
}

impl Stride {
    /// The byte distance between consecutive blocks of this lane.
    pub closed spec fn spec_padded_blockbytes(self) -> nat {
        self.padded as nat
    }

    /// A stride is well formed when its padded block width is a positive
    /// multiple of the 128-byte block width.
    pub open spec fn wf(self) -> bool {
        128 <= self.spec_padded_blockbytes() && self.spec_padded_blockbytes() % 128 == 0
    }

    /// The single-lane stride: one block width.
    pub fn serial() -> (s: Stride)
        ensures
            s.wf(),
            s.spec_padded_blockbytes() == 128,
    {
        Stride { padded: 128 }
    }

    /// The stride of one lane among `lanes` interleaved lanes; `None` when
    /// `lanes` is zero or the padded width would not fit in `usize`.
    pub fn interleaved(lanes: usize) -> (s: Option<Stride>)
        ensures
            (1 <= lanes && lanes <= usize::MAX / 128) <==> s is Some,
            s matches Some(st) ==> st.wf() && st.spec_padded_blockbytes() == lanes * 128,
    {
        if 1 <= lanes && lanes <= usize::MAX / 128 {
            Some(Stride { padded: lanes * BLOCKBYTES })
        } else {
            None
        }
    }

    /// The byte distance between consecutive blocks of this lane.
    pub fn padded_blockbytes(&self) -> (n: usize)
        ensures
            n == self.spec_padded_blockbytes(),
    {
        self.padded
    }
}

/// Boolean-to-mask flag encoding: true becomes the all-ones 64-bit word,
/// false becomes zero.
pub fn u64_flag(b: bool) -> (r: u64)
    ensures
        r == spec_u64_flag(b),
{
    if b {
        0xffff_ffff_ffff_ffff
    } else {
        0
    }
}

/// Right rotation of a 64-bit word.
fn rotr(x: u64, n: u64) -> (r: u64)
    requires
        0 < n < 64,
    ensures
        r == spec_rotr(x, n),
{
    (x >> n) | (x << (64 - n))
}

/// The G mixing primitive: the atomic diffusion step over four distinct
/// slots of the 16-word working state and two message words, in the exact
/// order and with the exact rotation distances (32, 24, 16, 63) that
/// interoperability requires.
pub fn g(v: &mut [u64; 16], a: usize, b: usize, c: usize, d: usize, x: u64, y: u64)
    requires
        a < 16,
        b < 16,
        c < 16,
        d < 16,
        a != b,
        a != c,
        a != d,
        b != c,
        b != d,
        c != d,
    ensures
        final(v)@ == spec_g(old(v)@, a as int, b as int, c as int, d as int, x, y),
{
    v[a] = v[a].wrapping_add(v[b]).wrapping_add(x);
    v[d] = rotr(v[d] ^ v[a], 32);
    v[c] = v[c].wrapping_add(v[d]);
    v[b] = rotr(v[b] ^ v[c], 24);
    v[a] = v[a].wrapping_add(v[b]).wrapping_add(y);
    v[d] = rotr(v[d] ^ v[a], 16);
    v[c] = v[c].wrapping_add(v[d]);
    v[b] = rotr(v[b] ^ v[c], 63);
    proof {
        reveal(spec_g);
        assert(v@ =~= spec_g(old(v)@, a as int, b as int, c as int, d as int, x, y));
    }
}

/// One round of the compression function: G applied to the four columns of
/// the working state and then to its four diagonals, consuming the message
/// words selected by row `r` of SIGMA.
pub fn round(r: usize, m: &[u64; 16], v: &mut [u64; 16])
    requires
        r < 12,
    ensures
        final(v)@ == spec_round(r as int, m@, old(v)@),
{
    proof {
        lemma_sigma_in_bounds();
        reveal(spec_round);
    }
    let s = SIGMA[r];

    // Mix the columns.
    g(v, 0, 4, 8, 12, m[s[0]], m[s[1]]);
    g(v, 1, 5, 9, 13, m[s[2]], m[s[3]]);
    g(v, 2, 6, 10, 14, m[s[4]], m[s[5]]);
    g(v, 3, 7, 11, 15, m[s[6]], m[s[7]]);

    // Mix the diagonals.
    g(v, 0, 5, 10, 15, m[s[8]], m[s[9]]);
    g(v, 1, 6, 11, 12, m[s[10]], m[s[11]]);
    g(v, 2, 7, 8, 13, m[s[12]], m[s[13]]);
    g(v, 3, 4, 9, 14, m[s[14]], m[s[15]]);
}

/// Relies on byteorder's `LittleEndian::read_u64`: the eight bytes of the
/// slice, read as one unsigned 64-bit little-endian integer.
#[verifier::external_body]
fn read_u64_le(bytes: &[u8]) -> (r: u64)
    requires
        bytes@.len() == 8,
    ensures
        r == vstd::bytes::spec_u64_from_le_bytes(bytes@),
{
    <byteorder::LittleEndian as byteorder::ByteOrder>::read_u64(bytes)
}

/// Single-block compression: seeds the 16-word working state from the chain
/// value `words`, the IV, the two counter halves and the two flag masks,
/// parses the 128-byte block into sixteen little-endian message words, runs
/// the twelve rounds, and XORs both halves of the working state back into
/// the chain value. `count` is the byte counter *after* this block's bytes
/// are added.
pub fn compress_block(
    block: &[u8],
    words: &mut [u64; 8],
    count: u128,
    last_block: u64,
    last_node: u64,
)
    requires
        block@.len() == BLOCKBYTES,
    ensures
        final(words)@ == spec_compress(old(words)@, block_words(block@), count, last_block, last_node),
{
    let lo: u64 = #[verifier::truncate] (count as u64);
    let hi: u64 = #[verifier::truncate] ((count >> 64) as u64);

    // Initialize the working state.
    let mut v: [u64; 16] = [
        words[0],
        words[1],
        words[2],
        words[3],
        words[4],
        words[5],
        words[6],
        words[7],
        IV[0],
        IV[1],
        IV[2],
        IV[3],
        IV[4] ^ lo,
        IV[5] ^ hi,
        IV[6] ^ last_block,
        IV[7] ^ last_node,
    ];

    // Parse the message bytes as integers in little-endian order.
    let m: [u64; 16] = [
        read_u64_le(slice_subrange(block, 0, 8)),
        read_u64_le(slice_subrange(block, 8, 16)),
        read_u64_le(slice_subrange(block, 16, 24)),
        read_u64_le(slice_subrange(block, 24, 32)),
        read_u64_le(slice_subrange(block, 32, 40)),
        read_u64_le(slice_subrange(block, 40, 48)),
        read_u64_le(slice_subrange(block, 48, 56)),
        read_u64_le(slice_subrange(block, 56, 64)),
        read_u64_le(slice_subrange(block, 64, 72)),
        read_u64_le(slice_subrange(block, 72, 80)),
        read_u64_le(slice_subrange(block, 80, 88)),
        read_u64_le(slice_subrange(block, 88, 96)),
        read_u64_le(slice_subrange(block, 96, 104)),
        read_u64_le(slice_subrange(block, 104, 112)),
        read_u64_le(slice_subrange(block, 112, 120)),
        read_u64_le(slice_subrange(block, 120, 128)),
    ];
    proof {
        assert(m@ =~= block_words(block@));
    }

    round(0, &m, &mut v);
    round(1, &m, &mut v);
    round(2, &m, &mut v);
    round(3, &m, &mut v);
    round(4, &m, &mut v);
    round(5, &m, &mut v);
    round(6, &m, &mut v);
    round(7, &m, &mut v);
    round(8, &m, &mut v);
    round(9, &m, &mut v);
    round(10, &m, &mut v);
    round(11, &m, &mut v);

    // Feed both halves of the working state back into the chain value.
    words[0] = words[0] ^ v[0] ^ v[8];
    words[1] = words[1] ^ v[1] ^ v[9];
    words[2] = words[2] ^ v[2] ^ v[10];
    words[3] = words[3] ^ v[3] ^ v[11];
    words[4] = words[4] ^ v[4] ^ v[12];
    words[5] = words[5] ^ v[5] ^ v[13];
    words[6] = words[6] ^ v[6] ^ v[14];
    words[7] = words[7] ^ v[7] ^ v[15];
    proof {
        assert(words@ =~= spec_compress(
            old(words)@,
            block_words(block@),
            count,
            last_block,
            last_node,
        ));
    }
}

/// The multi-block driver: folds the whole input buffer into the chain value
/// `words`, walking block offsets from 0 by the stride's padded block width.
/// `count` is the byte counter before this call; every interior block
/// advances it by 128, the final block by its true byte length only, and the
/// counter injected into each compression reflects the bytes consumed
/// including that block. The flag masks are asserted on exactly one
/// compression, the one at the final offset: the last-block mask when
/// `finalize` holds, the last-node mask when `finalize` and `last_node`
/// both hold. Exactly one compression of a zero-padded block occurs when the
/// input is empty.
#[verifier::loop_isolation(false)]
pub fn compress1_loop(
    input: &[u8],
    words: &mut [u64; 8],
    count: u128,
    last_node: bool,
    finalize: bool,
    stride: Stride,
)
    requires
        stride.wf(),
        input@.len() > 0 || finalize,
    ensures
        final(words)@ == spec_compress1_loop(
            input@,
            old(words)@,
            count,
            last_node,
            finalize,
            stride.spec_padded_blockbytes(),
        ).0,
{
    let pb = stride.padded_blockbytes();
    let len = input.len();
    let ghost pbn = pb as nat;
    proof {
        lemma_fin_offset_facts(len as nat, pbn);
    }

    // The greatest multiple of the padded block width not exceeding
    // max(len - 1, 0).
    let mut fin_offset: usize = if len == 0 {
        0
    } else {
        len - 1
    };
    proof {
        vstd::arithmetic::div_mod::lemma_mod_decreases(fin_offset as nat, pb as nat);
    }
    fin_offset = fin_offset - fin_offset % pb;
    assert(fin_offset == spec_fin_offset(input@.len(), pbn));

    // The true byte length of the final block; padding never advances the
    // counter.
    let fin_len: usize = if len - fin_offset >= BLOCKBYTES {
        BLOCKBYTES
    } else {
        len - fin_offset
    };
    assert(fin_len == spec_fin_len(input@.len(), pbn));

    // Zero-pad the true tail bytes into the final block buffer.
    let mut buf = [0u8; 128];
    let mut i: usize = 0;
    while i < fin_len
        invariant
            i <= fin_len,
            fin_len == spec_fin_len(input@.len(), pbn),
            fin_offset == spec_fin_offset(input@.len(), pbn),
            fin_offset + fin_len <= input@.len(),
            forall|j: int| 0 <= j < i ==> buf@[j] == input@[fin_offset + j],
            forall|j: int| i <= j < 128 ==> buf@[j] == 0,
        decreases fin_len - i,
    {
        buf[i] = input[fin_offset + i];
        i = i + 1;
    }
    proof {
        assert(buf@ =~= spec_final_block(input@, pbn));
    }

    let fin_last_block = u64_flag(finalize);
    let fin_last_node = u64_flag(finalize && last_node);
    let ghost goal = spec_compress1_loop(input@, old(words)@, count, last_node, finalize, pbn);

    let mut offset: usize = 0;
    let mut c = count;
    while offset != fin_offset
        invariant
            stride.wf(),
            pb == stride.spec_padded_blockbytes(),
            fin_offset == spec_fin_offset(input@.len(), pbn),
            fin_offset as int % pb as int == 0,
            offset as int % pb as int == 0,
            offset <= fin_offset,
            fin_offset + spec_fin_len(input@.len(), pbn) <= input@.len(),
            fin_len == spec_fin_len(input@.len(), pbn),
            buf@ == spec_final_block(input@, pbn),
            fin_last_block == spec_u64_flag(finalize),
            fin_last_node == spec_u64_flag(finalize && last_node),
            spec_blocks_from(
                input@,
                words@,
                c,
                offset as nat,
                pbn,
                fin_last_block,
                fin_last_node,
            ) == goal,
        decreases fin_offset - offset,
    {
        proof {
            lemma_step_to_next_block(offset as int, fin_offset as int, pb as int);
            lemma_next_offset_aligned(offset as int, pb as int);
        }
        let ghost words_pre = words@;
        let ghost c_pre = c;
        let block = slice_subrange(input, offset, offset + BLOCKBYTES);
        c = c.wrapping_add(128);
        compress_block(block, words, c, 0, 0);
        proof {
            assert(spec_blocks_from(
                input@,
                words_pre,
                c_pre,
                offset as nat,
                pbn,
                fin_last_block,
                fin_last_node,
            ) == spec_blocks_from(
                input@,
                words@,
                c,
                (offset + pb) as nat,
                pbn,
                fin_last_block,
                fin_last_node,
            ));
        }
        offset = offset + pb;
    }

    let ghost words_pre = words@;
    let ghost c_pre = c;
    c = c.wrapping_add(fin_len as u128);
    compress_block(buf.as_slice(), words, c, fin_last_block, fin_last_node);
    proof {
        assert(spec_blocks_from(
            input@,
            words_pre,
            c_pre,
            offset as nat,
            pbn,
            fin_last_block,
            fin_last_node,
        ).0 == words@);
    }
}

/// The byte counter handed back to the caller after one driver invocation
/// over `input`: advanced by 128 for every interior block and by the final
/// block's true byte length, never by padding.
#[verifier::loop_isolation(false)]
pub fn updated_count(input: &[u8], count: u128, stride: Stride) -> (c: u128)
    requires
        stride.wf(),
    ensures
        c == spec_updated_count(input@.len(), count, stride.spec_padded_blockbytes()),
{
    let pb = stride.padded_blockbytes();
    let len = input.len();
    let ghost pbn = pb as nat;
    proof {
        lemma_fin_offset_facts(len as nat, pbn);
    }

    let mut fin_offset: usize = if len == 0 {
        0
    } else {
        len - 1
    };
    proof {
        vstd::arithmetic::div_mod::lemma_mod_decreases(fin_offset as nat, pb as nat);
    }
    fin_offset = fin_offset - fin_offset % pb;
    assert(fin_offset == spec_fin_offset(input@.len(), pbn));

    let fin_len: usize = if len - fin_offset >= BLOCKBYTES {
        BLOCKBYTES
    } else {
        len - fin_offset
    };
    assert(fin_len == spec_fin_len(input@.len(), pbn));

    let mut offset: usize = 0;
    let mut c = count;
    while offset != fin_offset
        invariant
            128 <= pb,
            fin_offset == spec_fin_offset(input@.len(), pbn),
            fin_offset as int % pb as int == 0,
            offset as int % pb as int == 0,
            offset <= fin_offset,
            fin_offset < input@.len() || input@.len() == 0,
            fin_len == spec_fin_len(input@.len(), pbn),
            spec_count_from(input@.len(), c, offset as nat, pbn) == spec_updated_count(
                input@.len(),
                count,
                pbn,
            ),
        decreases fin_offset - offset,
    {
        proof {
            lemma_step_to_next_block(offset as int, fin_offset as int, pb as int);
            lemma_next_offset_aligned(offset as int, pb as int);
        }
        let ghost c_pre = c;
        c = c.wrapping_add(128);
        proof {
            assert(spec_count_from(input@.len(), c_pre, offset as nat, pbn) == spec_count_from(
                input@.len(),
                c,
                (offset + pb) as nat,
                pbn,
            ));
        }
        offset = offset + pb;
    }

    c.wrapping_add(fin_len as u128)
}

} // verus!
