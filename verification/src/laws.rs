//! Laws of the compression core, each proved against the model: the byte
//! counter totals, the empty-input behavior, determinism, equivalence of the
//! driver's offset-stepping loop with block-at-a-time compression, and
//! incremental (split) hashing.

use vstd::prelude::*;
use vstd::wrapping::u128_specs;

use crate::model::block_words;
use crate::model::lemma_fin_offset_facts;
use crate::model::lemma_next_offset_aligned;
use crate::model::lemma_step_to_next_block;
use crate::model::spec_blocks_from;
use crate::model::spec_compress;
use crate::model::spec_compress1_loop;
use crate::model::spec_count_from;
use crate::model::spec_fin_len;
use crate::model::spec_fin_offset;
use crate::model::spec_final_block;
use crate::model::spec_blockwise;
use crate::model::spec_u64_flag;
use crate::model::spec_updated_count;
use crate::model::zero_bytes;

verus! {

/// Two wraparound additions collapse into one when the two summands
/// together fit in 128 bits.
proof fn lemma_wadd_chain(c: u128, a: u128, b: u128)
    requires
        a + b <= u128::MAX,
    ensures
        u128_specs::wrapping_add(u128_specs::wrapping_add(c, a), b) == u128_specs::wrapping_add(
            c,
            (a + b) as u128,
        ),
{
}

/// The counter component of the driver's walk depends only on the input
/// length: not on the input bytes, the chain value, or the flag masks.
pub proof fn lemma_blocks_count(
    input: Seq<u8>,
    h: Seq<u64>,
    count: u128,
    offset: nat,
    pb: nat,
    lb: u64,
    ln: u64,
)
    ensures
        spec_blocks_from(input, h, count, offset, pb, lb, ln).1 == spec_count_from(
            input.len(),
            count,
            offset,
            pb,
        ),
    decreases spec_fin_offset(input.len(), pb) - offset,
{
    let fin = spec_fin_offset(input.len(), pb);
    if !(pb < 128 || offset + pb > fin) {
        let c2 = u128_specs::wrapping_add(count, 128);
        let h2 = spec_compress(
            h,
            block_words(input.subrange(offset as int, offset as int + 128)),
            c2,
            0,
            0,
        );
        lemma_blocks_count(input, h2, c2, (offset + pb) as nat, pb, lb, ln);
    }
}

/// The counter the driver hands back is `spec_updated_count`, for every
/// stride and every flag setting.
pub proof fn lemma_updated_count_matches_driver(
    input: Seq<u8>,
    h: Seq<u64>,
    count: u128,
    last_node: bool,
    finalize: bool,
    pb: nat,
)
    ensures
        spec_compress1_loop(input, h, count, last_node, finalize, pb).1 == spec_updated_count(
            input.len(),
            count,
            pb,
        ),
{
    lemma_blocks_count(
        input,
        h,
        count,
        0,
        pb,
        spec_u64_flag(finalize),
        spec_u64_flag(finalize && last_node),
    );
}

/// From any block offset on, serial hashing advances the counter by exactly
/// the remaining input bytes.
proof fn lemma_count_from_serial(len: nat, count: u128, offset: nat)
    requires
        len <= u128::MAX,
        offset as int % 128 == 0,
        offset <= spec_fin_offset(len, 128),
    ensures
        spec_count_from(len, count, offset, 128) == u128_specs::wrapping_add(
            count,
            (len - offset) as u128,
        ),
    decreases spec_fin_offset(len, 128) - offset,
{
    let fin = spec_fin_offset(len, 128);
    lemma_fin_offset_facts(len, 128);
    if offset + 128 > fin {
        if offset < fin {
            lemma_step_to_next_block(offset as int, fin as int, 128);
        }
        assert(offset == fin);
        if len > 0 {
            vstd::arithmetic::div_mod::lemma_mod_bound((len - 1) as int, 128);
        }
        assert(spec_fin_len(len, 128) == len - offset);
    } else {
        lemma_next_offset_aligned(offset as int, 128);
        let c2 = u128_specs::wrapping_add(count, 128);
        lemma_count_from_serial(len, c2, (offset + 128) as nat);
        lemma_wadd_chain(count, 128, (len - offset - 128) as u128);
    }
}

/// Counter correctness for serial hashing: the counter after the final
/// compression is the prior counter plus the true number of input bytes —
/// zero padding of the final block is never counted.
pub proof fn lemma_serial_counter(
    input: Seq<u8>,
    h: Seq<u64>,
    count: u128,
    last_node: bool,
    finalize: bool,
)
    requires
        input.len() <= u128::MAX,
    ensures
        spec_compress1_loop(input, h, count, last_node, finalize, 128).1 == u128_specs::wrapping_add(
            count,
            input.len() as u128,
        ),
{
    lemma_updated_count_matches_driver(input, h, count, last_node, finalize, 128);
    lemma_fin_offset_facts(input.len(), 128);
    lemma_count_from_serial(input.len(), count, 0);
}

/// Zero-length behavior: finalizing an empty input triggers exactly one
/// compression, of an all-zero block, with the last-block mask set and the
/// counter unchanged.
pub proof fn lemma_empty_input(h: Seq<u64>, count: u128, last_node: bool, pb: nat)
    requires
        128 <= pb,
    ensures
        spec_compress1_loop(Seq::<u8>::empty(), h, count, last_node, true, pb).0 == spec_compress(
            h,
            block_words(zero_bytes(128)),
            count,
            0xffff_ffff_ffff_ffff,
            spec_u64_flag(last_node),
        ),
        spec_compress1_loop(Seq::<u8>::empty(), h, count, last_node, true, pb).1 == count,
{
    assert(spec_final_block(Seq::<u8>::empty(), pb) =~= zero_bytes(128));
}

/// Determinism: the chain value and counter that one driver invocation
/// produces are a function of its arguments alone — two invocations on
/// identical inputs yield bit-identical results, and the IV and SIGMA
/// constants never change between calls.
pub proof fn lemma_deterministic(
    input1: Seq<u8>,
    input2: Seq<u8>,
    h1: Seq<u64>,
    h2: Seq<u64>,
    count1: u128,
    count2: u128,
    last_node1: bool,
    last_node2: bool,
    finalize1: bool,
    finalize2: bool,
    pb1: nat,
    pb2: nat,
)
    requires
        input1 == input2,
        h1 == h2,
        count1 == count2,
        last_node1 == last_node2,
        finalize1 == finalize2,
        pb1 == pb2,
    ensures
        spec_compress1_loop(input1, h1, count1, last_node1, finalize1, pb1)
            == spec_compress1_loop(input2, h2, count2, last_node2, finalize2, pb2),
{
}

/// Dropping a whole number of leading blocks off the input shifts the
/// driver's walk without changing it: from block offset `offset`, walking
/// `input` is the same as walking `input` less its first `p` bytes from
/// block offset `offset - p`.
proof fn lemma_skip_block(
    input: Seq<u8>,
    h: Seq<u64>,
    c: u128,
    lb: u64,
    ln: u64,
    p: nat,
    offset: nat,
)
    requires
        p as int % 128 == 0,
        0 < p <= offset,
        offset as int % 128 == 0,
        offset <= spec_fin_offset(input.len(), 128),
    ensures
        spec_blocks_from(input, h, c, offset, 128, lb, ln) == spec_blocks_from(
            input.skip(p as int),
            h,
            c,
            (offset - p) as nat,
            128,
            lb,
            ln,
        ),
    decreases spec_fin_offset(input.len(), 128) - offset,
{
    let len = input.len();
    let fin = spec_fin_offset(len, 128);
    lemma_fin_offset_facts(len, 128);
    assert(p < len);
    let len2 = (len - p) as nat;
    let fin2 = spec_fin_offset(len2, 128);

    // The final offset of the suffix sits exactly `p` bytes earlier.
    let pi = p as int;
    vstd::arithmetic::div_mod::lemma_fundamental_div_mod(pi, 128);
    assert(pi == 128 * (pi / 128));
    vstd::arithmetic::div_mod::lemma_mod_multiples_vanish(-(pi / 128), len as int - 1, 128);
    assert(128 * (-(pi / 128)) == -(128 * (pi / 128)));
    assert((len as int - 1 - pi) % 128 == (len as int - 1) % 128);
    assert(fin2 == fin - p);
    assert(spec_fin_len(len2, 128) == spec_fin_len(len, 128));

    if offset + 128 > fin {
        if offset < fin {
            lemma_step_to_next_block(offset as int, fin as int, 128);
        }
        assert(offset == fin);
        assert(spec_final_block(input.skip(pi), 128) =~= spec_final_block(input, 128));
    } else {
        lemma_next_offset_aligned(offset as int, 128);
        assert(input.skip(pi).subrange((offset - p) as int, (offset - p) as int + 128)
            =~= input.subrange(offset as int, offset as int + 128));
        let c2 = u128_specs::wrapping_add(c, 128);
        let h2 = spec_compress(
            h,
            block_words(input.subrange(offset as int, offset as int + 128)),
            c2,
            0,
            0,
        );
        lemma_skip_block(input, h2, c2, lb, ln, p, (offset + 128) as nat);
    }
}

/// Stride equivalence, serial case: the driver's own offset-stepping walk
/// with stride equal to one block width produces the same chain value as
/// compressing the blocks one at a time — every full leading block as an
/// interior block, then the zero-padded tail with the flag masks.
pub proof fn lemma_driver_matches_blockwise(
    input: Seq<u8>,
    h: Seq<u64>,
    count: u128,
    last_node: bool,
    finalize: bool,
)
    ensures
        spec_compress1_loop(input, h, count, last_node, finalize, 128).0 == spec_blockwise(
            input,
            h,
            count,
            last_node,
            finalize,
        ),
    decreases input.len(),
{
    let len = input.len();
    let fin = spec_fin_offset(len, 128);
    lemma_fin_offset_facts(len, 128);
    if len <= 128 {
        if len > 0 {
            vstd::arithmetic::div_mod::lemma_small_mod((len - 1) as nat, 128);
        }
        assert(fin == 0);
        assert(spec_fin_len(len, 128) == len);
        assert(spec_final_block(input, 128) =~= input + zero_bytes((128 - len) as nat));
    } else {
        vstd::arithmetic::div_mod::lemma_mod_bound(len as int - 1, 128);
        assert(fin >= len - 128);
        if fin < 128 {
            vstd::arithmetic::div_mod::lemma_small_mod(fin, 128);
        }
        assert(fin >= 128);
        let c2 = u128_specs::wrapping_add(count, 128);
        let h2 = spec_compress(h, block_words(input.subrange(0, 128)), c2, 0, 0);
        lemma_skip_block(
            input,
            h2,
            c2,
            spec_u64_flag(finalize),
            spec_u64_flag(finalize && last_node),
            128,
            128,
        );
        lemma_driver_matches_blockwise(input.skip(128), h2, c2, last_node, finalize);
    }
}

/// Splitting the block-at-a-time description at a block boundary: hashing
/// the whole input equals hashing the first `p` bytes without finalizing,
/// then hashing the rest from the advanced counter.
proof fn lemma_blockwise_split(
    input: Seq<u8>,
    h: Seq<u64>,
    count: u128,
    last_node: bool,
    finalize: bool,
    p: nat,
)
    requires
        p as int % 128 == 0,
        0 < p < input.len(),
        input.len() <= u128::MAX,
    ensures
        spec_blockwise(input, h, count, last_node, finalize) == spec_blockwise(
            input.skip(p as int),
            spec_blockwise(input.take(p as int), h, count, last_node, false),
            u128_specs::wrapping_add(count, p as u128),
            last_node,
            finalize,
        ),
    decreases p,
{
    let c2 = u128_specs::wrapping_add(count, 128);
    let first_block = input.subrange(0, 128);
    let h2 = spec_compress(h, block_words(first_block), c2, 0, 0);
    if p == 128 {
        // The prefix is one full block, compressed with zero masks and the
        // counter advanced by its full 128 bytes — exactly the interior step
        // that the whole-input description takes first.
        assert(input.take(128) + zero_bytes(0) =~= first_block);
    } else {
        vstd::arithmetic::div_mod::lemma_mod_sub_multiples_vanish(p as int, 128);
        assert(input.take(p as int).subrange(0, 128) =~= first_block);
        assert(input.take(p as int).skip(128) =~= input.skip(128).take(p as int - 128));
        lemma_blockwise_split(input.skip(128), h2, c2, last_node, finalize, (p - 128) as nat);
        assert(input.skip(128).skip(p as int - 128) =~= input.skip(p as int));
        lemma_wadd_chain(count, 128, (p - 128) as u128);
    }
}

/// Incremental equivalence, serial case: hashing an input in one driver
/// call equals hashing any whole-block prefix without finalizing and then
/// hashing the remainder in a second call that starts from the chain value
/// and counter the first call produced.
pub proof fn lemma_incremental_split(
    input: Seq<u8>,
    h: Seq<u64>,
    count: u128,
    last_node: bool,
    finalize: bool,
    p: nat,
)
    requires
        p as int % 128 == 0,
        0 < p < input.len(),
        input.len() <= u128::MAX,
    ensures
        ({
            let first = spec_compress1_loop(input.take(p as int), h, count, last_node, false, 128);
            spec_compress1_loop(input, h, count, last_node, finalize, 128).0
                == spec_compress1_loop(
                input.skip(p as int),
                first.0,
                first.1,
                last_node,
                finalize,
                128,
            ).0
        }),
{
    let first = spec_compress1_loop(input.take(p as int), h, count, last_node, false, 128);
    lemma_serial_counter(input.take(p as int), h, count, last_node, false);
    assert(first.1 == u128_specs::wrapping_add(count, p as u128));
    lemma_driver_matches_blockwise(input, h, count, last_node, finalize);
    lemma_driver_matches_blockwise(input.take(p as int), h, count, last_node, false);
    lemma_driver_matches_blockwise(input.skip(p as int), first.0, first.1, last_node, finalize);
    lemma_blockwise_split(input, h, count, last_node, finalize, p);
}

} // verus!
