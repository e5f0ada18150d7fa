//! Behavioral tests of the driver: incremental equivalence, counter
//! correctness, zero-length behavior, avalanche, determinism, and stride
//! equivalence, each on concrete inputs.

use blake2b_core::consts::BLOCKBYTES;
use blake2b_core::consts::IV;
use blake2b_core::portable::compress1_loop;
use blake2b_core::portable::compress_block;
use blake2b_core::portable::u64_flag;
use blake2b_core::portable::updated_count;
use blake2b_core::portable::Stride;

fn initial_state() -> [u64; 8] {
    let mut h = IV;
    h[0] ^= 0x0101_0040;
    h
}

/// A deterministic pseudo-random byte pattern for test inputs.
fn test_input(len: usize) -> Vec<u8> {
    let mut v = Vec::with_capacity(len);
    let mut x: u32 = 0x9e37_79b9;
    for _ in 0..len {
        x = x.wrapping_mul(1_664_525).wrapping_add(1_013_904_223);
        v.push((x >> 24) as u8);
    }
    v
}

#[test]
fn incremental_equivalence() {
    // One driver call over 300 bytes equals a call on the first 256 bytes
    // without finalizing, then a call on the remaining 44 bytes that starts
    // from the chain value and counter the first call produced.
    let input = test_input(300);

    let mut whole = initial_state();
    compress1_loop(&input, &mut whole, 0, false, true, Stride::serial());

    let mut split = initial_state();
    compress1_loop(&input[..256], &mut split, 0, false, false, Stride::serial());
    let mid_count = updated_count(&input[..256], 0, Stride::serial());
    assert_eq!(mid_count, 256);
    compress1_loop(&input[256..], &mut split, mid_count, false, true, Stride::serial());

    assert_eq!(whole, split);
}

#[test]
fn incremental_equivalence_every_block_boundary() {
    // The same split equivalence at each interior block boundary of a
    // 4.5-block input.
    let input = test_input(576);
    let mut whole = initial_state();
    compress1_loop(&input, &mut whole, 0, false, true, Stride::serial());

    for blocks in 1..=4usize {
        let p = blocks * BLOCKBYTES;
        let mut split = initial_state();
        compress1_loop(&input[..p], &mut split, 0, false, false, Stride::serial());
        compress1_loop(&input[p..], &mut split, p as u128, false, true, Stride::serial());
        assert_eq!(whole, split, "split at {} bytes", p);
    }
}

#[test]
fn counter_totals_300_bytes() {
    // With 128-byte blocks the counter after the final compression of a
    // 300-byte input is exactly 300: two interior blocks and a 44-byte tail.
    let input = test_input(300);
    assert_eq!(updated_count(&input, 0, Stride::serial()), 300);
    // Padding never advances the counter, and a prior counter is carried.
    assert_eq!(updated_count(&input, 1000, Stride::serial()), 1300);
    // Empty input leaves the counter unchanged.
    assert_eq!(updated_count(&[], 7, Stride::serial()), 7);
}

#[test]
fn counter_totals_strided() {
    // With two interleaved lanes (256-byte spacing), one lane of a 300-byte
    // buffer owns the full block at offset 0 and the 44-byte tail at offset
    // 256: the counter advances by 128 + 44.
    let stride = Stride::interleaved(2).unwrap();
    let input = test_input(300);
    assert_eq!(updated_count(&input, 0, stride), 172);
}

#[test]
fn zero_length_finalize() {
    // finalize=true on empty input performs exactly one compression of an
    // all-zero block with the last-block mask set and the counter unchanged.
    let mut driver = initial_state();
    compress1_loop(&[], &mut driver, 0, false, true, Stride::serial());

    let mut manual = initial_state();
    compress_block(&[0u8; 128], &mut manual, 0, u64_flag(true), u64_flag(false));

    assert_eq!(driver, manual);
}

#[test]
fn avalanche() {
    // Flipping any single input bit changes (with overwhelming probability)
    // every word of the chain value.
    let input = test_input(16);
    let mut base = initial_state();
    compress1_loop(&input, &mut base, 0, false, true, Stride::serial());

    for byte in 0..input.len() {
        for bit in 0..8 {
            let mut flipped = input.clone();
            flipped[byte] ^= 1u8 << bit;
            let mut h = initial_state();
            compress1_loop(&flipped, &mut h, 0, false, true, Stride::serial());
            for word in 0..8 {
                assert_ne!(
                    h[word], base[word],
                    "word {} unchanged after flipping bit {} of byte {}",
                    word, bit, byte
                );
            }
        }
    }
}

#[test]
fn determinism() {
    // Repeated invocation with identical inputs yields bit-identical chain
    // values, and the IV constant is never mutated by calls.
    let input = test_input(577);
    let iv_before = IV;
    let mut first = initial_state();
    compress1_loop(&input, &mut first, 42, true, true, Stride::serial());
    let mut second = initial_state();
    compress1_loop(&input, &mut second, 42, true, true, Stride::serial());
    assert_eq!(first, second);
    assert_eq!(IV, iv_before);
}

#[test]
fn stride_equivalence_serial() {
    // Driving the blocks manually one by one, with stride equal to one
    // block width, matches the driver's own offset-stepping loop.
    let input = test_input(300);
    let mut driver = initial_state();
    compress1_loop(&input, &mut driver, 0, false, true, Stride::serial());

    let mut manual = initial_state();
    let mut count: u128 = 0;
    count += 128;
    compress_block(&input[0..128], &mut manual, count, 0, 0);
    count += 128;
    compress_block(&input[128..256], &mut manual, count, 0, 0);
    let mut tail = [0u8; 128];
    tail[..44].copy_from_slice(&input[256..300]);
    count += 44;
    compress_block(&tail, &mut manual, count, u64_flag(true), u64_flag(false));

    assert_eq!(driver, manual);
    assert_eq!(count, 300);
}

#[test]
fn stride_equivalence_interleaved() {
    // With two interleaved lanes, one lane's blocks lie 256 bytes apart:
    // the driver compresses the full block at offset 0 and the zero-padded
    // tail at offset 256, skipping the other lane's block in between.
    let stride = Stride::interleaved(2).unwrap();
    let input = test_input(300);
    let mut driver = initial_state();
    compress1_loop(&input, &mut driver, 0, false, true, stride);

    let mut manual = initial_state();
    compress_block(&input[0..128], &mut manual, 128, 0, 0);
    let mut tail = [0u8; 128];
    tail[..44].copy_from_slice(&input[256..300]);
    compress_block(&tail, &mut manual, 172, u64_flag(true), u64_flag(false));

    assert_eq!(driver, manual);
}

#[test]
fn last_node_mask_only_with_finalize() {
    // The last-node flag matters only on the block that is also the last
    // block: without finalize, last_node does not change the outcome.
    let input = test_input(200);
    let mut plain = initial_state();
    compress1_loop(&input, &mut plain, 0, false, false, Stride::serial());
    let mut marked = initial_state();
    compress1_loop(&input, &mut marked, 0, true, false, Stride::serial());
    assert_eq!(plain, marked);

    // With finalize, the last-node mask changes the final compression.
    let mut fin_plain = initial_state();
    compress1_loop(&input, &mut fin_plain, 0, false, true, Stride::serial());
    let mut fin_marked = initial_state();
    compress1_loop(&input, &mut fin_marked, 0, true, true, Stride::serial());
    assert_ne!(fin_plain, fin_marked);
}

#[test]
fn exact_multiple_lengths() {
    // When the input is an exact multiple of the block width, the last full
    // block is the final block: it carries the flag masks and the counter
    // ends at the true length.
    let input = test_input(128);
    let mut driver = initial_state();
    compress1_loop(&input, &mut driver, 0, false, true, Stride::serial());
    let mut manual = initial_state();
    compress_block(&input, &mut manual, 128, u64_flag(true), u64_flag(false));
    assert_eq!(driver, manual);

    let input = test_input(256);
    let mut driver = initial_state();
    compress1_loop(&input, &mut driver, 0, false, true, Stride::serial());
    let mut manual = initial_state();
    compress_block(&input[0..128], &mut manual, 128, 0, 0);
    compress_block(&input[128..256], &mut manual, 256, u64_flag(true), u64_flag(false));
    assert_eq!(driver, manual);
    assert_eq!(updated_count(&input, 0, Stride::serial()), 256);
}

#[test]
fn flag_encoding() {
    assert_eq!(u64_flag(true), u64::MAX);
    assert_eq!(u64_flag(false), 0);
}

#[test]
fn stride_construction() {
    assert_eq!(Stride::serial().padded_blockbytes(), 128);
    assert!(Stride::interleaved(0).is_none());
    assert_eq!(Stride::interleaved(1).unwrap().padded_blockbytes(), 128);
    assert_eq!(Stride::interleaved(4).unwrap().padded_blockbytes(), 512);
}
