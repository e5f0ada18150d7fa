//! Fixed constants of the BLAKE2b algorithm: block width, the eight
//! initialization words (IV), and the 12x16 message-word permutation table
//! (SIGMA). All are immutable and shared; interoperability requires these
//! exact values.

use vstd::prelude::*;

verus! {

/// Width of one message block, in bytes.
pub const BLOCKBYTES: usize = 128;

/// The eight BLAKE2b initialization words.
pub const IV: [u64; 8] = [
    0x6a09e667f3bcc908,
    0xbb67ae8584caa73b,
    0x3c6ef372fe94f82b,
    0xa54ff53a5f1d36f1,
    0x510e527fade682d1,
    0x9b05688c2b3e6c1f,
    0x1f83d9abfb41bd6b,
    0x5be0cd19137e2179,
];

/// The message schedule: for each of the 12 rounds, a permutation of the
/// indices 0..16 selecting which two message words feed each mixing step.
pub const SIGMA: [[usize; 16]; 12] = [
    [0, 1, 2, 3, 4, 5, 6, 7, 8, 9, 10, 11, 12, 13, 14, 15],
    [14, 10, 4, 8, 9, 15, 13, 6, 1, 12, 0, 2, 11, 7, 5, 3],
    [11, 8, 12, 0, 5, 2, 15, 13, 10, 14, 3, 6, 7, 1, 9, 4],
    [7, 9, 3, 1, 13, 12, 11, 14, 2, 6, 5, 10, 4, 0, 15, 8],
    [9, 0, 5, 7, 2, 4, 10, 15, 14, 1, 11, 12, 6, 8, 3, 13],
    [2, 12, 6, 10, 0, 11, 8, 3, 4, 13, 7, 5, 15, 14, 1, 9],
    [12, 5, 1, 15, 14, 13, 4, 10, 0, 7, 6, 3, 9, 2, 8, 11],
    [13, 11, 7, 14, 12, 1, 3, 9, 5, 0, 15, 4, 8, 6, 2, 10],
    [6, 15, 14, 9, 11, 3, 0, 8, 12, 2, 13, 7, 1, 4, 10, 5],
    [10, 2, 8, 4, 7, 6, 1, 5, 15, 11, 9, 14, 3, 12, 13, 0],
    [0, 1, 2, 3, 4, 5, 6, 7, 8, 9, 10, 11, 12, 13, 14, 15],
    [14, 10, 4, 8, 9, 15, 13, 6, 1, 12, 0, 2, 11, 7, 5, 3],
];

/// Every entry of SIGMA is an index into the 16-word message block.
pub proof fn lemma_sigma_in_bounds()
    ensures
        forall|r: int, i: int| 0 <= r < 12 && 0 <= i < 16 ==> SIGMA[r][i] < 16,
{
    assert forall|r: int, i: int| 0 <= r < 12 && 0 <= i < 16 implies SIGMA[r][i] < 16 by {
        assert(SIGMA[0][i] < 16);
        assert(SIGMA[1][i] < 16);
        assert(SIGMA[2][i] < 16);
        assert(SIGMA[3][i] < 16);
        assert(SIGMA[4][i] < 16);
        assert(SIGMA[5][i] < 16);
        assert(SIGMA[6][i] < 16);
        assert(SIGMA[7][i] < 16);
        assert(SIGMA[8][i] < 16);
        assert(SIGMA[9][i] < 16);
        assert(SIGMA[10][i] < 16);
        assert(SIGMA[11][i] < 16);
    }
}

} // verus!
