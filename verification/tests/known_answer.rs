//! Known-answer vectors: BLAKE2b-512 of the empty input and of "abc" must
//! match the published reference digests exactly.

use blake2b_core::consts::IV;
use blake2b_core::portable::compress1_loop;
use blake2b_core::portable::Stride;

/// The BLAKE2b-512 initial chain value for an unkeyed, sequential hash:
/// the IV with the parameter word (digest length 64, fanout 1, depth 1)
/// XORed into the first word.
fn initial_state() -> [u64; 8] {
    let mut h = IV;
    h[0] ^= 0x0101_0040;
    h
}

fn digest_hex(h: &[u64; 8]) -> String {
    let mut s = String::new();
    for word in h.iter() {
        for byte in word.to_le_bytes().iter() {
            s.push_str(&format!("{:02x}", byte));
        }
    }
    s
}

#[test]
fn empty_input_digest() {
    let mut h = initial_state();
    compress1_loop(&[], &mut h, 0, false, true, Stride::serial());
    let expected = "786a02f742015903c6c6fd852552d272912f4740e15847618a86e217f71f5419d25e1031afee585313896444934eb04b903a685b1448b755d56f701afe9be2ce";
    assert_eq!(digest_hex(&h), expected);
}

#[test]
fn abc_digest() {
    let mut h = initial_state();
    compress1_loop(b"abc", &mut h, 0, false, true, Stride::serial());
    let expected = "ba80a53f981c4d0d6a2797b69f12f6e94c212f14685ac4b74b12bb6fdbffa2d17d87c5392aab792dc252d5de4533cc9518d38aa8dbf1925ab92386edd4009923";
    assert_eq!(digest_hex(&h), expected);
}
