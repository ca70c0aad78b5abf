//! The composite-key codec: a (raw key, version) pair encoded to a byte
//! string whose byte-lexicographic order is exactly the store's
//! (raw key, version) order, and decoded back.
//!
//! The raw key is written with every 0x00 byte escaped as 0x00 0xFF and the
//! end marked 0x00 0x00, which keeps the key part prefix-free; the version
//! follows as eight big-endian bytes. `lemma_key_encoding_preserves_order`
//! proves the ordering contract, and injectivity follows from it.

use vstd::prelude::*;
use crate::bytes::{lex_lt, lemma_lex_total};
use crate::store::{entry_lt, lemma_entry_lt_total};

verus! {

/// A composite store key: the raw key and the version that wrote it.
pub struct Key {
    pub raw_key: Vec<u8>,
    pub version: u64,
}

/// The escaped, terminated image of a raw key: 0x00 becomes 0x00 0xFF and
/// the end is marked 0x00 0x00, so no image is a proper prefix of another.
pub open spec fn enc_key(k: Seq<u8>) -> Seq<u8>
    decreases k.len(),
{
    if k.len() == 0 {
        seq![0u8, 0u8]
    } else if k[0] == 0 {
        seq![0u8, 0xffu8] + enc_key(k.skip(1))
    } else {
        seq![k[0]] + enc_key(k.skip(1))
    }
}

/// The eight big-endian bytes of a 64-bit integer.
pub open spec fn be64(v: u64) -> Seq<u8> {
    seq![
        ((v >> 56) & 0xff) as u8,
        ((v >> 48) & 0xff) as u8,
        ((v >> 40) & 0xff) as u8,
        ((v >> 32) & 0xff) as u8,
        ((v >> 24) & 0xff) as u8,
        ((v >> 16) & 0xff) as u8,
        ((v >> 8) & 0xff) as u8,
        (v & 0xff) as u8,
    ]
}

/// The byte encoding of a composite key: the escaped, terminated raw key,
/// then the version, big-endian.
pub open spec fn key_encoding(raw_key: Seq<u8>, version: u64) -> Seq<u8> {
    enc_key(raw_key) + be64(version)
}

/// The escaped image is at least the terminator plus one byte per key byte.
proof fn lemma_enc_key_len(k: Seq<u8>)
    ensures
        enc_key(k).len() >= 2,
        enc_key(k).len() >= k.len() + 2,
    decreases k.len(),
{
    if k.len() == 0 {
    } else {
        lemma_enc_key_len(k.skip(1));
    }
}

/// Byte strings with a common prefix compare as their tails do.
proof fn lemma_common_prefix(p: Seq<u8>, s1: Seq<u8>, s2: Seq<u8>)
    ensures
        lex_lt(p + s1, p + s2) == lex_lt(s1, s2),
    decreases p.len(),
{
    if p.len() == 0 {
        assert(p + s1 =~= s1);
        assert(p + s2 =~= s2);
    } else {
        lemma_common_prefix(p.skip(1), s1, s2);
        assert((p + s1)[0] == p[0]);
        assert((p + s2)[0] == p[0]);
        assert((p + s1).skip(1) =~= p.skip(1) + s1);
        assert((p + s2).skip(1) =~= p.skip(1) + s2);
    }
}

/// Whatever follows the key parts, a lexicographically smaller raw key gives
/// a lexicographically smaller encoding: escaping keeps single-byte order,
/// and the terminator sorts a shorter key before every proper extension.
proof fn lemma_enc_key_lt(k1: Seq<u8>, k2: Seq<u8>, s1: Seq<u8>, s2: Seq<u8>)
    requires
        lex_lt(k1, k2),
    ensures
        lex_lt(enc_key(k1) + s1, enc_key(k2) + s2),
    decreases k1.len(),
{
    let a = enc_key(k1) + s1;
    let b = enc_key(k2) + s2;
    assert(k2.len() > 0);
    lemma_enc_key_len(k1);
    lemma_enc_key_len(k2);
    if k1.len() == 0 {
        assert(enc_key(k1) == seq![0u8, 0u8]);
        assert(a[0] == 0u8 && a[1] == 0u8);
        if k2[0] == 0 {
            assert(enc_key(k2) == seq![0u8, 0xffu8] + enc_key(k2.skip(1)));
            assert(b[0] == 0u8 && b[1] == 0xffu8);
            assert(a.skip(1)[0] == 0u8);
            assert(b.skip(1)[0] == 0xffu8);
            assert(lex_lt(a.skip(1), b.skip(1)));
        } else {
            assert(b[0] == k2[0]);
        }
    } else if k1[0] == k2[0] {
        lemma_enc_key_lt(k1.skip(1), k2.skip(1), s1, s2);
        if k1[0] == 0 {
            assert(a =~= seq![0u8, 0xffu8] + (enc_key(k1.skip(1)) + s1));
            assert(b =~= seq![0u8, 0xffu8] + (enc_key(k2.skip(1)) + s2));
            lemma_common_prefix(
                seq![0u8, 0xffu8],
                enc_key(k1.skip(1)) + s1,
                enc_key(k2.skip(1)) + s2,
            );
        } else {
            assert(a =~= seq![k1[0]] + (enc_key(k1.skip(1)) + s1));
            assert(b =~= seq![k2[0]] + (enc_key(k2.skip(1)) + s2));
            lemma_common_prefix(seq![k1[0]], enc_key(k1.skip(1)) + s1, enc_key(k2.skip(1)) + s2);
        }
    } else {
        assert(k1[0] < k2[0]);
        if k1[0] == 0 {
            assert(a[0] == 0u8);
            assert(b[0] == k2[0]);
        } else {
            assert(a[0] == k1[0]);
            assert(b[0] == k2[0]);
        }
    }
}

/// Big-endian bytes compare as the integers do.
proof fn lemma_be64_lt(v1: u64, v2: u64)
    requires
        v1 < v2,
    ensures
        lex_lt(be64(v1), be64(v2)),
{
    let a = be64(v1);
    let b = be64(v2);
    assert(a.skip(0) =~= a);
    assert(b.skip(0) =~= b);
    assert(lex_lt(a, b) == lex_lt(a.skip(0), b.skip(0)));
    assert(a[0] == (((v1 >> 56) & 0xff) as u8));
    assert(b[0] == (((v2 >> 56) & 0xff) as u8));
    assert(a.skip(0)[0] == a[0]);
    assert(b.skip(0)[0] == b[0]);
    if a[0] != b[0] {
        assert((((v1 >> 56) & 0xff) as u8) < (((v2 >> 56) & 0xff) as u8)) by (bit_vector)
            requires
                v1 < v2,
                (((v1 >> 56) & 0xff) as u8) != (((v2 >> 56) & 0xff) as u8),
        ;
        assert(lex_lt(a.skip(0), b.skip(0)));
    } else {
        assert(a.skip(0).skip(1) =~= a.skip(1));
        assert(b.skip(0).skip(1) =~= b.skip(1));
        assert(lex_lt(a.skip(0), b.skip(0)) == lex_lt(a.skip(1), b.skip(1)));
        assert(a[1] == (((v1 >> 48) & 0xff) as u8));
        assert(b[1] == (((v2 >> 48) & 0xff) as u8));
        assert(a.skip(1)[0] == a[1]);
        assert(b.skip(1)[0] == b[1]);
        if a[1] != b[1] {
            assert((((v1 >> 48) & 0xff) as u8) < (((v2 >> 48) & 0xff) as u8)) by (bit_vector)
                requires
                    v1 < v2,
                    (((v1 >> 56) & 0xff) as u8) == (((v2 >> 56) & 0xff) as u8),
                    (((v1 >> 48) & 0xff) as u8) != (((v2 >> 48) & 0xff) as u8),
            ;
            assert(lex_lt(a.skip(1), b.skip(1)));
        } else {
            assert(a.skip(1).skip(1) =~= a.skip(2));
            assert(b.skip(1).skip(1) =~= b.skip(2));
            assert(lex_lt(a.skip(1), b.skip(1)) == lex_lt(a.skip(2), b.skip(2)));
            assert(a[2] == (((v1 >> 40) & 0xff) as u8));
            assert(b[2] == (((v2 >> 40) & 0xff) as u8));
            assert(a.skip(2)[0] == a[2]);
            assert(b.skip(2)[0] == b[2]);
            if a[2] != b[2] {
                assert((((v1 >> 40) & 0xff) as u8) < (((v2 >> 40) & 0xff) as u8)) by (bit_vector)
                    requires
                        v1 < v2,
                        (((v1 >> 56) & 0xff) as u8) == (((v2 >> 56) & 0xff) as u8),
                        (((v1 >> 48) & 0xff) as u8) == (((v2 >> 48) & 0xff) as u8),
                        (((v1 >> 40) & 0xff) as u8) != (((v2 >> 40) & 0xff) as u8),
                ;
                assert(lex_lt(a.skip(2), b.skip(2)));
            } else {
                assert(a.skip(2).skip(1) =~= a.skip(3));
                assert(b.skip(2).skip(1) =~= b.skip(3));
                assert(lex_lt(a.skip(2), b.skip(2)) == lex_lt(a.skip(3), b.skip(3)));
                assert(a[3] == (((v1 >> 32) & 0xff) as u8));
                assert(b[3] == (((v2 >> 32) & 0xff) as u8));
                assert(a.skip(3)[0] == a[3]);
                assert(b.skip(3)[0] == b[3]);
                if a[3] != b[3] {
                    assert((((v1 >> 32) & 0xff) as u8) < (((v2 >> 32) & 0xff) as u8)) by (bit_vector)
                        requires
                            v1 < v2,
                            (((v1 >> 56) & 0xff) as u8) == (((v2 >> 56) & 0xff) as u8),
                            (((v1 >> 48) & 0xff) as u8) == (((v2 >> 48) & 0xff) as u8),
                            (((v1 >> 40) & 0xff) as u8) == (((v2 >> 40) & 0xff) as u8),
                            (((v1 >> 32) & 0xff) as u8) != (((v2 >> 32) & 0xff) as u8),
                    ;
                    assert(lex_lt(a.skip(3), b.skip(3)));
                } else {
                    assert(a.skip(3).skip(1) =~= a.skip(4));
                    assert(b.skip(3).skip(1) =~= b.skip(4));
                    assert(lex_lt(a.skip(3), b.skip(3)) == lex_lt(a.skip(4), b.skip(4)));
                    assert(a[4] == (((v1 >> 24) & 0xff) as u8));
                    assert(b[4] == (((v2 >> 24) & 0xff) as u8));
                    assert(a.skip(4)[0] == a[4]);
                    assert(b.skip(4)[0] == b[4]);
                    if a[4] != b[4] {
                        assert((((v1 >> 24) & 0xff) as u8) < (((v2 >> 24) & 0xff) as u8)) by (bit_vector)
                            requires
                                v1 < v2,
                                (((v1 >> 56) & 0xff) as u8) == (((v2 >> 56) & 0xff) as u8),
                                (((v1 >> 48) & 0xff) as u8) == (((v2 >> 48) & 0xff) as u8),
                                (((v1 >> 40) & 0xff) as u8) == (((v2 >> 40) & 0xff) as u8),
                                (((v1 >> 32) & 0xff) as u8) == (((v2 >> 32) & 0xff) as u8),
                                (((v1 >> 24) & 0xff) as u8) != (((v2 >> 24) & 0xff) as u8),
                        ;
                        assert(lex_lt(a.skip(4), b.skip(4)));
                    } else {
                        assert(a.skip(4).skip(1) =~= a.skip(5));
                        assert(b.skip(4).skip(1) =~= b.skip(5));
                        assert(lex_lt(a.skip(4), b.skip(4)) == lex_lt(a.skip(5), b.skip(5)));
                        assert(a[5] == (((v1 >> 16) & 0xff) as u8));
                        assert(b[5] == (((v2 >> 16) & 0xff) as u8));
                        assert(a.skip(5)[0] == a[5]);
                        assert(b.skip(5)[0] == b[5]);
                        if a[5] != b[5] {
                            assert((((v1 >> 16) & 0xff) as u8) < (((v2 >> 16) & 0xff) as u8)) by (bit_vector)
                                requires
                                    v1 < v2,
                                    (((v1 >> 56) & 0xff) as u8) == (((v2 >> 56) & 0xff) as u8),
                                    (((v1 >> 48) & 0xff) as u8) == (((v2 >> 48) & 0xff) as u8),
                                    (((v1 >> 40) & 0xff) as u8) == (((v2 >> 40) & 0xff) as u8),
                                    (((v1 >> 32) & 0xff) as u8) == (((v2 >> 32) & 0xff) as u8),
                                    (((v1 >> 24) & 0xff) as u8) == (((v2 >> 24) & 0xff) as u8),
                                    (((v1 >> 16) & 0xff) as u8) != (((v2 >> 16) & 0xff) as u8),
                            ;
                            assert(lex_lt(a.skip(5), b.skip(5)));
                        } else {
                            assert(a.skip(5).skip(1) =~= a.skip(6));
                            assert(b.skip(5).skip(1) =~= b.skip(6));
                            assert(lex_lt(a.skip(5), b.skip(5)) == lex_lt(a.skip(6), b.skip(6)));
                            assert(a[6] == (((v1 >> 8) & 0xff) as u8));
                            assert(b[6] == (((v2 >> 8) & 0xff) as u8));
                            assert(a.skip(6)[0] == a[6]);
                            assert(b.skip(6)[0] == b[6]);
                            if a[6] != b[6] {
                                assert((((v1 >> 8) & 0xff) as u8) < (((v2 >> 8) & 0xff) as u8)) by (bit_vector)
                                    requires
                                        v1 < v2,
                                        (((v1 >> 56) & 0xff) as u8) == (((v2 >> 56) & 0xff) as u8),
                                        (((v1 >> 48) & 0xff) as u8) == (((v2 >> 48) & 0xff) as u8),
                                        (((v1 >> 40) & 0xff) as u8) == (((v2 >> 40) & 0xff) as u8),
                                        (((v1 >> 32) & 0xff) as u8) == (((v2 >> 32) & 0xff) as u8),
                                        (((v1 >> 24) & 0xff) as u8) == (((v2 >> 24) & 0xff) as u8),
                                        (((v1 >> 16) & 0xff) as u8) == (((v2 >> 16) & 0xff) as u8),
                                        (((v1 >> 8) & 0xff) as u8) != (((v2 >> 8) & 0xff) as u8),
                                ;
                                assert(lex_lt(a.skip(6), b.skip(6)));
                            } else {
                                assert(a.skip(6).skip(1) =~= a.skip(7));
                                assert(b.skip(6).skip(1) =~= b.skip(7));
                                assert(lex_lt(a.skip(6), b.skip(6)) == lex_lt(a.skip(7), b.skip(7)));
                                assert(a[7] == ((v1 & 0xff) as u8));
                                assert(b[7] == ((v2 & 0xff) as u8));
                                assert(a.skip(7)[0] == a[7]);
                                assert(b.skip(7)[0] == b[7]);
                                if a[7] != b[7] {
                                    assert(((v1 & 0xff) as u8) < ((v2 & 0xff) as u8)) by (bit_vector)
                                        requires
                                            v1 < v2,
                                            (((v1 >> 56) & 0xff) as u8) == (((v2 >> 56) & 0xff) as u8),
                                            (((v1 >> 48) & 0xff) as u8) == (((v2 >> 48) & 0xff) as u8),
                                            (((v1 >> 40) & 0xff) as u8) == (((v2 >> 40) & 0xff) as u8),
                                            (((v1 >> 32) & 0xff) as u8) == (((v2 >> 32) & 0xff) as u8),
                                            (((v1 >> 24) & 0xff) as u8) == (((v2 >> 24) & 0xff) as u8),
                                            (((v1 >> 16) & 0xff) as u8) == (((v2 >> 16) & 0xff) as u8),
                                            (((v1 >> 8) & 0xff) as u8) == (((v2 >> 8) & 0xff) as u8),
                                            ((v1 & 0xff) as u8) != ((v2 & 0xff) as u8),
                                    ;
                                    assert(lex_lt(a.skip(7), b.skip(7)));
                                } else {
                                    // all eight bytes equal forces the integers equal,
                                    // contradicting v1 < v2
                                    assert(v1 == v2) by (bit_vector)
                                        requires
                                            (((v1 >> 56) & 0xff) as u8) == (((v2 >> 56) & 0xff) as u8),
                                            (((v1 >> 48) & 0xff) as u8) == (((v2 >> 48) & 0xff) as u8),
                                            (((v1 >> 40) & 0xff) as u8) == (((v2 >> 40) & 0xff) as u8),
                                            (((v1 >> 32) & 0xff) as u8) == (((v2 >> 32) & 0xff) as u8),
                                            (((v1 >> 24) & 0xff) as u8) == (((v2 >> 24) & 0xff) as u8),
                                            (((v1 >> 16) & 0xff) as u8) == (((v2 >> 16) & 0xff) as u8),
                                            (((v1 >> 8) & 0xff) as u8) == (((v2 >> 8) & 0xff) as u8),
                                            ((v1 & 0xff) as u8) == ((v2 & 0xff) as u8),
                                    ;
                                    assert(false);
                                }
                            }
                        }
                    }
                }
            }
        }
    }
}

/// The codec preserves order: encodings compare in byte-lexicographic order
/// exactly as (raw key, version) pairs compare, raw key first
/// (byte-lexicographic), version second (ascending).
pub proof fn lemma_key_encoding_preserves_order(k1: Seq<u8>, v1: u64, k2: Seq<u8>, v2: u64)
    ensures
        lex_lt(key_encoding(k1, v1), key_encoding(k2, v2)) == entry_lt(k1, v1, k2, v2),
{
    lemma_lex_total(k1, k2);
    if lex_lt(k1, k2) {
        lemma_enc_key_lt(k1, k2, be64(v1), be64(v2));
    } else if k1 == k2 {
        lemma_common_prefix(enc_key(k1), be64(v1), be64(v2));
        if v1 < v2 {
            lemma_be64_lt(v1, v2);
        } else if v2 < v1 {
            lemma_be64_lt(v2, v1);
            lemma_lex_total(be64(v1), be64(v2));
        } else {
            lemma_lex_total(be64(v1), be64(v2));
        }
    } else {
        assert(lex_lt(k2, k1));
        lemma_enc_key_lt(k2, k1, be64(v2), be64(v1));
        lemma_lex_total(key_encoding(k1, v1), key_encoding(k2, v2));
    }
}

/// The codec is injective: equal encodings come from equal keys. Together
/// with the contracts of `Key::encode` and `decode_key` this is the
/// round-trip law: decoding an encoded key returns the key itself.
pub proof fn lemma_key_encoding_injective(k1: Seq<u8>, v1: u64, k2: Seq<u8>, v2: u64)
    requires
        key_encoding(k1, v1) == key_encoding(k2, v2),
    ensures
        k1 == k2,
        v1 == v2,
{
    lemma_key_encoding_preserves_order(k1, v1, k2, v2);
    lemma_key_encoding_preserves_order(k2, v2, k1, v1);
    lemma_lex_total(key_encoding(k1, v1), key_encoding(k2, v2));
    lemma_entry_lt_total(k1, v1, k2, v2);
}

impl Key {
    /// Encode this key for a byte-keyed, byte-ordered substrate.
    pub fn encode(&self) -> (r: Vec<u8>)
        ensures
            r@ == key_encoding(self.raw_key@, self.version),
    {
        let ghost gk = self.raw_key@;
        let mut out: Vec<u8> = Vec::new();
        let mut i: usize = 0;
        proof {
            assert(gk.skip(0) =~= gk);
            assert(out@ + enc_key(gk) =~= enc_key(gk));
        }
        while i < self.raw_key.len()
            invariant
                gk == self.raw_key@,
                i <= gk.len(),
                out@ + enc_key(gk.skip(i as int)) == enc_key(gk),
            decreases gk.len() - i,
        {
            let byte = self.raw_key[i];
            let ghost out0 = out@;
            proof {
                assert(gk.skip(i as int)[0] == gk[i as int]);
                assert(gk.skip(i as int).skip(1) =~= gk.skip(i + 1));
            }
            if byte == 0 {
                out.push(0);
                out.push(0xff);
                proof {
                    assert(enc_key(gk.skip(i as int)) == seq![0u8, 0xffu8] + enc_key(gk.skip(i + 1)));
                    assert(out@ + enc_key(gk.skip(i + 1)) =~= out0 + enc_key(gk.skip(i as int)));
                }
            } else {
                out.push(byte);
                proof {
                    assert(enc_key(gk.skip(i as int)) == seq![byte] + enc_key(gk.skip(i + 1)));
                    assert(out@ + enc_key(gk.skip(i + 1)) =~= out0 + enc_key(gk.skip(i as int)));
                }
            }
            i = i + 1;
        }
        out.push(0);
        out.push(0);
        proof {
            assert(gk.skip(gk.len() as int).len() == 0);
            assert(enc_key(gk.skip(gk.len() as int)) == seq![0u8, 0u8]);
            assert(out@ =~= enc_key(gk));
        }
        let ghost base = out@;
        let v = self.version;
        proof {
            assert((v >> 56) & 0xff < 256 && (v >> 48) & 0xff < 256 && (v >> 40) & 0xff < 256 && (v
                >> 32) & 0xff < 256 && (v >> 24) & 0xff < 256 && (v >> 16) & 0xff < 256 && (v >> 8)
                & 0xff < 256 && v & 0xff < 256) by (bit_vector);
        }
        out.push(((v >> 56) & 0xff) as u8);
        out.push(((v >> 48) & 0xff) as u8);
        out.push(((v >> 40) & 0xff) as u8);
        out.push(((v >> 32) & 0xff) as u8);
        out.push(((v >> 24) & 0xff) as u8);
        out.push(((v >> 16) & 0xff) as u8);
        out.push(((v >> 8) & 0xff) as u8);
        out.push((v & 0xff) as u8);
        proof {
            assert(out@ =~= base + be64(v));
        }
        out
    }
}

/// Decode an encoded composite key back into its parts.
pub fn decode_key(b: &Vec<u8>) -> (r: Key)
    requires
        exists|k: Seq<u8>, v: u64| b@ == key_encoding(k, v),
    ensures
        b@ == key_encoding(r.raw_key@, r.version),
{
    let ghost (gk, gv): (Seq<u8>, u64) = choose|k: Seq<u8>, v: u64| b@ == key_encoding(k, v);
    let n = b.len();
    let mut out: Vec<u8> = Vec::new();
    let mut i: usize = 0;
    proof {
        assert(b@.skip(0) =~= b@);
        assert(gk.skip(0) =~= gk);
        assert(out@ =~= gk.take(0));
        lemma_enc_key_len(gk);
        assert(b@.len() == enc_key(gk).len() + 8);
    }
    while !(b[i] == 0 && b[i + 1] == 0)
        invariant
            b@ == key_encoding(gk, gv),
            b@.len() == n,
            out@.len() <= gk.len(),
            out@ == gk.take(out@.len() as int),
            i + enc_key(gk.skip(out@.len() as int)).len() + 8 == b@.len(),
            i + 10 <= b@.len(),
            b@.skip(i as int) == enc_key(gk.skip(out@.len() as int)) + be64(gv),
        decreases b@.len() - i,
    {
        let ghost m = out@.len() as int;
        proof {
            assert(b@.skip(i as int)[0] == b@[i as int]);
            assert(b@.skip(i as int)[1] == b@[i + 1]);
            // not at the terminator, so the raw key continues
            if m == gk.len() {
                assert(enc_key(gk.skip(m)) == seq![0u8, 0u8]);
                assert(b@[i as int] == 0u8 && b@[i + 1] == 0u8);
                assert(false);
            }
            assert(gk.skip(m)[0] == gk[m]);
            assert(gk.skip(m).skip(1) =~= gk.skip(m + 1));
            lemma_enc_key_len(gk.skip(m + 1));
        }
        let byte = b[i];
        if byte == 0 {
            proof {
                if gk[m] != 0 {
                    assert(enc_key(gk.skip(m)) == seq![gk[m]] + enc_key(gk.skip(m + 1)));
                    assert(b@[i as int] == gk[m]);
                    assert(false);
                }
                assert(enc_key(gk.skip(m)) == seq![0u8, 0xffu8] + enc_key(gk.skip(m + 1)));
            }
            let ghost iold = i as int;
            out.push(0);
            i = i + 2;
            proof {
                assert(out@ =~= gk.take(m + 1));
                assert(b@.skip(iold) == (seq![0u8, 0xffu8] + enc_key(gk.skip(m + 1))) + be64(gv));
                assert(((seq![0u8, 0xffu8] + enc_key(gk.skip(m + 1))) + be64(gv)).skip(2)
                    =~= enc_key(gk.skip(m + 1)) + be64(gv));
                assert(b@.skip(iold + 2) =~= b@.skip(iold).skip(2));
                assert(b@.skip(i as int) == enc_key(gk.skip(m + 1)) + be64(gv));
            }
        } else {
            proof {
                if gk[m] == 0 {
                    assert(enc_key(gk.skip(m)) == seq![0u8, 0xffu8] + enc_key(gk.skip(m + 1)));
                    assert(b@[i as int] == 0u8);
                    assert(false);
                }
                assert(enc_key(gk.skip(m)) == seq![gk[m]] + enc_key(gk.skip(m + 1)));
                assert(b@[i as int] == gk[m]);
            }
            let ghost iold = i as int;
            out.push(byte);
            i = i + 1;
            proof {
                assert(out@ =~= gk.take(m + 1));
                assert(b@.skip(iold) == (seq![gk[m]] + enc_key(gk.skip(m + 1))) + be64(gv));
                assert(((seq![gk[m]] + enc_key(gk.skip(m + 1))) + be64(gv)).skip(1)
                    =~= enc_key(gk.skip(m + 1)) + be64(gv));
                assert(b@.skip(iold + 1) =~= b@.skip(iold).skip(1));
                assert(b@.skip(i as int) == enc_key(gk.skip(m + 1)) + be64(gv));
            }
        }
    }
    proof {
        // the terminator can only be the raw key's end
        let m = out@.len() as int;
        assert(b@.skip(i as int)[0] == b@[i as int]);
        assert(b@.skip(i as int)[1] == b@[i + 1]);
        if m < gk.len() {
            assert(gk.skip(m)[0] == gk[m]);
            if gk[m] == 0 {
                assert(enc_key(gk.skip(m)) == seq![0u8, 0xffu8] + enc_key(gk.skip(m).skip(1)));
                assert(b@[i + 1] == 0xffu8);
            } else {
                assert(enc_key(gk.skip(m)) == seq![gk[m]] + enc_key(gk.skip(m).skip(1)));
                assert(b@[i as int] == gk[m]);
            }
            assert(false);
        }
        assert(out@ =~= gk);
        assert(enc_key(gk.skip(m)) == seq![0u8, 0u8]);
        assert(b@.skip(i as int) == seq![0u8, 0u8] + be64(gv));
        assert(i + 10 == b@.len());
        assert forall|t: int| 0 <= t < 8 implies b@[i + 2 + t] == be64(gv)[t] by {
            assert(b@.skip(i as int)[2 + t] == b@[i + 2 + t]);
        }
    }
    let j = i + 2;
    let x0 = b[j];
    let x1 = b[j + 1];
    let x2 = b[j + 2];
    let x3 = b[j + 3];
    let x4 = b[j + 4];
    let x5 = b[j + 5];
    let x6 = b[j + 6];
    let x7 = b[j + 7];
    let v: u64 = ((x0 as u64) << 56) | ((x1 as u64) << 48) | ((x2 as u64) << 40) | ((x3 as u64)
        << 32) | ((x4 as u64) << 24) | ((x5 as u64) << 16) | ((x6 as u64) << 8) | (x7 as u64);
    proof {
        assert(v == gv) by (bit_vector)
            requires
                x0 == ((gv >> 56) & 0xff) as u8,
                x1 == ((gv >> 48) & 0xff) as u8,
                x2 == ((gv >> 40) & 0xff) as u8,
                x3 == ((gv >> 32) & 0xff) as u8,
                x4 == ((gv >> 24) & 0xff) as u8,
                x5 == ((gv >> 16) & 0xff) as u8,
                x6 == ((gv >> 8) & 0xff) as u8,
                x7 == (gv & 0xff) as u8,
                v == ((x0 as u64) << 56) | ((x1 as u64) << 48) | ((x2 as u64) << 40) | ((x3
                    as u64) << 32) | ((x4 as u64) << 24) | ((x5 as u64) << 16) | ((x6 as u64) << 8)
                    | (x7 as u64),
        ;
    }
    Key { raw_key: out, version: v }
}

} // verus!
