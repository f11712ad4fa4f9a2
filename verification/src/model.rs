//! Mathematical model of the twoskip on-disk format: the file is a
//! sequence of bytes, and every structure the decoder reads is defined
//! here as a function of that sequence and an offset into it.

use vstd::prelude::*;

verus! {

/// The fixed 20-byte signature at the start of every twoskip file.
pub open spec fn magic_seq() -> Seq<u8> {
    seq![
        0xa1u8, 0x02u8, 0x8bu8, 0x0du8, 0x74u8, 0x77u8, 0x6fu8, 0x73u8, 0x6bu8, 0x69u8,
        0x70u8, 0x20u8, 0x66u8, 0x69u8, 0x6cu8, 0x65u8, 0x00u8, 0x00u8, 0x00u8, 0x00u8,
    ]
}

/// The 8-byte sentinel written over reclaimed space; the scanner skips
/// such regions instead of decoding them.
pub open spec fn blank_seq() -> Seq<u8> {
    seq![0x20u8, 0x42u8, 0x4cu8, 0x41u8, 0x4eu8, 0x4bu8, 0x07u8, 0xa0u8]
}

/// Value of the `k` bytes at `off`, read as a big-endian unsigned integer.
pub open spec fn be_bytes(s: Seq<u8>, off: int, k: nat) -> int
    decreases k,
{
    if k == 0 {
        0
    } else {
        be_bytes(s, off, (k - 1) as nat) * 256 + s[off + k - 1]
    }
}

/// A big-endian value depends only on the bytes it covers.
pub proof fn lemma_be_bytes_agree(s1: Seq<u8>, s2: Seq<u8>, off: int, k: nat)
    requires
        forall|i: int| off <= i < off + k ==> #[trigger] s1[i] == s2[i],
    ensures
        be_bytes(s1, off, k) == be_bytes(s2, off, k),
    decreases k,
{
    if k > 0 {
        assert forall|i: int| off <= i < off + (k - 1) implies #[trigger] s1[i] == s2[i] by {
            assert(off <= i < off + k);
        }
        lemma_be_bytes_agree(s1, s2, off, (k - 1) as nat);
        assert(s1[off + k - 1] == s2[off + k - 1]);
    }
}

/// `k` bytes can hold at most `256^k - 1`.
pub proof fn lemma_be_bytes_bound(s: Seq<u8>, off: int, k: nat)
    ensures
        0 <= be_bytes(s, off, k) < vstd::arithmetic::power::pow(256, k),
    decreases k,
{
    vstd::arithmetic::power::lemma_pow_positive(256, k);
    if k > 0 {
        lemma_be_bytes_bound(s, off, (k - 1) as nat);
        vstd::arithmetic::power::lemma_pow_adds(256, (k - 1) as nat, 1);
        vstd::arithmetic::power::lemma_pow1(256);
    }
}

/// Byte count rounded up to the next multiple of 8 (exact for multiples
/// of 8).
pub open spec fn round_up8(n: int) -> int {
    if n % 8 == 0 {
        n
    } else {
        n + 8 - n % 8
    }
}

/// CRC-32 (ISO-HDLC polynomial) of a byte sequence. The checksum is
/// computed by an outside routine; the model only names its result.
pub uninterp spec fn crc32_of(s: Seq<u8>) -> u32;

/// Byte-wise lexicographic "strictly less" on unsigned bytes, with a
/// shorter sequence ordered before any extension of it.
pub open spec fn lex_lt(a: Seq<u8>, b: Seq<u8>) -> bool
    decreases a.len(),
{
    if b.len() == 0 {
        false
    } else if a.len() == 0 {
        true
    } else if a[0] < b[0] {
        true
    } else if a[0] > b[0] {
        false
    } else {
        lex_lt(a.drop_first(), b.drop_first())
    }
}

/// The lexicographic order is asymmetric.
pub proof fn lemma_lex_lt_asym(a: Seq<u8>, b: Seq<u8>)
    requires
        lex_lt(a, b),
    ensures
        !lex_lt(b, a),
    decreases a.len(),
{
    if b.len() > 0 && a.len() > 0 && a[0] == b[0] {
        lemma_lex_lt_asym(a.drop_first(), b.drop_first());
    }
}

/// The lexicographic order is total: distinct byte strings are
/// ordered one way or the other.
pub proof fn lemma_lex_lt_total(a: Seq<u8>, b: Seq<u8>)
    requires
        a != b,
        !lex_lt(a, b),
    ensures
        lex_lt(b, a),
    decreases a.len(),
{
    if b.len() == 0 {
        if a.len() == 0 {
            assert(a =~= b);
        }
        assert(a.len() > 0);
    } else if a.len() == 0 {
        assert(lex_lt(a, b));
    } else if a[0] == b[0] {
        if a.drop_first() == b.drop_first() {
            assert(a.drop_first().len() == a.len() - 1);
            assert(b.drop_first().len() == b.len() - 1);
            assert forall|i: int| 0 <= i < a.len() implies a[i] == b[i] by {
                if i >= 1 {
                    assert(a[i] == a.drop_first()[i - 1]);
                    assert(b[i] == b.drop_first()[i - 1]);
                }
            }
            assert(a =~= b);
        }
        lemma_lex_lt_total(a.drop_first(), b.drop_first());
    }
}

} // verus!
