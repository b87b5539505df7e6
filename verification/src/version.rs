//! Version-information decoding: for versions 7 and up a QR symbol encodes
//! its version as an 18-bit BCH(18,6) codeword, whose table entries are at
//! least 8 bits apart, so up to three bit errors are corrected.
use vstd::prelude::*;

verus! {

/// BCH(18,6) version-information codewords for versions 7..=40 (index 0 is
/// version 7): 6 data bits and 12 parity bits for the generator polynomial
/// `x^12+x^11+x^10+x^9+x^8+x^5+x^2+1`.
pub open spec fn version_table() -> Seq<u32> {
    seq![
        0x07C94, 0x085BC, 0x09A99, 0x0A4D3, 0x0BBF6, 0x0C762, 0x0D847, 0x0E60D,
        0x0F928, 0x10B78, 0x1145D, 0x12A17, 0x13532, 0x149A6, 0x15683, 0x168C9,
        0x177EC, 0x18EC4, 0x191E1, 0x1AFAB, 0x1B08E, 0x1CC1A, 0x1D33F, 0x1ED75,
        0x1F250, 0x209D5, 0x216F0, 0x228BA, 0x2379F, 0x24B0B, 0x2542E, 0x26A64,
        0x27541, 0x28C69,
    ]
}

/// The version-information codeword table, as an array.
pub fn version_decode_info() -> (r: [u32; 34])
    ensures
        r@ == version_table(),
{
    let r = [
        0x07C94u32, 0x085BCu32, 0x09A99u32, 0x0A4D3u32, 0x0BBF6u32, 0x0C762u32, 0x0D847u32, 0x0E60Du32,
        0x0F928u32, 0x10B78u32, 0x1145Du32, 0x12A17u32, 0x13532u32, 0x149A6u32, 0x15683u32, 0x168C9u32,
        0x177ECu32, 0x18EC4u32, 0x191E1u32, 0x1AFABu32, 0x1B08Eu32, 0x1CC1Au32, 0x1D33Fu32, 0x1ED75u32,
        0x1F250u32, 0x209D5u32, 0x216F0u32, 0x228BAu32, 0x2379Fu32, 0x24B0Bu32, 0x2542Eu32, 0x26A64u32,
        0x27541u32, 0x28C69u32,
    ];
    assert(r@ =~= version_table());
    r
}

/// Number of set bits of `x`.
pub open spec fn popcount(x: u32) -> nat
    decreases x,
{
    if x == 0 {
        0
    } else {
        (x % 2) as nat + popcount(x / 2)
    }
}

/// Hamming distance between two words.
pub open spec fn hamming(a: u32, b: u32) -> nat {
    popcount(a ^ b)
}

proof fn lemma_popcount_le(x: u32)
    ensures
        popcount(x) <= x,
        popcount(x) == 0 <==> x == 0,
    decreases x,
{
    if x != 0 {
        lemma_popcount_le(x / 2);
    }
}

/// Number of set bits of `x`.
pub fn count_ones(x: u32) -> (r: u32)
    ensures
        r == popcount(x),
{
    let mut count: u32 = 0;
    let mut rest = x;
    proof {
        lemma_popcount_le(x);
    }
    while rest != 0
        invariant
            count + popcount(rest) == popcount(x),
            popcount(x) <= u32::MAX,
        decreases rest,
    {
        count = count + rest % 2;
        rest = rest / 2;
    }
    count
}

/// The version (with its distance) of the first table entry nearest to
/// `bits` among the first `n`; `(0, u32::MAX)` before any entry.
pub open spec fn best_match(bits: u32, n: int) -> (int, int)
    decreases n,
{
    if n <= 0 {
        (0, u32::MAX as int)
    } else {
        let (v, d) = best_match(bits, n - 1);
        let dn = hamming(bits, version_table()[n - 1]) as int;
        if dn < d {
            (n - 1 + 7, dn)
        } else {
            (v, d)
        }
    }
}

/// The version whose codeword is nearest to `bits` (the earliest on a tie),
/// if it is at most three bit flips away.
pub open spec fn spec_bch_decode(bits: u32) -> Option<u32> {
    let (v, d) = best_match(bits, 34);
    if d <= 3 {
        Some(v as u32)
    } else {
        None
    }
}

/// Once an exact codeword is the best match, no later entry displaces it.
proof fn lemma_best_match_exact(bits: u32, i: int, n: int)
    requires
        0 <= i < n <= 34,
        version_table()[i] == bits,
        forall|j: int| 0 <= j < i ==> #[trigger] version_table()[j] != bits,
    ensures
        best_match(bits, n) == (i + 7, 0int),
    decreases n,
{
    assert(bits ^ bits == 0u32) by (bit_vector);
    if n == i + 1 {
        if i > 0 {
            lemma_best_match_positive(bits, i);
        }
    } else {
        lemma_best_match_exact(bits, i, n - 1);
    }
}

/// Before the first exact codeword, the best distance is positive.
proof fn lemma_best_match_positive(bits: u32, n: int)
    requires
        0 < n <= 34,
        forall|j: int| 0 <= j < n ==> #[trigger] version_table()[j] != bits,
    ensures
        best_match(bits, n).1 > 0,
    decreases n,
{
    let c = version_table()[n - 1];
    assert(c != bits);
    assert(c != bits ==> bits ^ c != 0u32) by (bit_vector);
    lemma_popcount_le(bits ^ c);
    if n > 1 {
        lemma_best_match_positive(bits, n - 1);
    } else {
        assert(best_match(bits, 0) == (0int, u32::MAX as int));
    }
}

/// Decode an 18-bit version-information reading: find the table entry at
/// minimum Hamming distance from `bits` (the earliest on a tie) and accept
/// it when that distance is at most 3.
pub fn bch_decode_version(bits: u32) -> (r: Option<u32>)
    ensures
        r == spec_bch_decode(bits),
{
    let table = version_decode_info();
    let mut best_version: u32 = 0;
    let mut best_diff: u32 = u32::MAX;
    let mut i: usize = 0;
    while i < 34
        invariant
            table@ == version_table(),
            i <= 34,
            (best_version as int, best_diff as int) == best_match(bits, i as int),
            forall|j: int| 0 <= j < i ==> #[trigger] version_table()[j] != bits,
        decreases 34 - i,
    {
        let codeword = table[i];
        if codeword == bits {
            proof {
                lemma_best_match_exact(bits, i as int, 34);
            }
            return Some(i as u32 + 7);
        }
        let diff = count_ones(bits ^ codeword);
        if diff < best_diff {
            best_diff = diff;
            best_version = i as u32 + 7;
        }
        i += 1;
    }
    if best_diff <= 3 {
        Some(best_version)
    } else {
        None
    }
}

/// The low `n` bits of `bits` in reverse order.
pub open spec fn reversed(bits: u32, n: nat) -> nat
    decreases n,
{
    if n == 0 {
        0
    } else {
        reversed(bits, (n - 1) as nat) * 2 + (bits as nat / vstd::arithmetic::power2::pow2((n - 1) as nat)) % 2
    }
}

/// Reverse the low `n` bits of `bits` (used for the version block's other
/// bit order).
pub fn reverse_bits(bits: u32, n: u32) -> (r: u32)
    requires
        n <= 32,
    ensures
        r == reversed(bits, n as nat),
{
    let mut out: u32 = 0;
    let mut rest = bits;
    let mut k: u32 = 0;
    proof {
        vstd::arithmetic::power2::lemma2_to64();
    }
    while k < n
        invariant
            k <= n <= 32,
            out == reversed(bits, k as nat),
            out < vstd::arithmetic::power2::pow2(k as nat),
            rest as nat == bits as nat / vstd::arithmetic::power2::pow2(k as nat),
        decreases n - k,
    {
        proof {
            vstd::arithmetic::power2::lemma_pow2_adds(k as nat, 1);
            vstd::arithmetic::power2::lemma2_to64();
            vstd::arithmetic::power2::lemma_pow2_pos(k as nat);
            vstd::arithmetic::div_mod::lemma_div_denominator(
                bits as int,
                vstd::arithmetic::power2::pow2(k as nat) as int,
                2,
            );
            vstd::arithmetic::power2::lemma_pow2_strictly_increases(k as nat, 32);
            if k + 1 < 32 {
                vstd::arithmetic::power2::lemma_pow2_strictly_increases((k + 1) as nat, 32);
            }
        }
        out = out * 2 + rest % 2;
        rest = rest / 2;
        k += 1;
    }
    out
}

/// Version-information codeword `i` (`i < 34`).
pub open spec fn codeword(i: u32) -> u32 {
    if i == 0 { 0x07C94 } else if i == 1 { 0x085BC } else if i == 2 { 0x09A99 } else if i == 3 { 0x0A4D3 }
    else if i == 4 { 0x0BBF6 } else if i == 5 { 0x0C762 } else if i == 6 { 0x0D847 } else if i == 7 { 0x0E60D }
    else if i == 8 { 0x0F928 } else if i == 9 { 0x10B78 } else if i == 10 { 0x1145D } else if i == 11 { 0x12A17 }
    else if i == 12 { 0x13532 } else if i == 13 { 0x149A6 } else if i == 14 { 0x15683 } else if i == 15 { 0x168C9 }
    else if i == 16 { 0x177EC } else if i == 17 { 0x18EC4 } else if i == 18 { 0x191E1 } else if i == 19 { 0x1AFAB }
    else if i == 20 { 0x1B08E } else if i == 21 { 0x1CC1A } else if i == 22 { 0x1D33F } else if i == 23 { 0x1ED75 }
    else if i == 24 { 0x1F250 } else if i == 25 { 0x209D5 } else if i == 26 { 0x216F0 } else if i == 27 { 0x228BA }
    else if i == 28 { 0x2379F } else if i == 29 { 0x24B0B } else if i == 30 { 0x2542E } else if i == 31 { 0x26A64 }
    else if i == 32 { 0x27541 } else { 0x28C69 }
}

/// Number of set bits among the low 18 bits of `x`.
pub open spec fn ones18(x: u32) -> int {
    (x & 1) + ((x >> 1) & 1) + ((x >> 2) & 1) + ((x >> 3) & 1) + ((x >> 4) & 1) + ((x >> 5) & 1)
        + ((x >> 6) & 1) + ((x >> 7) & 1) + ((x >> 8) & 1) + ((x >> 9) & 1) + ((x >> 10) & 1) + ((x >> 11) & 1)
        + ((x >> 12) & 1) + ((x >> 13) & 1) + ((x >> 14) & 1) + ((x >> 15) & 1) + ((x >> 16) & 1) + ((x >> 17) & 1)
}

proof fn lemma_codewords_far()
    ensures
        forall|i: u32, j: u32| i < j < 34 ==> #[trigger] ones18(codeword(i) ^ codeword(j)) >= 8,
{
    assert(forall|i: u32, j: u32| i < j < 34 ==> #[trigger] ones18(codeword(i) ^ codeword(j)) >= 8) by (bit_vector);
}

/// Set bits among the low `k` bits of `x`.
pub open spec fn low_ones(x: u32, k: nat) -> int
    decreases k,
{
    if k == 0 {
        0
    } else {
        (x % 2) as int + low_ones(x / 2, (k - 1) as nat)
    }
}

proof fn lemma_low_ones18(x: u32)
    ensures
        low_ones(x, 18) == ones18(x),
{
    reveal_with_fuel(low_ones, 19);
    assert(low_ones(x, 18) == ones18(x)) by (bit_vector);
}

/// `2^k`.
pub open spec fn two_to(k: nat) -> nat
    decreases k,
{
    if k == 0 {
        1
    } else {
        2 * two_to((k - 1) as nat)
    }
}

/// Below `2^k`, every set bit is among the low `k`.
proof fn lemma_popcount_low(x: u32, k: nat)
    requires
        x < two_to(k),
    ensures
        popcount(x) == low_ones(x, k),
    decreases k,
{
    if k > 0 {
        lemma_popcount_low(x / 2, (k - 1) as nat);
    }
}

/// The number of set bits of `p ^ q` is at most those of `p` and `q`
/// together.
proof fn lemma_popcount_xor(p: u32, q: u32)
    ensures
        popcount(p ^ q) <= popcount(p) + popcount(q),
    decreases p + q,
{
    assert((p ^ q) / 2 == (p / 2) ^ (q / 2) && (p ^ q) % 2 <= p % 2 + q % 2 && (p == 0 && q == 0 ==> p
        ^ q == 0)) by (bit_vector);
    if p != 0 || q != 0 {
        lemma_popcount_xor(p / 2, q / 2);
    }
}

/// Hamming distance obeys the triangle inequality.
proof fn lemma_hamming_triangle(a: u32, b: u32, c: u32)
    ensures
        hamming(a, c) <= hamming(a, b) + hamming(b, c),
        hamming(a, b) == hamming(b, a),
{
    assert((a ^ b) ^ (b ^ c) == a ^ c && a ^ b == b ^ a) by (bit_vector);
    lemma_popcount_xor(a ^ b, b ^ c);
}

/// Distinct version-information codewords are at least 8 bits apart.
proof fn lemma_table_distance(u: int, v: int)
    requires
        0 <= u < 34,
        0 <= v < 34,
        u != v,
    ensures
        hamming(version_table()[u], version_table()[v]) >= 8,
{
    lemma_codewords_far();
    assert(forall|i: u32| i < 34 ==> #[trigger] codeword(i) < 262144) by (bit_vector);
    assert(forall|a: u32, b: u32| a < 262144 && b < 262144 ==> #[trigger] (a ^ b) < 262144 && a ^ b == b ^ a)
        by (bit_vector);
    assert(version_table()[u] == codeword(u as u32));
    assert(version_table()[v] == codeword(v as u32));
    let (i, j) = if u < v {
        (u as u32, v as u32)
    } else {
        (v as u32, u as u32)
    };
    let d = codeword(i) ^ codeword(j);
    assert(ones18(d) >= 8);
    reveal_with_fuel(two_to, 19);
    lemma_popcount_low(d, 18);
    lemma_low_ones18(d);
    lemma_hamming_triangle(version_table()[u], version_table()[v], version_table()[v]);
}

/// With entry `v` within 3 of `bits` and every other entry at least 5 away,
/// the best match among the first `n` entries is entry `v` once `n > v`,
/// and at least 5 away before.
proof fn lemma_best_match_unique(bits: u32, v: int, n: int)
    requires
        0 <= v < 34,
        0 <= n <= 34,
        hamming(bits, version_table()[v]) <= 3,
        forall|u: int| 0 <= u < 34 && u != v ==> #[trigger] hamming(bits, version_table()[u]) >= 5,
    ensures
        n <= v ==> best_match(bits, n).1 >= 5,
        n > v ==> best_match(bits, n) == (v + 7, hamming(bits, version_table()[v]) as int),
    decreases n,
{
    if n > 0 {
        lemma_best_match_unique(bits, v, n - 1);
    }
}

/// A version-information codeword with at most three flipped bits decodes
/// to its version.
pub proof fn lemma_bch_corrects_three_errors(v: int, e: u32)
    requires
        0 <= v < 34,
        popcount(e) <= 3,
    ensures
        spec_bch_decode(version_table()[v] ^ e) == Some((v + 7) as u32),
{
    let c = version_table()[v];
    let bits = c ^ e;
    assert(bits ^ c == e) by (bit_vector)
        requires
            bits == c ^ e,
    ;
    assert forall|u: int| 0 <= u < 34 && u != v implies #[trigger] hamming(bits, version_table()[u]) >= 5 by {
        lemma_table_distance(u, v);
        lemma_hamming_triangle(version_table()[u], bits, c);
        lemma_hamming_triangle(version_table()[u], bits, bits);
    }
    lemma_best_match_unique(bits, v, 34);
}

// ---------------------------------------------------------------------------
// Timing-pattern transitions
// ---------------------------------------------------------------------------
/// Number of value changes between consecutive samples of `s`.
pub open spec fn transitions(s: Seq<bool>) -> nat
    decreases s.len(),
{
    if s.len() <= 1 {
        0
    } else {
        transitions(s.drop_last()) + if s[s.len() - 1] != s[s.len() - 2] {
            1nat
        } else {
            0nat
        }
    }
}

/// Count the value changes between consecutive samples.
pub fn count_transitions(samples: &[bool]) -> (r: u32)
    requires
        samples@.len() <= u32::MAX,
    ensures
        r == transitions(samples@),
{
    let n = samples.len();
    if n <= 1 {
        return 0;
    }
    let mut count: u32 = 0;
    let mut i: usize = 1;
    while i < n
        invariant
            1 <= i <= n,
            n == samples@.len(),
            n <= u32::MAX,
            count == transitions(samples@.subrange(0, i as int)),
            count < i,
        decreases n - i,
    {
        proof {
            let next = samples@.subrange(0, i + 1);
            assert(next.drop_last() =~= samples@.subrange(0, i as int));
        }
        if samples[i] != samples[i - 1] {
            count += 1;
        }
        i += 1;
    }
    proof {
        assert(samples@.subrange(0, n as int) =~= samples@);
    }
    count
}

/// Timing cross-check of a sampled row-6 and column-6 walk: their common
/// transition count when the two axes agree, else `None`.
pub fn count_timing_transitions(row: &[bool], col: &[bool]) -> (r: Option<u32>)
    requires
        row@.len() <= u32::MAX,
        col@.len() <= u32::MAX,
    ensures
        r == if transitions(row@) == transitions(col@) {
            Some(transitions(row@) as u32)
        } else {
            None::<u32>
        },
{
    let a = count_transitions(row);
    let b = count_transitions(col);
    if a == b {
        Some(a)
    } else {
        None
    }
}

/// Module `i` of the ideal row-6 (or column-6) line of a `dim`-module
/// symbol, `true` for dark: a finder's dark border ring over modules
/// `0..=6` and `dim−7..dim`, light separators at `7` and `dim−8`, and the
/// timing strip alternating from dark in between.
pub open spec fn timing_module(dim: int, i: int) -> bool {
    if i <= 6 || i >= dim - 7 {
        true
    } else if i == 7 || i == dim - 8 {
        false
    } else {
        (i - 8) % 2 == 0
    }
}

/// The ideal timing line of a `dim`-module symbol.
pub open spec fn timing_line(dim: int) -> Seq<bool> {
    Seq::new(dim as nat, |i: int| timing_module(dim, i))
}

/// Value changes among the first `k` modules of the ideal timing line.
proof fn lemma_timing_prefix(dim: int, k: int)
    requires
        dim >= 21,
        dim % 2 == 1,
        1 <= k <= dim,
    ensures
        transitions(timing_line(dim).subrange(0, k)) == if k <= 7 {
            0
        } else if k <= dim - 8 {
            k - 7
        } else if k == dim - 7 {
            dim - 14
        } else {
            dim - 13
        },
    decreases k,
{
    let line = timing_line(dim);
    if k > 1 {
        lemma_timing_prefix(dim, k - 1);
        let cur = line.subrange(0, k);
        assert(cur.drop_last() =~= line.subrange(0, k - 1));
        assert(cur[k - 1] == timing_module(dim, k - 1));
        assert(cur[k - 2] == timing_module(dim, k - 2));
        if 9 <= k - 1 <= dim - 9 {
            assert((k - 1 - 8) % 2 != (k - 2 - 8) % 2);
        }
        if k - 1 == dim - 8 {
            assert((dim - 9 - 8) % 2 == 0);
        }
    }
}

/// Walking the whole timing row (or column) of a valid symbol crosses
/// `dim − 13` dark/light boundaries.
pub proof fn lemma_timing_transitions(dim: int)
    requires
        dim >= 21,
        dim % 4 == 1,
    ensures
        transitions(timing_line(dim)) == dim - 13,
{
    lemma_timing_prefix(dim, dim);
    assert(timing_line(dim).subrange(0, dim) =~= timing_line(dim));
}

// ---------------------------------------------------------------------------
// Version-information blocks
// ---------------------------------------------------------------------------
/// `(column, row)` of the `k`-th module read from a version-information
/// block of a `dim`-module symbol: near the top-right finder the block is
/// read from row 5 up to row 0, each row from column `dim−9` down to
/// `dim−11`; near the bottom-left finder the transposed order.
pub open spec fn version_block_module(dim: int, top_right: bool, k: int) -> (int, int) {
    let major = 5 - k / 3;
    let minor = dim - 9 - k % 3;
    if top_right {
        (minor, major)
    } else {
        (major, minor)
    }
}

/// The `k`-th module position of a version-information block (see
/// [`version_block_module`]).
pub fn version_block_position(dimension: u32, top_right: bool, k: u32) -> (r: (u32, u32))
    requires
        dimension >= 11,
        k < 18,
    ensures
        (r.0 as int, r.1 as int) == version_block_module(dimension as int, top_right, k as int),
{
    let major = 5 - k / 3;
    let minor = dimension - 9 - k % 3;
    if top_right {
        (minor, major)
    } else {
        (major, minor)
    }
}

/// `bits` packed first-sample-most-significant.
pub open spec fn packed_msb_first(bits: Seq<bool>) -> nat
    decreases bits.len(),
{
    if bits.len() == 0 {
        0
    } else {
        packed_msb_first(bits.drop_last()) * 2 + if bits.last() {
            1nat
        } else {
            0nat
        }
    }
}

proof fn lemma_packed_bound(bits: Seq<bool>)
    ensures
        packed_msb_first(bits) < two_to(bits.len()),
    decreases bits.len(),
{
    if bits.len() > 0 {
        lemma_packed_bound(bits.drop_last());
    }
}

/// Pack up to 32 samples into a word, the first sample most significant.
pub fn pack_msb_first(bits: &[bool]) -> (r: u32)
    requires
        bits@.len() <= 32,
    ensures
        r == packed_msb_first(bits@),
{
    let mut out: u32 = 0;
    let mut i: usize = 0;
    proof {
        reveal_with_fuel(two_to, 33);
    }
    while i < bits.len()
        invariant
            i <= bits@.len() <= 32,
            out == packed_msb_first(bits@.subrange(0, i as int)),
            out < two_to(i as nat),
            two_to(32) == 0x1_0000_0000,
        decreases bits@.len() - i,
    {
        proof {
            let next = bits@.subrange(0, i + 1);
            assert(next.drop_last() =~= bits@.subrange(0, i as int));
            assert(two_to((i + 1) as nat) == 2 * two_to(i as nat));
            assert(two_to((i + 1) as nat) <= 0x1_0000_0000) by {
                lemma_two_to_monotone((i + 1) as nat, 32);
            }
        }
        out = out * 2 + if bits[i] {
            1
        } else {
            0
        };
        i += 1;
    }
    proof {
        assert(bits@.subrange(0, i as int) =~= bits@);
    }
    out
}

proof fn lemma_two_to_monotone(a: nat, b: nat)
    requires
        a <= b,
    ensures
        two_to(a) <= two_to(b),
    decreases b,
{
    if a < b {
        lemma_two_to_monotone(a, (b - 1) as nat);
    }
}

/// The version decoded from the first of the top-right block, its bit
/// reversal, the bottom-left block and its reversal (blocks that could not
/// be read are skipped) that decodes.
pub open spec fn block_version(tr: Option<u32>, bl: Option<u32>) -> Option<u32> {
    let dec = |b: Option<u32>, rev: bool|
        match b {
            Some(x) => spec_bch_decode(
                if rev {
                    reversed(x, 18) as u32
                } else {
                    x
                },
            ),
            None => None,
        };
    if dec(tr, false) is Some {
        dec(tr, false)
    } else if dec(tr, true) is Some {
        dec(tr, true)
    } else if dec(bl, false) is Some {
        dec(bl, false)
    } else {
        dec(bl, true)
    }
}

/// Version from the two sampled version-information blocks (see
/// [`block_version`]).
pub fn read_version_bits(tr: Option<u32>, bl: Option<u32>) -> (r: Option<u32>)
    ensures
        r == block_version(tr, bl),
{
    let candidates = [
        tr,
        match tr {
            Some(b) => Some(reverse_bits(b, 18)),
            None => None,
        },
        bl,
        match bl {
            Some(b) => Some(reverse_bits(b, 18)),
            None => None,
        },
    ];
    let mut i: usize = 0;
    while i < 4
        invariant
            i <= 4,
            candidates@.len() == 4,
            candidates@[0] == tr,
            candidates@[2] == bl,
            tr is Some ==> candidates@[1] == Some(reversed(tr->0, 18) as u32),
            tr is None ==> candidates@[1] is None,
            bl is Some ==> candidates@[3] == Some(reversed(bl->0, 18) as u32),
            bl is None ==> candidates@[3] is None,
            forall|j: int|
                0 <= j < i ==> match #[trigger] candidates@[j] {
                    Some(b) => spec_bch_decode(b) is None,
                    None => true,
                },
        decreases 4 - i,
    {
        if let Some(b) = candidates[i] {
            let found = bch_decode_version(b);
            if found.is_some() {
                return found;
            }
        }
        i += 1;
    }
    None
}

} // verus!
