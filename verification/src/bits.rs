//! Bit sequences: how words and bytes are laid out as bits, most
//! significant bit first, and the facts about shifts and masks that the
//! bit reader and writer rest on.

use vstd::prelude::*;

verus! {

/// Bit `k` of a 64-bit word; bit 0 is the least significant.
pub open spec fn bit_at(u: u64, k: u64) -> bool {
    (u >> k) & 1 == 1
}

/// Bit `k` of a byte; bit 0 is the least significant.
pub open spec fn byte_bit(b: u8, k: u8) -> bool {
    (b >> k) & 1 == 1
}

/// A word whose `n` low bits are set and no others.
pub open spec fn low_mask(n: u64) -> u64 {
    if n >= 64 {
        0xffff_ffff_ffff_ffffu64
    } else {
        ((1u64 << n) - 1) as u64
    }
}

/// The `n` low bits of `u`, most significant first.
pub open spec fn bits_of(u: u64, n: nat) -> Seq<bool> {
    Seq::new(n, |i: int| bit_at(u, (n - 1 - i) as u64))
}

/// Bit `j` of a byte sequence, counting from the most significant bit of
/// the first byte.
pub open spec fn bit_of_bytes(s: Seq<u8>, j: int) -> bool {
    byte_bit(s[j / 8], (7 - j % 8) as u8)
}

/// All bits of a byte sequence, most significant bit of each byte first.
pub open spec fn bytes_to_bits(s: Seq<u8>) -> Seq<bool> {
    Seq::new(8 * s.len(), |j: int| bit_of_bytes(s, j))
}

/// The number that a bit sequence spells, most significant bit first.
pub open spec fn bits_value(s: Seq<bool>) -> nat
    decreases s.len(),
{
    if s.len() == 0 {
        0
    } else {
        2 * bits_value(s.drop_last()) + (if s.last() {
            1nat
        } else {
            0nat
        })
    }
}

/// Setting one bit of a byte changes that bit and no other.
pub proof fn lemma_byte_set_bit(x: u8, p: u8, k: u8)
    by (bit_vector)
    requires
        p < 8,
        k < 8,
    ensures
        byte_bit(x | (1u8 << p), k) == (byte_bit(x, k) || k == p),
{
}

/// The zero byte has no bit set.
pub proof fn lemma_byte_zero(k: u8)
    by (bit_vector)
    ensures
        !byte_bit(0u8, k),
{
}

/// Splitting a byte `y` over two bytes when `c` bits are free in the first.
pub proof fn lemma_byte_split(x: u8, y: u8, c: u8, s: u8, k: u8)
    by (bit_vector)
    requires
        1 <= c < 8,
        s == 8 - c,
        k < 8,
    ensures
        byte_bit(x | (y >> s), k) == (byte_bit(x, k) || (k < c && byte_bit(y, (k + s) as u8))),
        byte_bit(y << c, k) == (k >= c && byte_bit(y, (k - c) as u8)),
{
}

/// A left shift moves every bit up, and brings in zeros below.
pub proof fn lemma_bit_shl(u: u64, s: u64, k: u64)
    by (bit_vector)
    requires
        s < 64,
        k < 64,
    ensures
        bit_at(u << s, k) == (k >= s && bit_at(u, (k - s) as u64)),
{
}

/// A right shift moves every bit down, and brings in zeros above.
pub proof fn lemma_bit_shr(u: u64, s: u64, k: u64)
    by (bit_vector)
    requires
        s < 64,
        k < 64,
    ensures
        bit_at(u >> s, k) == (k + s < 64 && bit_at(u, (k + s) as u64)),
{
}

/// A bit of `a | b` is set where it is set in either.
pub proof fn lemma_bit_or(a: u64, b: u64, k: u64)
    by (bit_vector)
    ensures
        bit_at(a | b, k) == (bit_at(a, k) || bit_at(b, k)),
{
}

/// A mask keeps the bits below its width and clears the others.
pub proof fn lemma_bit_masked(u: u64, n: u64, k: u64)
    by (bit_vector)
    requires
        n <= 64,
        k < 64,
    ensures
        bit_at(u & low_mask(n), k) == (k < n && bit_at(u, k)),
{
}

/// The top byte of a word holds its bits 56 to 63.
pub proof fn lemma_top_byte(u: u64, k: u8)
    by (bit_vector)
    requires
        k < 8,
    ensures
        byte_bit((u >> 56) as u8, k) == bit_at(u, (k + 56) as u64),
{
}

/// A byte widened to a word keeps its bits, and has no others.
pub proof fn lemma_byte_widened(b: u8, k: u64)
    by (bit_vector)
    requires
        k < 64,
    ensures
        bit_at(b as u64, k) == (k < 8 && byte_bit(b, k as u8)),
{
}

/// The two ways in which the reader and the writer test a bit agree with
/// `bit_at`.
pub proof fn lemma_bit_tests(u: u64, k: u64)
    by (bit_vector)
    requires
        k < 64,
    ensures
        (u & (1u64 << k) != 0) == bit_at(u, k),
        ((u >> 63) == 1) == bit_at(u, 63),
        (1u64 << k) >= 1,
{
}

proof fn lemma_value_step(u: u64, n: u64)
    by (bit_vector)
    requires
        1 <= n <= 64,
    ensures
        2 * ((u >> 1) & low_mask((n - 1) as u64)) + (u & 1) == u & low_mask(n),
        u & 1 == 1 || u & 1 == 0,
        u & low_mask(0) == 0,
{
}

/// Reading back the `n` low bits of a word gives the word cut to `n` bits.
pub proof fn lemma_value_of_bits(u: u64, n: nat)
    requires
        n <= 64,
    ensures
        bits_value(bits_of(u, n)) == u & low_mask(n as u64),
    decreases n,
{
    if n == 0 {
        lemma_value_step(u, 1);
    } else {
        let s = bits_of(u, n);
        let r = bits_of(u >> 1, (n - 1) as nat);
        assert(s.drop_last() =~= r) by {
            assert forall|i: int| 0 <= i < n - 1 implies s[i] == r[i] by {
                lemma_bit_shr(u, 1, (n - 2 - i) as u64);
            }
        }
        lemma_value_of_bits(u >> 1, (n - 1) as nat);
        lemma_value_step(u, n as u64);
        assert(s.last() == bit_at(u, 0));
        assert(bit_at(u, 0) == (u & 1 == 1)) by (bit_vector);
    }
}

/// A masked word has no bits above the mask.
pub proof fn lemma_masked_fits(u: u64, n: u64)
    by (bit_vector)
    requires
        n <= 64,
    ensures
        (u & low_mask(n)) & low_mask(n) == u & low_mask(n),
        u & low_mask(n) <= low_mask(n),
        low_mask(8) == 255,
{
}

/// Two masked words set side by side fit in the sum of their widths.
pub proof fn lemma_joined_fits(a: u64, h: u64, b: u64, l: u64)
    by (bit_vector)
    requires
        1 <= h,
        1 <= l,
        h + l <= 64,
    ensures
        (((a & low_mask(h)) << l) | (b & low_mask(l))) & low_mask((h + l) as u64) == ((a
            & low_mask(h)) << l) | (b & low_mask(l)),
{
}

/// The bits of a byte sequence are those of a prefix followed by those of
/// the rest.
pub proof fn lemma_bytes_split(s: Seq<u8>, k: int)
    requires
        0 <= k <= s.len(),
    ensures
        bytes_to_bits(s) == bytes_to_bits(s.take(k)) + bytes_to_bits(s.skip(k)),
{
    let l = bytes_to_bits(s.take(k));
    let r = bytes_to_bits(s.skip(k));
    assert forall|j: int| 0 <= j < 8 * s.len() implies bytes_to_bits(s)[j] == (l + r)[j] by {
        if j < 8 * k {
            assert(s.take(k)[j / 8] == s[j / 8]);
        } else {
            assert(s.skip(k)[(j - 8 * k) / 8] == s[j / 8]);
            assert((j - 8 * k) % 8 == j % 8);
        }
    }
    assert(bytes_to_bits(s) =~= l + r);
}

/// The masks of the widths that the chunk format uses.
pub proof fn lemma_format_masks()
    by (bit_vector)
    ensures
        low_mask(5) == 31,
        low_mask(6) == 63,
        low_mask(14) == 0x3fff,
        low_mask(17) == 0x1_ffff,
        low_mask(20) == 0xf_ffff,
        low_mask(64) == 0xffff_ffff_ffff_ffff,
{
}

/// A word that is no larger than a mask keeps its value under it.
pub proof fn lemma_fits_mask(x: u64, n: u64)
    by (bit_vector)
    requires
        n <= 64,
        x <= low_mask(n),
    ensures
        x & low_mask(n) == x,
{
}

/// What was written can be read back: behind the `n` low bits of `u`, a
/// read of `n` bits gives `u` cut to `n` bits and leaves what follows.
pub proof fn lemma_read_back(u: u64, n: nat, rest: Seq<bool>)
    requires
        n <= 64,
    ensures
        bits_value((bits_of(u, n) + rest).take(n as int)) == u & low_mask(n as u64),
        (bits_of(u, n) + rest).skip(n as int) == rest,
{
    assert((bits_of(u, n) + rest).take(n as int) =~= bits_of(u, n));
    assert((bits_of(u, n) + rest).skip(n as int) =~= rest);
    lemma_value_of_bits(u, n);
}

/// The first byte of a byte sequence can be read back from its bits.
pub proof fn lemma_first_byte(s: Seq<u8>, rest: Seq<bool>)
    requires
        s.len() >= 1,
    ensures
        (bytes_to_bits(s) + rest).len() >= 8,
        bits_value((bytes_to_bits(s) + rest).take(8)) == s[0],
        (bytes_to_bits(s) + rest).skip(8) == bytes_to_bits(s.skip(1)) + rest,
{
    let bits = bytes_to_bits(s) + rest;
    let b = s[0];
    assert forall|i: int| 0 <= i < 8 implies bits.take(8)[i] == bits_of(b as u64, 8)[i] by {
        lemma_byte_widened(b, (7 - i) as u64);
    }
    assert(bits.take(8) =~= bits_of(b as u64, 8));
    lemma_value_of_bits(b as u64, 8);
    lemma_masked_fits(0, 8);
    lemma_fits_mask(b as u64, 8);
    let tail = bytes_to_bits(s.skip(1)) + rest;
    assert forall|j: int| 0 <= j < tail.len() implies bits.skip(8)[j] == tail[j] by {
        if j < 8 * (s.len() - 1) {
            assert(s.skip(1)[j / 8] == s[(j + 8) / 8]);
            assert((j + 8) % 8 == j % 8);
        }
    }
    assert(bits.skip(8) =~= tail);
}

} // verus!
