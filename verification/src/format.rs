//! The chunk format, as mathematics: which bits a sample is written as, and
//! what a reader makes of a sequence of bits.
//!
//! A chunk is a two-byte big-endian sample count followed by the samples'
//! bits. The first sample is its timestamp as a zig-zag varint and its value
//! as 64 raw bits. The second is the timestamp's delta as a varint and a
//! value block. Every later one is the delta of the delta, in one of five
//! prefix-coded widths, and a value block. A value block encodes the XOR of
//! the value with the previous one.

use crate::bits::{bits_of, bits_value, bytes_to_bits};
use vstd::arithmetic::power2::{lemma2_to64, lemma_pow2_adds, pow2};
use vstd::prelude::*;
use vstd::std_specs::bits::{u64_leading_zeros, u64_trailing_zeros};

verus! {

/// The `leading` of an appender that has not yet written a window.
pub const NO_WINDOW: u8 = 0xff;

/// The most samples a chunk can hold.
pub const MAX_SAMPLES: u16 = 0xffff;

// ---------------------------------------------------------------------
// Variable-length integers
// ---------------------------------------------------------------------
/// The unsigned varint of `x`: seven bits per byte, least significant group
/// first, the high bit set on every byte but the last.
pub open spec fn varint_bytes(x: u64) -> Seq<u8>
    decreases x,
{
    if x < 128 {
        seq![x as u8]
    } else {
        seq![(x % 128 + 128) as u8] + varint_bytes(x / 128)
    }
}

proof fn lemma_varint_len_under(x: u64, k: nat)
    requires
        k >= 1,
        x < pow2(7 * k),
    ensures
        1 <= varint_bytes(x).len() <= k,
    decreases k,
{
    lemma2_to64();
    if x >= 128 {
        lemma_pow2_adds(7, (7 * (k - 1)) as nat);
        assert(7 + 7 * (k - 1) == 7 * k);
        if k == 1 {
            assert(pow2(0) == 1);
        } else {
            lemma_varint_len_under(x / 128, (k - 1) as nat);
        }
    }
}

/// A varint of a 64-bit number takes from one to ten bytes.
pub proof fn lemma_varint_len(x: u64)
    ensures
        1 <= varint_bytes(x).len() <= 10,
{
    lemma2_to64();
    lemma_pow2_adds(64, 6);
    lemma_varint_len_under(x, 10);
}

/// The number that the groups of seven bits in `s` spell, cut to 64 bits.
pub open spec fn varint_value(s: Seq<u8>) -> u64
    decreases s.len(),
{
    if s.len() == 0 {
        0
    } else {
        ((s[0] % 128 + 128 * varint_value(s.skip(1))) % 0x1_0000_0000_0000_0000) as u64
    }
}

/// No byte before the last ends the varint, and there are at most ten.
pub open spec fn varint_framed(s: Seq<u8>) -> bool {
    &&& s.len() <= 10
    &&& forall|i: int| 0 <= i < s.len() - 1 ==> s[i] >= 128
}

/// The frame is a complete varint in its shortest form: it ends in a byte
/// without the high bit, which is zero only if it stands alone.
pub open spec fn varint_frame_ok(s: Seq<u8>) -> bool {
    &&& s.len() >= 1
    &&& s.last() < 128
    &&& (s.last() == 0 ==> s.len() == 1)
}

/// The bytes that reading one varint takes from `bits`: whole bytes up to
/// and including the first without the high bit, `limit` at most, and fewer
/// where the bits run out.
pub open spec fn varint_frame(bits: Seq<bool>, limit: nat) -> Seq<u8>
    decreases limit,
{
    if limit == 0 || bits.len() < 8 {
        Seq::empty()
    } else {
        let b = bits_value(bits.take(8)) as u8;
        if b < 128 {
            seq![b]
        } else {
            seq![b] + varint_frame(bits.skip(8), (limit - 1) as nat)
        }
    }
}

/// The bits left after `varint_frame` has been read; none where the bits
/// ran out.
pub open spec fn after_varint_frame(bits: Seq<bool>, limit: nat) -> Seq<bool>
    decreases limit,
{
    if limit == 0 {
        bits
    } else if bits.len() < 8 {
        Seq::empty()
    } else if bits_value(bits.take(8)) < 128 {
        bits.skip(8)
    } else {
        after_varint_frame(bits.skip(8), (limit - 1) as nat)
    }
}

/// The varint at the head of `bits`, if it is complete and minimal.
pub open spec fn read_uvarint(bits: Seq<bool>) -> Option<u64> {
    let frame = varint_frame(bits, 10);
    if varint_frame_ok(frame) {
        Some(varint_value(frame))
    } else {
        None
    }
}

// ---------------------------------------------------------------------
// Timestamps
// ---------------------------------------------------------------------
/// Signed to unsigned, small magnitudes to small numbers:
/// 0, -1, 1, -2, ... become 0, 1, 2, 3, ...
pub open spec fn zigzag(t: i64) -> u64 {
    if t >= 0 {
        (2 * t) as u64
    } else {
        (-2 * t - 1) as u64
    }
}

/// The inverse of `zigzag`.
pub open spec fn unzigzag(u: u64) -> i64 {
    if u % 2 == 0 {
        (u / 2) as i64
    } else {
        (-(u / 2) - 1) as i64
    }
}

/// `t - prev` as an unsigned 64-bit number (modulo 2^64 where `t < prev`).
pub open spec fn delta_between(prev: i64, t: i64) -> u64 {
    if t >= prev {
        (t - prev) as u64
    } else {
        (t - prev + 0x1_0000_0000_0000_0000) as u64
    }
}

/// `t + delta` as a signed 64-bit number (modulo 2^64).
pub open spec fn advance(t: i64, delta: u64) -> i64 {
    if t + delta <= i64::MAX {
        (t + delta) as i64
    } else {
        (t + delta - 0x1_0000_0000_0000_0000) as i64
    }
}

/// `delta - prev` as a signed 64-bit number (modulo 2^64).
pub open spec fn delta_of_delta(prev: u64, delta: u64) -> i64 {
    if delta - prev > i64::MAX {
        (delta - prev - 0x1_0000_0000_0000_0000) as i64
    } else if delta - prev < i64::MIN {
        (delta - prev + 0x1_0000_0000_0000_0000) as i64
    } else {
        (delta - prev) as i64
    }
}

/// `prev + dod` as an unsigned 64-bit number (modulo 2^64).
pub open spec fn apply_dod(prev: u64, dod: i64) -> u64 {
    if prev + dod < 0 {
        (prev + dod + 0x1_0000_0000_0000_0000) as u64
    } else if prev + dod > u64::MAX {
        (prev + dod - 0x1_0000_0000_0000_0000) as u64
    } else {
        (prev + dod) as u64
    }
}

/// The two's complement bit pattern of `x`.
pub open spec fn twos_complement(x: i64) -> u64 {
    if x >= 0 {
        x as u64
    } else {
        (x + 0x1_0000_0000_0000_0000) as u64
    }
}

/// The signed number with the two's complement bit pattern `u`.
pub open spec fn from_twos_complement(u: u64) -> i64 {
    if u <= i64::MAX {
        u as i64
    } else {
        (u - 0x1_0000_0000_0000_0000) as i64
    }
}

/// `x` lies in the range that a delta of deltas may have to be written in
/// `nbits` bits: from `-(2^(nbits-1) - 1)` to `2^(nbits-1)`, both included.
pub open spec fn in_bit_range(x: i64, nbits: nat) -> bool {
    -(pow2((nbits - 1) as nat) - 1) <= x <= pow2((nbits - 1) as nat)
}

/// An unsigned payload of `width` bits read as signed: from `2^(width-1)`
/// on it stands for `x - 2^width`.
pub open spec fn sign_extend(x: u64, width: nat) -> i64 {
    if x >= pow2((width - 1) as nat) {
        (x - pow2(width)) as i64
    } else {
        x as i64
    }
}

/// The bits of a delta of deltas: a prefix that names the width, then the
/// low bits of its two's complement.
pub open spec fn dod_bits(dod: i64) -> Seq<bool> {
    if dod == 0 {
        seq![false]
    } else if in_bit_range(dod, 14) {
        bits_of(0x02, 2) + bits_of(twos_complement(dod), 14)
    } else if in_bit_range(dod, 17) {
        bits_of(0x06, 3) + bits_of(twos_complement(dod), 17)
    } else if in_bit_range(dod, 20) {
        bits_of(0x0e, 4) + bits_of(twos_complement(dod), 20)
    } else {
        bits_of(0x0f, 4) + bits_of(twos_complement(dod), 64)
    }
}

/// A payload of `width` bits at the head of `bits`, read as signed.
pub open spec fn read_dod_payload(bits: Seq<bool>, width: nat) -> Option<(i64, Seq<bool>)> {
    if bits.len() < width {
        None
    } else {
        Some((sign_extend(bits_value(bits.take(width as int)) as u64, width), bits.skip(width as int)))
    }
}

/// The delta of deltas at the head of `bits`, and the bits after it;
/// nothing where the bits run out.
pub open spec fn read_dod(bits: Seq<bool>) -> Option<(i64, Seq<bool>)> {
    if bits.len() < 1 {
        None
    } else if !bits[0] {
        Some((0i64, bits.skip(1)))
    } else if bits.len() < 2 {
        None
    } else if !bits[1] {
        read_dod_payload(bits.skip(2), 14)
    } else if bits.len() < 3 {
        None
    } else if !bits[2] {
        read_dod_payload(bits.skip(3), 17)
    } else if bits.len() < 4 {
        None
    } else if !bits[3] {
        read_dod_payload(bits.skip(4), 20)
    } else if bits.len() < 68 {
        None
    } else {
        Some((from_twos_complement(bits_value(bits.subrange(4, 68)) as u64), bits.skip(68)))
    }
}

// ---------------------------------------------------------------------
// Values
// ---------------------------------------------------------------------
/// The leading zeros of a value delta, counted as 31 from 32 on, so that
/// the count fits in five bits.
pub open spec fn clamped_leading(vd: u64) -> u8 {
    if u64_leading_zeros(vd) >= 32 {
        31u8
    } else {
        u64_leading_zeros(vd) as u8
    }
}

/// The appender has a window, and the value delta fits in it.
pub open spec fn fits_window(leading: u8, trailing: u8, vd: u64) -> bool {
    &&& leading != NO_WINDOW
    &&& clamped_leading(vd) >= leading
    &&& u64_trailing_zeros(vd) >= trailing
}

/// The window of leading and trailing zeros after `v` has been written
/// behind `prev`.
pub open spec fn window_after(leading: u8, trailing: u8, prev: u64, v: u64) -> (u8, u8) {
    let vd = v ^ prev;
    if vd == 0 || fits_window(leading, trailing, vd) {
        (leading, trailing)
    } else {
        (clamped_leading(vd), u64_trailing_zeros(vd) as u8)
    }
}

/// The value block of `v` behind `prev`: one zero bit where they are equal;
/// else a one, then either a zero and the delta's bits inside the window at
/// hand, or a one, a new window (five bits of leading zeros, six bits of
/// width, 64 written as 0) and the delta's bits inside it.
pub open spec fn value_bits(leading: u8, trailing: u8, prev: u64, v: u64) -> Seq<bool> {
    let vd = v ^ prev;
    if vd == 0 {
        seq![false]
    } else if fits_window(leading, trailing, vd) {
        seq![true, false] + bits_of(vd >> trailing, (64 - leading - trailing) as nat)
    } else {
        let l = clamped_leading(vd);
        let t = u64_trailing_zeros(vd) as u8;
        let width = (64 - l - t) as u8;
        seq![true, true] + bits_of(l as u64, 5) + bits_of(width as u64, 6) + bits_of(
            vd >> t,
            width as nat,
        )
    }
}

/// `64 - leading - trailing`, modulo 256: the width of a reader's window.
pub open spec fn window_width(leading: u8, trailing: u8) -> u8 {
    if 64 - leading - trailing < 0 {
        (64 - leading - trailing + 256) as u8
    } else {
        (64 - leading - trailing) as u8
    }
}

/// `x` shifted left by `n` bits; nothing is left of it from 64 on.
pub open spec fn shifted_left(x: u64, n: u8) -> u64 {
    if n < 64 {
        x << n
    } else {
        0
    }
}

/// The delta's bits inside the window at the head of `bits`, applied to
/// `prev`.
pub open spec fn read_significant(leading: u8, trailing: u8, prev: u64, bits: Seq<bool>) -> Option<
    (u8, u8, u64, Seq<bool>),
> {
    let width = window_width(leading, trailing) as int;
    if bits.len() < width {
        None
    } else {
        Some(
            (
                leading,
                trailing,
                prev ^ shifted_left(bits_value(bits.take(width)) as u64, trailing),
                bits.skip(width),
            ),
        )
    }
}

/// The value block at the head of `bits`: the window and the value after
/// it, and the bits left; nothing where the bits run out.
pub open spec fn read_value_block(leading: u8, trailing: u8, prev: u64, bits: Seq<bool>) -> Option<
    (u8, u8, u64, Seq<bool>),
> {
    if bits.len() < 1 {
        None
    } else if !bits[0] {
        Some((leading, trailing, prev, bits.skip(1)))
    } else if bits.len() < 2 {
        None
    } else if !bits[1] {
        read_significant(leading, trailing, prev, bits.skip(2))
    } else if bits.len() < 13 {
        None
    } else {
        let l = bits_value(bits.subrange(2, 7)) as u8;
        let raw = bits_value(bits.subrange(7, 13)) as u8;
        let width = if raw == 0 {
            64u8
        } else {
            raw
        };
        let t = window_width(l, width);
        read_significant(l, t, prev, bits.skip(13))
    }
}

// ---------------------------------------------------------------------
// Writing a sample
// ---------------------------------------------------------------------
/// What an appender remembers of the samples written so far.
pub struct Written {
    pub t: i64,
    pub v: u64,
    pub t_delta: u64,
    pub leading: u8,
    pub trailing: u8,
}

/// The bits of the sample `(t, v)` behind `n` samples remembered as `w`.
pub open spec fn sample_bits(w: Written, n: nat, t: i64, v: u64) -> Seq<bool> {
    if n == 0 {
        bytes_to_bits(varint_bytes(zigzag(t))) + bits_of(v, 64)
    } else if n == 1 {
        bytes_to_bits(varint_bytes(delta_between(w.t, t))) + value_bits(
            w.leading,
            w.trailing,
            w.v,
            v,
        )
    } else {
        dod_bits(delta_of_delta(w.t_delta, delta_between(w.t, t))) + value_bits(
            w.leading,
            w.trailing,
            w.v,
            v,
        )
    }
}

/// What the appender remembers after that sample.
pub open spec fn written_after(w: Written, n: nat, t: i64, v: u64) -> Written {
    if n == 0 {
        Written { t, v, t_delta: 0, leading: w.leading, trailing: w.trailing }
    } else {
        Written {
            t,
            v,
            t_delta: delta_between(w.t, t),
            leading: window_after(w.leading, w.trailing, w.v, v).0,
            trailing: window_after(w.leading, w.trailing, w.v, v).1,
        }
    }
}

/// What an appender remembers that starts behind `n` samples which a
/// reader left at `c`: the reader's sample and window, and no window at all
/// behind no sample.
pub open spec fn resumed(c: Cursor, n: nat) -> Written {
    Written {
        t: c.t,
        v: c.v,
        t_delta: c.t_delta,
        leading: if n == 0 {
            NO_WINDOW
        } else {
            c.leading
        },
        trailing: c.trailing,
    }
}

/// The sample count in the first two bytes of a chunk, big-endian.
pub open spec fn header_count(bytes: Seq<u8>) -> nat {
    (bytes[0] * 256 + bytes[1]) as nat
}

// ---------------------------------------------------------------------
// Reading a sample
// ---------------------------------------------------------------------
/// How reading a sample fails.
pub enum Failure {
    /// The bits ran out in the middle of a sample.
    Eof,
    /// The bytes taken for a varint were cut short, too many or not in
    /// the shortest form.
    Varint(Seq<u8>),
}

/// An iterator over a chunk: the bits not yet read, how many samples the
/// chunk holds and how many have been read, and the sample it stands at
/// with what is needed to read the next.
pub struct Cursor {
    pub bits: Seq<bool>,
    pub num_total: u16,
    pub num_read: u16,
    pub t: i64,
    pub v: u64,
    pub t_delta: u64,
    pub leading: u8,
    pub trailing: u8,
}

impl Cursor {
    /// The window is between 1 and 64 bits wide.
    pub open spec fn window_ok(self) -> bool {
        1 <= window_width(self.leading, self.trailing) <= 64
    }

    /// The cursor with other bits left to read.
    pub open spec fn with_bits(self, bits: Seq<bool>) -> Cursor {
        Cursor { bits, ..self }
    }

    /// The cursor one sample on: at `(t, v)`, with `bits` left to read.
    pub open spec fn moved(
        self,
        t: i64,
        v: u64,
        t_delta: u64,
        leading: u8,
        trailing: u8,
        bits: Seq<bool>,
    ) -> Cursor {
        Cursor {
            bits,
            num_total: self.num_total,
            num_read: (self.num_read + 1) as u16,
            t,
            v,
            t_delta,
            leading,
            trailing,
        }
    }

    /// A cursor before the first of `num_total` samples encoded in `bits`.
    pub open spec fn start(bits: Seq<bool>, num_total: u16) -> Cursor {
        Cursor {
            bits,
            num_total,
            num_read: 0,
            t: i64::MIN,
            v: 0,
            t_delta: 0,
            leading: 0,
            trailing: 0,
        }
    }
}

/// Reading the value block that ends a sample whose timestamp is known.
pub open spec fn finish_sample(c: Cursor, t: i64, t_delta: u64, bits: Seq<bool>) -> (
    Result<bool, Failure>,
    Cursor,
) {
    match read_value_block(c.leading, c.trailing, c.v, bits) {
        Some((leading, trailing, v, rest)) => (
            Ok(true),
            c.moved(t, v, t_delta, leading, trailing, rest),
        ),
        None => (Err(Failure::Eof), c.with_bits(Seq::empty())),
    }
}

/// One step of an iterator: `Ok(false)` and no change where every sample
/// has been read; else the next sample is read, and the cursor stands at it
/// with `Ok(true)`. Where that fails, the cursor keeps its sample; its bits
/// are those behind the varint that failed, or none where they ran out.
pub open spec fn decode_next(c: Cursor) -> (Result<bool, Failure>, Cursor) {
    if c.num_read == c.num_total {
        (Ok(false), c)
    } else if c.num_read == 0 {
        let rest = after_varint_frame(c.bits, 10);
        match read_uvarint(c.bits) {
            None => (Err(Failure::Varint(varint_frame(c.bits, 10))), c.with_bits(rest)),
            Some(ux) => if rest.len() < 64 {
                (Err(Failure::Eof), c.with_bits(Seq::empty()))
            } else {
                (
                    Ok(true),
                    c.moved(
                        unzigzag(ux),
                        bits_value(rest.take(64)) as u64,
                        c.t_delta,
                        c.leading,
                        c.trailing,
                        rest.skip(64),
                    ),
                )
            },
        }
    } else if c.num_read == 1 {
        let rest = after_varint_frame(c.bits, 10);
        match read_uvarint(c.bits) {
            None => (Err(Failure::Varint(varint_frame(c.bits, 10))), c.with_bits(rest)),
            Some(t_delta) => finish_sample(c, advance(c.t, t_delta), t_delta, rest),
        }
    } else {
        match read_dod(c.bits) {
            None => (Err(Failure::Eof), c.with_bits(Seq::empty())),
            Some((dod, rest)) => {
                let t_delta = apply_dod(c.t_delta, dod);
                finish_sample(c, advance(c.t, t_delta), t_delta, rest)
            },
        }
    }
}

/// Stepping until the cursor stands at a sample whose timestamp is at
/// least `target`: `Ok(true)` there, `Ok(false)` where the samples end
/// before, and the failure where a step fails.
pub open spec fn seek_from(c: Cursor, target: i64) -> (Result<bool, Failure>, Cursor)
    decreases c.num_total - c.num_read,
{
    if c.num_read != 0 && c.t >= target {
        (Ok(true), c)
    } else {
        let (r, next) = decode_next(c);
        if r == Ok::<bool, Failure>(true) && c.num_read < c.num_total {
            seek_from(next, target)
        } else {
            (r, next)
        }
    }
}

/// Stepping until the samples end or a step fails.
pub open spec fn drain(c: Cursor) -> (Result<bool, Failure>, Cursor)
    decreases c.num_total - c.num_read,
{
    let (r, next) = decode_next(c);
    if r == Ok::<bool, Failure>(true) && c.num_read < c.num_total {
        drain(next)
    } else {
        (r, next)
    }
}

} // verus!
