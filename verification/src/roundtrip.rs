//! What is written can be read back: the proofs that a reader recovers the
//! samples that an appender wrote.
//!
//! To reason about a chunk in verified code: `encoded(s)` is what a chunk
//! holds after the samples `s`, and `lemma_append_extends` follows it from
//! one `append` to the next; `XORAppender::lemma_released` hands what the
//! appender wrote over to the chunk; `theorem_chunk_round_trip`,
//! `theorem_chunk_seek`, `theorem_chunk_seek_past` and
//! `theorem_chunk_resume` say what `next`, `seek` and `appender` then do.

use crate::bits::{
    bit_at, bits_of, bits_value, bytes_to_bits, lemma_first_byte, lemma_fits_mask,
    lemma_format_masks, lemma_read_back, low_mask,
};
use crate::chunk::{lemma_start_bits, XORChunk};
use crate::format::{
    advance, after_varint_frame, apply_dod, clamped_leading, decode_next, delta_between,
    delta_of_delta, dod_bits, drain, finish_sample, fits_window, in_bit_range, lemma_varint_len,
    read_dod, read_uvarint, read_value_block, resumed, sample_bits, seek_from, twos_complement,
    value_bits, varint_bytes, varint_frame, varint_value, window_after, window_width,
    written_after, zigzag, Cursor, Failure, Written, NO_WINDOW,
};
use vstd::arithmetic::power2::lemma2_to64;
use vstd::prelude::*;
use vstd::std_specs::bits::{
    axiom_u64_leading_zeros, axiom_u64_trailing_zeros, u64_leading_zeros, u64_trailing_zeros,
};

verus! {

// ---------------------------------------------------------------------
// Bits
// ---------------------------------------------------------------------
/// The bits of the groups `ws`, each a value and the number of its low bits
/// to write, written in order.
pub open spec fn groups_bits(ws: Seq<(u64, nat)>) -> Seq<bool>
    decreases ws.len(),
{
    if ws.len() == 0 {
        Seq::empty()
    } else {
        bits_of(ws[0].0, ws[0].1) + groups_bits(ws.skip(1))
    }
}

/// The numbers that groups of the given widths, read in order off `bits`,
/// come out as.
pub open spec fn read_groups(bits: Seq<bool>, widths: Seq<nat>) -> Seq<nat>
    decreases widths.len(),
{
    if widths.len() == 0 {
        Seq::empty()
    } else {
        seq![bits_value(bits.take(widths[0] as int))] + read_groups(
            bits.skip(widths[0] as int),
            widths.skip(1),
        )
    }
}

/// A single bit is a group of width one.
pub proof fn lemma_bit_is_group(b: bool)
    ensures
        seq![b] == bits_of(if b { 1u64 } else { 0u64 }, 1),
        bits_value(seq![b]) == (if b { 1nat } else { 0nat }),
{
    assert(bit_at(1, 0) && !bit_at(0, 0)) by (bit_vector);
    assert(seq![b] =~= bits_of(if b { 1u64 } else { 0u64 }, 1));
    assert(seq![b].drop_last() =~= Seq::<bool>::empty());
    assert(bits_value(seq![b].drop_last()) == 0);
}

/// Whatever single bits, bytes and groups of up to 64 bits are written, in
/// whatever order, reading groups of the same widths in the same order
/// gives each value back, cut to its width. What follows the groups does
/// not matter.
pub proof fn theorem_groups_round_trip(ws: Seq<(u64, nat)>, rest: Seq<bool>)
    requires
        forall|i: int| 0 <= i < ws.len() ==> (#[trigger] ws[i]).1 <= 64,
    ensures
        read_groups(groups_bits(ws) + rest, ws.map_values(|w: (u64, nat)| w.1)) == ws.map_values(
            |w: (u64, nat)| (w.0 & low_mask(w.1 as u64)) as nat,
        ),
    decreases ws.len(),
{
    let widths = ws.map_values(|w: (u64, nat)| w.1);
    let values = ws.map_values(|w: (u64, nat)| (w.0 & low_mask(w.1 as u64)) as nat);
    let bits = groups_bits(ws) + rest;
    if ws.len() == 0 {
        assert(read_groups(bits, widths) =~= values);
    } else {
        let (u, n) = ws[0];
        let tail = groups_bits(ws.skip(1)) + rest;
        assert(bits =~= bits_of(u, n) + tail);
        lemma_read_back(u, n, tail);
        assert forall|i: int| 0 <= i < ws.skip(1).len() implies (#[trigger] ws.skip(1)[i]).1
            <= 64 by {
            assert(ws.skip(1)[i] == ws[i + 1]);
        }
        theorem_groups_round_trip(ws.skip(1), rest);
        assert(widths.skip(1) =~= ws.skip(1).map_values(|w: (u64, nat)| w.1));
        assert(values.skip(1) =~= ws.skip(1).map_values(
            |w: (u64, nat)| (w.0 & low_mask(w.1 as u64)) as nat,
        ));
        assert(read_groups(bits, widths) =~= values);
    }
}

// ---------------------------------------------------------------------
// Variable-length integers
// ---------------------------------------------------------------------
proof fn lemma_varint_last(x: u64)
    ensures
        varint_bytes(x).len() >= 1,
        varint_bytes(x).last() < 128,
        x >= 1 ==> varint_bytes(x).last() >= 1,
    decreases x,
{
    if x >= 128 {
        lemma_varint_last(x / 128);
        let head = seq![(x % 128 + 128) as u8];
        assert((head + varint_bytes(x / 128)).last() == varint_bytes(x / 128).last());
    }
}

/// The varint of a number spells that number.
pub proof fn lemma_varint_value(x: u64)
    ensures
        varint_value(varint_bytes(x)) == x,
    decreases x,
{
    let s = varint_bytes(x);
    if x < 128 {
        assert(s.skip(1) =~= Seq::<u8>::empty());
        assert(varint_value(s.skip(1)) == 0);
    } else {
        lemma_varint_value(x / 128);
        assert(s.skip(1) =~= varint_bytes(x / 128));
        assert(s[0] == (x % 128 + 128) as u8);
    }
}

/// Reading a varint takes exactly the bytes that writing it gave.
pub proof fn lemma_varint_frame(x: u64, limit: nat, rest: Seq<bool>)
    requires
        limit >= varint_bytes(x).len(),
    ensures
        varint_frame(bytes_to_bits(varint_bytes(x)) + rest, limit) == varint_bytes(x),
        after_varint_frame(bytes_to_bits(varint_bytes(x)) + rest, limit) == rest,
    decreases x,
{
    let s = varint_bytes(x);
    let bits = bytes_to_bits(s) + rest;
    lemma_first_byte(s, rest);
    if x < 128 {
        assert(s.skip(1) =~= Seq::<u8>::empty());
        assert(bytes_to_bits(s.skip(1)) + rest =~= rest);
        assert(varint_frame(bits, limit) =~= s);
    } else {
        assert(s.skip(1) =~= varint_bytes(x / 128));
        lemma_varint_frame(x / 128, (limit - 1) as nat, rest);
        assert(varint_frame(bits, limit) =~= s);
    }
}

/// A varint that was written is read back as the number it was written
/// for, and the reader is left behind it.
pub proof fn lemma_varint_round_trip(x: u64, rest: Seq<bool>)
    ensures
        read_uvarint(bytes_to_bits(varint_bytes(x)) + rest) == Some(x),
        after_varint_frame(bytes_to_bits(varint_bytes(x)) + rest, 10) == rest,
{
    lemma_varint_len(x);
    lemma_varint_frame(x, 10, rest);
    lemma_varint_value(x);
    lemma_varint_last(x);
    if varint_bytes(x).len() > 1 {
        assert(x >= 128);
    }
}

// ---------------------------------------------------------------------
// Deltas of deltas
// ---------------------------------------------------------------------
/// The three deltas of deltas that are written at the upper end of a
/// width and read back as its lower end: 2^13, 2^16 and 2^19.
pub open spec fn survives(dod: i64) -> bool {
    dod != 0x2000 && dod != 0x1_0000 && dod != 0x8_0000
}

proof fn lemma_prefix_bits()
    by (bit_vector)
    ensures
        bit_at(0x02, 1) && !bit_at(0x02, 0),
        bit_at(0x06, 2) && bit_at(0x06, 1) && !bit_at(0x06, 0),
        bit_at(0x0e, 3) && bit_at(0x0e, 2) && bit_at(0x0e, 1) && !bit_at(0x0e, 0),
        bit_at(0x0f, 3) && bit_at(0x0f, 2) && bit_at(0x0f, 1) && bit_at(0x0f, 0),
{
}

proof fn lemma_payload_bits(x: u64)
    by (bit_vector)
    ensures
        x < 0x2000 ==> x & 0x3fff == x,
        x > 0xffff_ffff_ffff_e000 ==> x & 0x3fff == x - 0xffff_ffff_ffff_c000 && x & 0x3fff
            > 0x2000,
        x < 0x1_0000 ==> x & 0x1_ffff == x,
        x > 0xffff_ffff_ffff_0000 ==> x & 0x1_ffff == x - 0xffff_ffff_fffe_0000 && x & 0x1_ffff
            > 0x1_0000,
        x < 0x8_0000 ==> x & 0xf_ffff == x,
        x > 0xffff_ffff_fff8_0000 ==> x & 0xf_ffff == x - 0xffff_ffff_fff0_0000 && x & 0xf_ffff
            > 0x8_0000,
{
}

/// A delta of deltas that was written is read back, but for the three
/// that do not survive.
pub proof fn lemma_dod_round_trip(dod: i64, rest: Seq<bool>)
    requires
        survives(dod),
    ensures
        read_dod(dod_bits(dod) + rest) == Some((dod, rest)),
{
    let bits = dod_bits(dod) + rest;
    let x = twos_complement(dod);
    lemma_prefix_bits();
    lemma_payload_bits(x);
    lemma_format_masks();
    lemma2_to64();
    if dod == 0 {
        assert(bits.skip(1) =~= rest);
    } else if in_bit_range(dod, 14) {
        assert(bits.skip(2) =~= bits_of(x, 14) + rest);
        lemma_read_back(x, 14, rest);
    } else if in_bit_range(dod, 17) {
        assert(bits.skip(3) =~= bits_of(x, 17) + rest);
        lemma_read_back(x, 17, rest);
    } else if in_bit_range(dod, 20) {
        assert(bits.skip(4) =~= bits_of(x, 20) + rest);
        lemma_read_back(x, 20, rest);
    } else {
        assert(bits.skip(4) =~= bits_of(x, 64) + rest);
        assert(bits.subrange(4, 68) =~= (bits_of(x, 64) + rest).take(64));
        assert(bits.skip(68) =~= (bits_of(x, 64) + rest).skip(64));
        lemma_read_back(x, 64, rest);
        lemma_fits_mask(x, 64);
    }
}

// ---------------------------------------------------------------------
// Values
// ---------------------------------------------------------------------
proof fn lemma_xor_back(prev: u64, v: u64)
    by (bit_vector)
    ensures
        prev ^ (v ^ prev) == v,
        v ^ prev == 0 <==> v == prev,
        64u64 & low_mask(6) == 0,
{
}

/// A value delta fits between its leading and its trailing zeros.
proof fn lemma_window_bits(vd: u64, lz: u64, tz: u64, a: u64, b: u64)
    by (bit_vector)
    requires
        lz <= 64,
        tz <= 64,
        a <= lz,
        b <= tz,
        a + b <= 63,
        vd >> ((64 - lz) as u64) == 0,
        vd << ((64 - tz) as u64) == 0,
    ensures
        (vd >> b) & low_mask((64 - a - b) as u64) == vd >> b,
        (vd >> b) << b == vd,
{
}

/// The cursor's window is the appender's, where the appender has one.
pub open spec fn same_window(leading: u8, trailing: u8, w_leading: u8, w_trailing: u8) -> bool {
    w_leading == NO_WINDOW || (leading == w_leading && trailing == w_trailing)
}

/// A value block that was written is read back, and leaves the reader with
/// the window that the appender has.
pub proof fn lemma_value_round_trip(
    leading: u8,
    trailing: u8,
    w_leading: u8,
    w_trailing: u8,
    prev: u64,
    v: u64,
    rest: Seq<bool>,
)
    requires
        same_window(leading, trailing, w_leading, w_trailing),
        1 <= window_width(leading, trailing) <= 64,
    ensures
        match read_value_block(
            leading,
            trailing,
            prev,
            value_bits(w_leading, w_trailing, prev, v) + rest,
        ) {
            Some((l2, t2, v2, r2)) => {
                &&& v2 == v
                &&& r2 == rest
                &&& 1 <= window_width(l2, t2) <= 64
                &&& same_window(
                    l2,
                    t2,
                    window_after(w_leading, w_trailing, prev, v).0,
                    window_after(w_leading, w_trailing, prev, v).1,
                )
            },
            None => false,
        },
{
    let vd = v ^ prev;
    let bits = value_bits(w_leading, w_trailing, prev, v) + rest;
    lemma_xor_back(prev, v);
    lemma_format_masks();
    if vd == 0 {
        assert(bits.skip(1) =~= rest);
    } else {
        axiom_u64_leading_zeros(vd);
        axiom_u64_trailing_zeros(vd);
        let lz = u64_leading_zeros(vd) as u64;
        let tz = u64_trailing_zeros(vd) as u64;
        assert((vd >> tz) & 1u64 == 1u64);
        assert(lz + tz <= 63);
        assert(vd >> ((64 - lz) as u64) == 0);
        assert(vd << ((64 - tz) as u64) == 0);
        if fits_window(w_leading, w_trailing, vd) {
            let width = (64 - leading - trailing) as nat;
            let payload = vd >> trailing;
            assert(bits.skip(2) =~= bits_of(payload, width) + rest);
            lemma_read_back(payload, width, rest);
            lemma_window_bits(vd, lz, tz, leading as u64, trailing as u64);
        } else {
            let l = clamped_leading(vd);
            let t = tz as u8;
            let width = (64 - l - t) as u8;
            let payload = vd >> t;
            let tail = bits_of(payload, width as nat) + rest;
            assert(bits.subrange(2, 7) =~= (bits_of(l as u64, 5) + (bits_of(width as u64, 6)
                + tail)).take(5));
            assert(bits.subrange(7, 13) =~= (bits_of(width as u64, 6) + tail).take(6));
            assert(bits.skip(13) =~= tail);
            lemma_read_back(l as u64, 5, bits_of(width as u64, 6) + tail);
            lemma_read_back(width as u64, 6, tail);
            lemma_fits_mask(l as u64, 5);
            if width < 64 {
                lemma_fits_mask(width as u64, 6);
            }
            lemma_read_back(payload, width as nat, rest);
            lemma_window_bits(vd, lz, tz, l as u64, t as u64);
        }
    }
}

// ---------------------------------------------------------------------
// Samples
// ---------------------------------------------------------------------
/// The cursor stands where the appender left off: at the same sample, and
/// with the appender's window where the appender has one.
pub open spec fn in_step(c: Cursor, w: Written) -> bool {
    &&& c.t == w.t
    &&& c.v == w.v
    &&& c.t_delta == w.t_delta
    &&& same_window(c.leading, c.trailing, w.leading, w.trailing)
    &&& c.window_ok()
}

proof fn lemma_first_sample(c: Cursor, w: Written, t: i64, v: u64, rest: Seq<bool>)
    requires
        c.num_read == 0,
        c.num_total > 0,
        c.bits == sample_bits(w, 0, t, v) + rest,
    ensures
        decode_next(c) == (
            Ok::<bool, Failure>(true),
            c.moved(t, v, c.t_delta, c.leading, c.trailing, rest),
        ),
{
    let x = zigzag(t);
    let tail = bits_of(v, 64) + rest;
    assert(c.bits =~= bytes_to_bits(varint_bytes(x)) + tail);
    lemma_varint_round_trip(x, tail);
    lemma_read_back(v, 64, rest);
    lemma_format_masks();
    lemma_fits_mask(v, 64);
}

proof fn lemma_finish_sample(
    c: Cursor,
    w: Written,
    t: i64,
    t_delta: u64,
    v: u64,
    rest: Seq<bool>,
)
    requires
        c.v == w.v,
        same_window(c.leading, c.trailing, w.leading, w.trailing),
        c.window_ok(),
    ensures
        ({
            let (r, next) = finish_sample(
                c,
                t,
                t_delta,
                value_bits(w.leading, w.trailing, w.v, v) + rest,
            );
            &&& r == Ok::<bool, Failure>(true)
            &&& next.t == t
            &&& next.v == v
            &&& next.t_delta == t_delta
            &&& next.bits == rest
            &&& next.num_read == (c.num_read + 1) as u16
            &&& next.num_total == c.num_total
            &&& next.window_ok()
            &&& same_window(
                next.leading,
                next.trailing,
                window_after(w.leading, w.trailing, w.v, v).0,
                window_after(w.leading, w.trailing, w.v, v).1,
            )
        }),
{
    lemma_value_round_trip(c.leading, c.trailing, w.leading, w.trailing, w.v, v, rest);
}

proof fn lemma_second_sample(c: Cursor, w: Written, t: i64, v: u64, rest: Seq<bool>)
    requires
        c.num_read == 1,
        c.num_total > 1,
        c.bits == sample_bits(w, 1, t, v) + rest,
    ensures
        decode_next(c) == finish_sample(
            c,
            advance(c.t, delta_between(w.t, t)),
            delta_between(w.t, t),
            value_bits(w.leading, w.trailing, w.v, v) + rest,
        ),
{
    let block = value_bits(w.leading, w.trailing, w.v, v);
    let d = delta_between(w.t, t);
    assert(c.bits =~= bytes_to_bits(varint_bytes(d)) + (block + rest));
    lemma_varint_round_trip(d, block + rest);
}

proof fn lemma_later_sample(c: Cursor, w: Written, t: i64, v: u64, rest: Seq<bool>)
    requires
        c.num_read >= 2,
        c.num_total > c.num_read,
        survives(delta_of_delta(w.t_delta, delta_between(w.t, t))),
        c.bits == sample_bits(w, c.num_read as nat, t, v) + rest,
    ensures
        decode_next(c) == finish_sample(
            c,
            advance(c.t, apply_dod(c.t_delta, delta_of_delta(w.t_delta, delta_between(w.t, t)))),
            apply_dod(c.t_delta, delta_of_delta(w.t_delta, delta_between(w.t, t))),
            value_bits(w.leading, w.trailing, w.v, v) + rest,
        ),
{
    let block = value_bits(w.leading, w.trailing, w.v, v);
    let dod = delta_of_delta(w.t_delta, delta_between(w.t, t));
    assert(c.bits =~= dod_bits(dod) + (block + rest));
    lemma_dod_round_trip(dod, block + rest);
}

/// A sample that was written is read back, and the reader is then in step
/// with the appender again. The one exception is a delta of deltas that
/// does not survive.
pub proof fn lemma_sample_round_trip(c: Cursor, w: Written, t: i64, v: u64, rest: Seq<bool>)
    requires
        c.num_read < c.num_total,
        in_step(c, w),
        c.num_read == 0 ==> w.t_delta == 0,
        c.num_read >= 2 ==> survives(delta_of_delta(w.t_delta, delta_between(w.t, t))),
        c.bits == sample_bits(w, c.num_read as nat, t, v) + rest,
    ensures
        decode_next(c).0 == Ok::<bool, Failure>(true),
        decode_next(c).1.t == t,
        decode_next(c).1.v == v,
        decode_next(c).1.bits == rest,
        decode_next(c).1.num_read == c.num_read + 1,
        decode_next(c).1.num_total == c.num_total,
        in_step(decode_next(c).1, written_after(w, c.num_read as nat, t, v)),
{
    if c.num_read == 0 {
        lemma_first_sample(c, w, t, v, rest);
    } else if c.num_read == 1 {
        let d = delta_between(w.t, t);
        lemma_second_sample(c, w, t, v, rest);
        lemma_finish_sample(c, w, advance(c.t, d), d, v, rest);
    } else {
        let d = delta_between(w.t, t);
        let back = apply_dod(c.t_delta, delta_of_delta(w.t_delta, d));
        lemma_later_sample(c, w, t, v, rest);
        lemma_finish_sample(c, w, advance(c.t, back), back, v, rest);
        assert(back == d);
    }
}

// ---------------------------------------------------------------------
// Chunks
// ---------------------------------------------------------------------
/// What an appender remembers before the first sample.
pub open spec fn fresh() -> Written {
    Written { t: i64::MIN, v: 0, t_delta: 0, leading: NO_WINDOW, trailing: 0 }
}

/// What an appender remembers after the samples `s`, appended in order to
/// an empty chunk.
pub open spec fn written_through(s: Seq<(i64, u64)>) -> Written
    decreases s.len(),
{
    if s.len() == 0 {
        fresh()
    } else {
        written_after(written_through(s.drop_last()), (s.len() - 1) as nat, s.last().0, s.last().1)
    }
}

/// The bits of the samples `s`, appended in order to an empty chunk.
pub open spec fn encoded(s: Seq<(i64, u64)>) -> Seq<bool>
    decreases s.len(),
{
    if s.len() == 0 {
        Seq::empty()
    } else {
        encoded(s.drop_last()) + sample_bits(
            written_through(s.drop_last()),
            (s.len() - 1) as nat,
            s.last().0,
            s.last().1,
        )
    }
}

/// The bits of the samples `m`, appended in order behind `n` samples
/// remembered as `w`.
pub open spec fn continued(w: Written, n: nat, m: Seq<(i64, u64)>) -> Seq<bool>
    decreases m.len(),
{
    if m.len() == 0 {
        Seq::empty()
    } else {
        sample_bits(w, n, m[0].0, m[0].1) + continued(
            written_after(w, n, m[0].0, m[0].1),
            n + 1,
            m.skip(1),
        )
    }
}

/// One more sample adds its bits behind those of the others, and is then
/// what the appender remembers.
pub proof fn lemma_append_extends(s: Seq<(i64, u64)>, t: i64, v: u64)
    ensures
        encoded(s.push((t, v))) == encoded(s) + sample_bits(written_through(s), s.len(), t, v),
        written_through(s.push((t, v))) == written_after(written_through(s), s.len(), t, v),
{
    assert(s.push((t, v)).drop_last() =~= s);
}

/// The delta of deltas of the sample at `k`, which has two before it.
pub open spec fn dod_at(s: Seq<(i64, u64)>, k: int) -> i64 {
    delta_of_delta(delta_between(s[k - 2].0, s[k - 1].0), delta_between(s[k - 1].0, s[k].0))
}

/// Every delta of deltas in `s` survives.
pub open spec fn faithful(s: Seq<(i64, u64)>) -> bool {
    forall|k: int| 2 <= k < s.len() ==> survives(#[trigger] dod_at(s, k))
}

/// The cursor after `k` steps.
pub open spec fn after_steps(c: Cursor, k: nat) -> Cursor
    decreases k,
{
    if k == 0 {
        c
    } else {
        decode_next(after_steps(c, (k - 1) as nat)).1
    }
}

proof fn lemma_written_shape(s: Seq<(i64, u64)>)
    requires
        s.len() >= 1,
    ensures
        written_through(s).t == s.last().0,
        written_through(s).v == s.last().1,
        s.len() == 1 ==> written_through(s).t_delta == 0,
        s.len() >= 2 ==> written_through(s).t_delta == delta_between(
            s[s.len() - 2].0,
            s[s.len() - 1].0,
        ),
    decreases s.len(),
{
    if s.len() >= 2 {
        lemma_written_shape(s.drop_last());
    }
}

proof fn lemma_encoded_prefix(s: Seq<(i64, u64)>, k: int)
    requires
        0 <= k <= s.len(),
    ensures
        encoded(s.take(k)).len() <= encoded(s).len(),
        encoded(s).take(encoded(s.take(k)).len() as int) == encoded(s.take(k)),
    decreases s.len(),
{
    if k == s.len() {
        assert(s.take(k) =~= s);
        assert(encoded(s).take(encoded(s).len() as int) =~= encoded(s));
    } else {
        assert(s.take(k) =~= s.drop_last().take(k));
        lemma_encoded_prefix(s.drop_last(), k);
        let head = encoded(s.drop_last());
        let n = encoded(s.take(k)).len() as int;
        assert(encoded(s).take(n) =~= head.take(n));
    }
}

/// Iterating over a chunk yields the samples that were appended to it, in
/// order, and then ends: after `k` steps over the bits of `s`, whatever
/// padding follows them, the cursor stands at the `k`-th sample, each step
/// having given a sample; behind the last sample a step gives the end
/// and nothing is left but the padding. This holds of every sequence of at
/// most 65 535 samples whose deltas of deltas all survive.
pub proof fn theorem_round_trip(s: Seq<(i64, u64)>, pad: Seq<bool>, k: nat)
    requires
        s.len() <= 65535,
        faithful(s),
        k <= s.len(),
    ensures
        ({
            let start = Cursor::start(encoded(s) + pad, s.len() as u16);
            let c = after_steps(start, k);
            &&& c.num_read == k
            &&& c.num_total == s.len()
            &&& c.bits == (encoded(s) + pad).skip(encoded(s.take(k as int)).len() as int)
            &&& in_step(c, written_through(s.take(k as int)))
            &&& k >= 1 ==> decode_next(after_steps(start, (k - 1) as nat)).0 == Ok::<bool, Failure>(
                true,
            ) && c.t == s[k - 1].0 && c.v == s[k - 1].1
            &&& k == s.len() ==> decode_next(c) == (Ok::<bool, Failure>(false), c) && c.bits == pad
        }),
    decreases k,
{
    let all = encoded(s) + pad;
    let start = Cursor::start(all, s.len() as u16);
    lemma_encoded_prefix(s, k as int);
    if k == 0 {
        assert(s.take(0) =~= Seq::<(i64, u64)>::empty());
        assert(all.skip(0) =~= all);
    } else {
        let j = (k - 1) as nat;
        theorem_round_trip(s, pad, j);
        lemma_encoded_prefix(s, j as int);
        let before = after_steps(start, j);
        let head = s.take(j as int);
        let w = written_through(head);
        let (t, v) = s[k - 1];
        assert(s.take(k as int).drop_last() =~= head);
        assert(s.take(k as int).last() == s[k - 1]);
        let piece = sample_bits(w, j, t, v);
        assert(encoded(s.take(k as int)) == encoded(head) + piece);
        let rest = all.skip(encoded(s.take(k as int)).len() as int);
        assert(encoded(s).take(encoded(s.take(k as int)).len() as int) == encoded(head) + piece);
        assert(before.bits =~= piece + rest) by {
            let n0 = encoded(head).len() as int;
            let n1 = encoded(s.take(k as int)).len() as int;
            assert forall|i: int| 0 <= i < piece.len() implies all.skip(n0)[i] == piece[i] by {
                assert(all[n0 + i] == encoded(s).take(n1)[n0 + i]);
            }
        }
        if j >= 1 {
            lemma_written_shape(head);
        }
        if j >= 2 {
            assert(head[j - 2] == s[k - 3]);
            assert(head[j - 1] == s[k - 2]);
            assert(survives(dod_at(s, k - 1)));
        }
        lemma_sample_round_trip(before, w, t, v, rest);
    }
    if k == s.len() {
        assert(s.take(k as int) =~= s);
        assert(all.skip(encoded(s).len() as int) =~= pad);
    }
}

/// The same of a chunk: where its samples' bits are those of `s`, the
/// `k`-th step of an iterator over it gives the `k`-th sample of `s`, and
/// the step behind the last gives the end.
pub proof fn theorem_chunk_round_trip(chunk: XORChunk, s: Seq<(i64, u64)>, k: nat)
    requires
        chunk.inv(),
        chunk.count() == s.len(),
        chunk.body() == encoded(s),
        faithful(s),
        1 <= k <= s.len(),
    ensures
        decode_next(after_steps(chunk.start(), (k - 1) as nat)).0 == Ok::<bool, Failure>(true),
        after_steps(chunk.start(), k).t == s[k - 1].0,
        after_steps(chunk.start(), k).v == s[k - 1].1,
        decode_next(after_steps(chunk.start(), s.len())).0 == Ok::<bool, Failure>(false),
{
    let stream = chunk.stream();
    lemma_start_bits(stream);
    let pad = bytes_to_bits(stream.bytes()).skip(stream.bits().len() as int);
    assert(chunk.start() == Cursor::start(encoded(s) + pad, s.len() as u16));
    theorem_round_trip(s, pad, k);
    theorem_round_trip(s, pad, s.len());
}

/// Different samples give different chunks: two sequences of the same
/// length whose bits, with whatever padding, are the same, are the same
/// sequence. (Sequences of different lengths differ in the sample count.)
/// This is shown of sequences whose deltas of deltas all survive.
pub proof fn theorem_same_bits_same_samples(
    s1: Seq<(i64, u64)>,
    pad1: Seq<bool>,
    s2: Seq<(i64, u64)>,
    pad2: Seq<bool>,
)
    requires
        s1.len() == s2.len(),
        s1.len() <= 65535,
        faithful(s1),
        faithful(s2),
        encoded(s1) + pad1 == encoded(s2) + pad2,
    ensures
        s1 == s2,
{
    assert forall|i: int| 0 <= i < s1.len() implies s1[i] == s2[i] by {
        theorem_round_trip(s1, pad1, (i + 1) as nat);
        theorem_round_trip(s2, pad2, (i + 1) as nat);
    }
    assert(s1 =~= s2);
}

/// Reading a chunk to its end never fails, and leaves the reader in step
/// with the appender that wrote it.
pub proof fn lemma_drain(s: Seq<(i64, u64)>, pad: Seq<bool>, k: nat)
    requires
        s.len() <= 65535,
        faithful(s),
        k <= s.len(),
    ensures
        ({
            let start = Cursor::start(encoded(s) + pad, s.len() as u16);
            drain(after_steps(start, k)) == (
                Ok::<bool, Failure>(false),
                after_steps(start, s.len()),
            )
        }),
    decreases s.len() - k,
{
    theorem_round_trip(s, pad, k);
    if k < s.len() {
        theorem_round_trip(s, pad, k + 1);
        lemma_drain(s, pad, k + 1);
    }
}

proof fn lemma_encoded_joined(s: Seq<(i64, u64)>, m: Seq<(i64, u64)>)
    ensures
        encoded(s + m) == encoded(s) + continued(written_through(s), s.len(), m),
    decreases m.len(),
{
    if m.len() == 0 {
        assert(s + m =~= s);
        assert(encoded(s) + Seq::<bool>::empty() =~= encoded(s));
    } else {
        let grown = s.push(m[0]);
        assert(grown + m.skip(1) =~= s + m);
        assert(grown.drop_last() =~= s);
        lemma_encoded_joined(grown, m.skip(1));
        let piece = sample_bits(written_through(s), s.len(), m[0].0, m[0].1);
        let more = continued(written_through(grown), grown.len(), m.skip(1));
        assert(encoded(s) + piece + more =~= encoded(s) + (piece + more));
    }
}

proof fn lemma_continued_same_values(w1: Written, w2: Written, n: nat, m: Seq<(i64, u64)>)
    requires
        n >= 1,
        w1.t == w2.t,
        w1.v == w2.v,
        w1.t_delta == w2.t_delta,
        forall|i: int| 0 <= i < m.len() ==> (#[trigger] m[i]).1 == w1.v,
    ensures
        continued(w1, n, m) == continued(w2, n, m),
    decreases m.len(),
{
    if m.len() > 0 {
        let v = m[0].1;
        lemma_xor_back(v, v);
        assert forall|i: int| 0 <= i < m.skip(1).len() implies (#[trigger] m.skip(1)[i]).1
            == v by {
            assert(m.skip(1)[i] == m[i + 1]);
        }
        lemma_continued_same_values(
            written_after(w1, n, m[0].0, v),
            written_after(w2, n, m[0].0, v),
            n + 1,
            m.skip(1),
        );
    }
}

/// An appender that starts behind the samples `s` of a chunk goes on as
/// the one that wrote them would: the samples `m` come out as the same
/// bits as in a chunk that was written in one go. The one exception is a
/// chunk in which no value differs from the one before it, where a value
/// that does comes after: the appender that wrote the chunk would open its
/// first window there, and the one that starts behind it uses the whole
/// width.
pub proof fn theorem_resume(s: Seq<(i64, u64)>, pad: Seq<bool>, m: Seq<(i64, u64)>)
    requires
        s.len() <= 65535,
        faithful(s),
        s.len() == 0 || written_through(s).leading != NO_WINDOW || forall|i: int|
            0 <= i < m.len() ==> (#[trigger] m[i]).1 == s.last().1,
    ensures
        ({
            let (r, c) = drain(Cursor::start(encoded(s) + pad, s.len() as u16));
            &&& r == Ok::<bool, Failure>(false)
            &&& in_step(c, written_through(s))
            &&& s.len() == 0 || written_through(s).leading != NO_WINDOW ==> resumed(c, s.len())
                == written_through(s)
            &&& encoded(s + m) == encoded(s) + continued(resumed(c, s.len()), s.len(), m)
        }),
{
    let n = s.len();
    theorem_round_trip(s, pad, n);
    lemma_drain(s, pad, 0);
    lemma_encoded_joined(s, m);
    let c = after_steps(Cursor::start(encoded(s) + pad, n as u16), n);
    assert(s.take(n as int) =~= s);
    let w = written_through(s);
    if n >= 1 && w.leading == NO_WINDOW {
        lemma_written_shape(s);
        lemma_continued_same_values(resumed(c, n), w, n, m);
    } else {
        assert(resumed(c, n) == w);
    }
}

/// The same of a chunk whose samples' bits are those of `s`: reading it
/// to its end does not fail, and an appender that starts behind it
/// remembers what the one that wrote it would, but where no value in it
/// ever changed.
pub proof fn theorem_chunk_resume(chunk: XORChunk, s: Seq<(i64, u64)>)
    requires
        chunk.inv(),
        chunk.count() == s.len(),
        chunk.body() == encoded(s),
        faithful(s),
    ensures
        drain(chunk.start()).0 == Ok::<bool, Failure>(false),
        in_step(drain(chunk.start()).1, written_through(s)),
        s.len() == 0 || written_through(s).leading != NO_WINDOW ==> resumed(
            drain(chunk.start()).1,
            s.len(),
        ) == written_through(s),
{
    let stream = chunk.stream();
    lemma_start_bits(stream);
    let pad = bytes_to_bits(stream.bytes()).skip(stream.bits().len() as int);
    assert(chunk.start() == Cursor::start(encoded(s) + pad, s.len() as u16));
    theorem_resume(s, pad, Seq::empty());
}

proof fn lemma_steps_shift(c: Cursor, k: nat)
    ensures
        after_steps(decode_next(c).1, k) == after_steps(c, k + 1),
    decreases k,
{
    if k > 0 {
        lemma_steps_shift(c, (k - 1) as nat);
        assert(after_steps(c, k + 1) == decode_next(after_steps(c, k)).1);
    } else {
        assert(after_steps(c, 0) == c);
        assert(after_steps(c, 1) == decode_next(after_steps(c, 0)).1);
    }
}

/// A seek that succeeds stops at the first sample at or after the target:
/// the cursor is the one after some number of steps, it stands at a sample
/// whose timestamp is at least the target, and after any smaller number of
/// steps it stood before the first sample or at an earlier timestamp.
pub proof fn theorem_seek_first(c: Cursor, target: i64)
    requires
        c.num_read <= c.num_total,
        seek_from(c, target).0 == Ok::<bool, Failure>(true),
    ensures
        ({
            let found = seek_from(c, target).1;
            let steps = (found.num_read - c.num_read) as nat;
            &&& found.num_read >= c.num_read
            &&& found.num_read >= 1
            &&& found.t >= target
            &&& found == after_steps(c, steps)
            &&& forall|i: nat|
                i < steps ==> (#[trigger] after_steps(c, i)).num_read == 0 || after_steps(c, i).t
                    < target
        }),
    decreases c.num_total - c.num_read,
{
    if c.num_read != 0 && c.t >= target {
    } else {
        let next = decode_next(c).1;
        theorem_seek_first(next, target);
        let found = seek_from(c, target).1;
        let steps = (found.num_read - c.num_read) as nat;
        lemma_steps_shift(c, (steps - 1) as nat);
        assert forall|i: nat| i < steps implies (#[trigger] after_steps(c, i)).num_read == 0
            || after_steps(c, i).t < target by {
            if i > 0 {
                lemma_steps_shift(c, (i - 1) as nat);
                assert(after_steps(next, (i - 1) as nat) == after_steps(c, i));
            }
        }
    }
}

/// The cursor stands before the first sample or at a timestamp below the
/// target, so that a seek steps on.
pub open spec fn short_of(c: Cursor, target: i64) -> bool {
    c.num_read == 0 || c.t < target
}

proof fn lemma_steps_add(c: Cursor, j: nat, i: nat)
    ensures
        after_steps(after_steps(c, j), i) == after_steps(c, j + i),
    decreases i,
{
    if i > 0 {
        lemma_steps_add(c, j, (i - 1) as nat);
        assert(after_steps(c, j + i) == decode_next(after_steps(c, (j + i - 1) as nat)).1);
    } else {
        assert(after_steps(after_steps(c, j), 0) == after_steps(c, j));
    }
}

/// A seek is as many steps as it takes: where `k` steps lead past every
/// sample short of the target to one that is not, the seek succeeds and
/// leaves the cursor as those `k` steps do.
pub proof fn lemma_seek_found(c: Cursor, target: i64, k: nat)
    requires
        forall|i: nat|
            i < k ==> short_of(#[trigger] after_steps(c, i), target) && decode_next(
                after_steps(c, i),
            ).0 == Ok::<bool, Failure>(true) && after_steps(c, i).num_read < after_steps(
                c,
                i,
            ).num_total,
        !short_of(after_steps(c, k), target),
    ensures
        seek_from(c, target) == (Ok::<bool, Failure>(true), after_steps(c, k)),
    decreases k,
{
    assert(after_steps(c, 0) == c);
    if k > 0 {
        let next = decode_next(c).1;
        assert forall|i: nat| i < k - 1 implies short_of(#[trigger] after_steps(next, i), target)
            && decode_next(after_steps(next, i)).0 == Ok::<bool, Failure>(true) && after_steps(
            next,
            i,
        ).num_read < after_steps(next, i).num_total by {
            lemma_steps_shift(c, i);
            assert(short_of(after_steps(c, i + 1), target));
        }
        lemma_steps_shift(c, (k - 1) as nat);
        lemma_seek_found(next, target, (k - 1) as nat);
    }
}

/// Where `k` steps lead past samples short of the target and the next
/// step gives no sample, the seek ends as that step does.
pub proof fn lemma_seek_ended(c: Cursor, target: i64, k: nat)
    requires
        forall|i: nat|
            i < k ==> short_of(#[trigger] after_steps(c, i), target) && decode_next(
                after_steps(c, i),
            ).0 == Ok::<bool, Failure>(true) && after_steps(c, i).num_read < after_steps(
                c,
                i,
            ).num_total,
        short_of(after_steps(c, k), target),
        decode_next(after_steps(c, k)).0 != Ok::<bool, Failure>(true),
    ensures
        seek_from(c, target) == decode_next(after_steps(c, k)),
    decreases k,
{
    assert(after_steps(c, 0) == c);
    if k > 0 {
        let next = decode_next(c).1;
        assert forall|i: nat| i < k - 1 implies short_of(#[trigger] after_steps(next, i), target)
            && decode_next(after_steps(next, i)).0 == Ok::<bool, Failure>(true) && after_steps(
            next,
            i,
        ).num_read < after_steps(next, i).num_total by {
            lemma_steps_shift(c, i);
            assert(short_of(after_steps(c, i + 1), target));
        }
        lemma_steps_shift(c, (k - 1) as nat);
        lemma_seek_ended(next, target, (k - 1) as nat);
    }
}

/// A seek over a chunk stops at the first sample at or after the target:
/// from the cursor after `j` steps over the bits of `s`, where the `k`-th
/// sample is the first from there on (the one at hand included) whose
/// timestamp is at least the target, the seek succeeds and leaves the
/// cursor as `k` steps from the start do.
pub proof fn theorem_seek(s: Seq<(i64, u64)>, pad: Seq<bool>, j: nat, k: nat, target: i64)
    requires
        s.len() <= 65535,
        faithful(s),
        j <= k <= s.len(),
        k >= 1,
        s[k - 1].0 >= target,
        forall|i: int| 1 <= i < k && j <= i ==> (#[trigger] s[i - 1]).0 < target,
    ensures
        ({
            let start = Cursor::start(encoded(s) + pad, s.len() as u16);
            &&& seek_from(after_steps(start, j), target) == (
                Ok::<bool, Failure>(true),
                after_steps(start, k),
            )
            &&& after_steps(start, k).t == s[k - 1].0
            &&& after_steps(start, k).v == s[k - 1].1
        }),
{
    let start = Cursor::start(encoded(s) + pad, s.len() as u16);
    let from = after_steps(start, j);
    assert forall|m: nat| m < k - j implies short_of(#[trigger] after_steps(from, m), target)
        && decode_next(after_steps(from, m)).0 == Ok::<bool, Failure>(true) && after_steps(
        from,
        m,
    ).num_read < after_steps(from, m).num_total by {
        lemma_steps_add(start, j, m);
        theorem_round_trip(s, pad, j + m);
        theorem_round_trip(s, pad, j + m + 1);
        if j + m >= 1 {
            assert(s[(j + m) - 1].0 < target);
        }
    }
    lemma_steps_add(start, j, (k - j) as nat);
    theorem_round_trip(s, pad, k);
    lemma_seek_found(from, target, (k - j) as nat);
}

/// Where no sample from the one at hand on has a timestamp at or after
/// the target, the seek gives `Ok(false)` and leaves the cursor at the
/// last sample.
pub proof fn theorem_seek_past(s: Seq<(i64, u64)>, pad: Seq<bool>, j: nat, target: i64)
    requires
        s.len() <= 65535,
        faithful(s),
        j <= s.len(),
        forall|i: int| 1 <= i <= s.len() && j <= i ==> (#[trigger] s[i - 1]).0 < target,
    ensures
        ({
            let start = Cursor::start(encoded(s) + pad, s.len() as u16);
            seek_from(after_steps(start, j), target) == (
                Ok::<bool, Failure>(false),
                after_steps(start, s.len()),
            )
        }),
{
    let n = s.len();
    let start = Cursor::start(encoded(s) + pad, n as u16);
    let from = after_steps(start, j);
    assert forall|m: nat| m < n - j implies short_of(#[trigger] after_steps(from, m), target)
        && decode_next(after_steps(from, m)).0 == Ok::<bool, Failure>(true) && after_steps(
        from,
        m,
    ).num_read < after_steps(from, m).num_total by {
        lemma_steps_add(start, j, m);
        theorem_round_trip(s, pad, j + m);
        theorem_round_trip(s, pad, j + m + 1);
        if j + m >= 1 {
            assert(s[(j + m) - 1].0 < target);
        }
    }
    lemma_steps_add(start, j, (n - j) as nat);
    theorem_round_trip(s, pad, n);
    if n >= 1 {
        assert(s[n - 1].0 < target);
    }
    lemma_seek_ended(from, target, (n - j) as nat);
}

/// The same of a chunk whose samples' bits are those of `s`.
pub proof fn theorem_chunk_seek(
    chunk: XORChunk,
    s: Seq<(i64, u64)>,
    j: nat,
    k: nat,
    target: i64,
)
    requires
        chunk.inv(),
        chunk.count() == s.len(),
        chunk.body() == encoded(s),
        faithful(s),
        j <= k <= s.len(),
        k >= 1,
        s[k - 1].0 >= target,
        forall|i: int| 1 <= i < k && j <= i ==> (#[trigger] s[i - 1]).0 < target,
    ensures
        seek_from(after_steps(chunk.start(), j), target) == (
            Ok::<bool, Failure>(true),
            after_steps(chunk.start(), k),
        ),
        after_steps(chunk.start(), k).t == s[k - 1].0,
        after_steps(chunk.start(), k).v == s[k - 1].1,
{
    let stream = chunk.stream();
    lemma_start_bits(stream);
    let pad = bytes_to_bits(stream.bytes()).skip(stream.bits().len() as int);
    assert(chunk.start() == Cursor::start(encoded(s) + pad, s.len() as u16));
    theorem_seek(s, pad, j, k, target);
}

/// The same of a chunk whose samples' bits are those of `s`.
pub proof fn theorem_chunk_seek_past(chunk: XORChunk, s: Seq<(i64, u64)>, j: nat, target: i64)
    requires
        chunk.inv(),
        chunk.count() == s.len(),
        chunk.body() == encoded(s),
        faithful(s),
        j <= s.len(),
        forall|i: int| 1 <= i <= s.len() && j <= i ==> (#[trigger] s[i - 1]).0 < target,
    ensures
        seek_from(after_steps(chunk.start(), j), target) == (
            Ok::<bool, Failure>(false),
            after_steps(chunk.start(), s.len()),
        ),
{
    let stream = chunk.stream();
    lemma_start_bits(stream);
    let pad = bytes_to_bits(stream.bytes()).skip(stream.bits().len() as int);
    assert(chunk.start() == Cursor::start(encoded(s) + pad, s.len() as u16));
    theorem_seek_past(s, pad, j, target);
}

} // verus!
