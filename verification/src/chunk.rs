//! Chunks of samples in the XOR encoding, the appender that extends one and
//! the iterator that reads one.

use crate::bits::{bits_of, bytes_to_bits, lemma_bytes_split, lemma_format_masks};
use crate::bitstream::{Bit, BitStream, Reader};
use crate::buffer::{buf_from_slice, buf_put_u8, buf_with_capacity};
use crate::error::{varint_failure, Error};
use crate::format::{
    decode_next, delta_between, delta_of_delta, dod_bits, drain, finish_sample, header_count,
    in_bit_range, lemma_varint_len, read_dod, read_value_block, resumed, sample_bits, seek_from,
    value_bits, varint_bytes, window_after, window_width, written_after, zigzag, Cursor,
    Failure, Written, MAX_SAMPLES, NO_WINDOW,
};
use crate::helper::{encode_i64, encode_u64, read_i64, read_u64};
use vstd::std_specs::bits::{axiom_u64_leading_zeros, axiom_u64_trailing_zeros};
use vstd::arithmetic::power2::{lemma2_to64, pow2};
use vstd::prelude::*;

verus! {

/// Where more than this many bytes are reserved beyond a chunk's length,
/// compacting gives them up.
const CHUNK_COMPACT_CAPACITY_THRESHOLD: usize = 32;

/// How the samples of a chunk are encoded.
#[derive(Debug, PartialEq, Eq, Clone, Copy, Structural)]
pub enum Encoding {
    /// Deltas of deltas of the timestamps, XOR of the values.
    XOR,
    /// No encoding at all.
    EncNone,
}

/// `r` is what an operation returns that ended as `outcome`.
pub open spec fn reports(r: Result<bool, Error>, outcome: Result<bool, Failure>) -> bool {
    match outcome {
        Ok(more) => r == Ok::<bool, Error>(more),
        Err(Failure::Eof) => r == Err::<bool, Error>(Error::EOF),
        Err(Failure::Varint(frame)) => r == Err::<bool, Error>(
            Error::ReadError(varint_failure(frame)),
        ),
    }
}

/// What extends a chunk.
pub trait Appender {
    /// What the appender needs to work; every operation keeps it.
    spec fn wf(&self) -> bool;

    /// Appends the sample with timestamp `t` and the value whose bit
    /// pattern is `v`.
    fn append(&mut self, t: i64, v: u64) -> (r: Result<(), Error>)
        requires
            old(self).wf(),
        ensures
            final(self).wf(),
    ;
}

/// A chunk of samples, whatever its encoding.
pub trait Chunk<'a> {
    /// What extends the chunk.
    type Appender: Appender;

    /// What reads the chunk.
    type Iter: Iterator;

    /// What the chunk needs to work; every operation keeps it.
    spec fn wf(&self) -> bool;

    /// The bytes of the chunk.
    spec fn content(&self) -> Seq<u8>;

    /// The bytes of the chunk: the sample count, then the samples.
    fn bytes(&self) -> (r: &[u8])
        requires
            self.wf(),
        ensures
            r@ == self.content(),
    ;

    /// How the samples are encoded.
    fn encoding(&self) -> Encoding;

    /// The number of samples in the chunk.
    fn num_samples(&self) -> usize
        requires
            self.wf(),
    ;

    /// Gives up memory that is reserved and not used; the bytes stay.
    fn compact(&mut self)
        requires
            old(self).wf(),
        ensures
            final(self).wf(),
            final(self).content() == old(self).content(),
    ;

    /// An appender that goes on behind the samples of the chunk.
    fn appender(&'a mut self) -> (r: Result<Self::Appender, Error>)
        requires
            old(self).wf(),
        ensures
            r matches Ok(a) ==> a.wf(),
    ;

    /// An iterator before the first sample of the chunk.
    fn iterator(&self) -> (it: Self::Iter)
        requires
            self.wf(),
        ensures
            it.wf(),
    ;
}

/// What reads a chunk, sample by sample.
pub trait Iterator {
    /// What the iterator needs to work; every operation keeps it.
    spec fn wf(&self) -> bool;

    /// The sample that the iterator stands at.
    spec fn sample(&self) -> (i64, u64);

    /// Moves to the next sample; `Ok(false)` where there is none.
    fn next(&mut self) -> (r: Result<bool, Error>)
        requires
            old(self).wf(),
        ensures
            final(self).wf(),
    ;

    /// Moves on to the first sample at or after `t`, the one at hand
    /// included; `Ok(false)` where there is none.
    fn seek(&mut self, t: i64) -> (r: Result<bool, Error>)
        requires
            old(self).wf(),
        ensures
            final(self).wf(),
            r == Ok::<bool, Error>(true) ==> final(self).sample().0 >= t,
    ;

    /// The timestamp and the value's bit pattern of the sample at hand.
    fn at(&self) -> (r: (i64, u64))
        requires
            self.wf(),
        ensures
            r == self.sample(),
    ;
}

/// An iterator over nothing.
pub struct NopIterator {}

impl Iterator for NopIterator {
    open spec fn wf(&self) -> bool {
        true
    }

    open spec fn sample(&self) -> (i64, u64) {
        (i64::MIN, 0u64)
    }

    fn next(&mut self) -> (r: Result<bool, Error>)
        ensures
            r == Ok::<bool, Error>(false),
    {
        Ok(false)
    }

    fn seek(&mut self, _t: i64) -> (r: Result<bool, Error>)
        ensures
            r == Ok::<bool, Error>(false),
    {
        Ok(false)
    }

    fn at(&self) -> (r: (i64, u64)) {
        (i64::MIN, 0)
    }
}

/// Is `x` in the range of a delta of deltas written in `nbits` bits?
pub fn bit_range(x: i64, nbits: u8) -> (r: bool)
    requires
        1 <= nbits <= 63,
    ensures
        r == in_bit_range(x, nbits as nat),
{
    let half: u64 = 1u64 << (nbits - 1);
    proof {
        let e = (nbits - 1) as nat;
        vstd::arithmetic::power2::lemma_pow2_strictly_increases(e, 63);
        vstd::arithmetic::power2::lemma2_to64_rest();
        vstd::bits::lemma_u64_shl_is_mul(1, (nbits - 1) as u64);
    }
    let h = half as i64;
    -(h - 1) <= x && x <= h
}

/// Reads the samples of a chunk in the XOR encoding, from a copy of its
/// bytes.
#[derive(Debug)]
pub struct XORIterator {
    br: Reader,
    num_total: u16,
    num_read: u16,
    t: i64,
    v: u64,
    leading: u8,
    trailing: u8,
    t_delta: u64,
}

impl View for XORIterator {
    type V = Cursor;

    closed spec fn view(&self) -> Cursor {
        Cursor {
            bits: self.br.remaining(),
            num_total: self.num_total,
            num_read: self.num_read,
            t: self.t,
            v: self.v,
            t_delta: self.t_delta,
            leading: self.leading,
            trailing: self.trailing,
        }
    }
}

/// `64 - leading - trailing` modulo 256.
fn width_of(leading: u8, trailing: u8) -> (w: u8)
    ensures
        w == window_width(leading, trailing),
{
    let w: i16 = 64 - leading as i16 - trailing as i16;
    if w < 0 {
        (w + 256) as u8
    } else {
        w as u8
    }
}

impl XORIterator {
    /// The bit reader is in order.
    pub closed spec fn reader_wf(&self) -> bool {
        self.br.wf()
    }

    /// Reads a value block without moving the cursor's sample.
    fn value_block(&mut self) -> (r: Option<(u8, u8, u64)>)
        requires
            old(self).br.wf(),
            old(self)@.window_ok(),
        ensures
            final(self).br.wf(),
            final(self)@ == old(self)@.with_bits(final(self)@.bits),
            match read_value_block(
                old(self)@.leading,
                old(self)@.trailing,
                old(self)@.v,
                old(self)@.bits,
            ) {
                Some((l, t, v, rest)) => r == Some((l, t, v)) && final(self)@.bits == rest && 1
                    <= window_width(l, t) <= 64,
                None => r is None && final(self)@.bits.len() == 0,
            },
    {
        let ghost bits = self.br.remaining();
        let first = match self.br.try_read_bit() {
            Some(b) => b,
            None => {
                return None;
            },
        };
        if first == Bit::Zero {
            return Some((self.leading, self.trailing, self.v));
        }
        let second = match self.br.try_read_bit() {
            Some(b) => b,
            None => {
                return None;
            },
        };
        assert(self.br.remaining() =~= bits.skip(2));
        let mut leading = self.leading;
        let mut trailing = self.trailing;
        if second == Bit::One {
            proof {
                lemma_format_masks();
            }
            let l = match self.br.try_read_bits(5) {
                Some(x) => x as u8,
                None => {
                    return None;
                },
            };
            assert(bits.skip(2).take(5) =~= bits.subrange(2, 7));
            assert(self.br.remaining() =~= bits.skip(7));
            let raw = match self.br.try_read_bits(6) {
                Some(x) => x as u8,
                None => {
                    return None;
                },
            };
            assert(bits.skip(7).take(6) =~= bits.subrange(7, 13));
            assert(self.br.remaining() =~= bits.skip(13));
            let mbits: u8 = if raw == 0 {
                64
            } else {
                raw
            };
            leading = l;
            trailing = width_of(l, mbits);
        }
        let mbits = width_of(leading, trailing);
        let payload = match self.br.try_read_bits(mbits) {
            Some(x) => x,
            None => {
                return None;
            },
        };
        let shifted = if trailing < 64 {
            payload << trailing
        } else {
            0
        };
        Some((leading, trailing, self.v ^ shifted))
    }

    /// Reads the value block that ends a sample: on success the cursor
    /// stands at the new value and has read one sample more.
    pub fn read_value(&mut self) -> (r: Result<bool, Error>)
        requires
            old(self).wf(),
            old(self)@.num_read < old(self)@.num_total,
        ensures
            final(self).wf(),
            reports(r, finish_sample(old(self)@, old(self)@.t, old(self)@.t_delta, old(self)@.bits).0),
            final(self)@ == finish_sample(
                old(self)@,
                old(self)@.t,
                old(self)@.t_delta,
                old(self)@.bits,
            ).1,
    {
        match self.value_block() {
            Some((leading, trailing, v)) => {
                self.leading = leading;
                self.trailing = trailing;
                self.v = v;
                self.num_read += 1;
                Ok(true)
            },
            None => {
                assert(self@.bits =~= Seq::<bool>::empty());
                Err(Error::EOF)
            },
        }
    }

    /// Reads a delta of deltas.
    fn delta_of_delta(&mut self) -> (r: Option<i64>)
        requires
            old(self).br.wf(),
        ensures
            final(self).br.wf(),
            final(self)@ == old(self)@.with_bits(final(self)@.bits),
            match read_dod(old(self)@.bits) {
                Some((dod, rest)) => r == Some(dod) && final(self)@.bits == rest,
                None => r is None && final(self)@.bits.len() == 0,
            },
    {
        let ghost bits = self.br.remaining();
        let mut ones: u8 = 0;
        let mut open = true;
        while open && ones < 4
            invariant
                ones <= 4,
                self.br.wf(),
                self@ == old(self)@.with_bits(self@.bits),
                bits == old(self)@.bits,
                bits.len() >= ones,
                forall|i: int| 0 <= i < ones ==> bits[i],
                open ==> self.br.remaining() == bits.skip(ones as int),
                !open ==> ones < 4 && bits.len() > ones && !bits[ones as int]
                    && self.br.remaining() == bits.skip(ones + 1),
            decreases (if open { 1int } else { 0int }) + 4 - ones,
        {
            match self.br.try_read_bit() {
                Some(bit) => {
                    assert(self.br.remaining() =~= bits.skip(ones + 1));
                    if bit == Bit::Zero {
                        open = false;
                    } else {
                        ones += 1;
                    }
                },
                None => {
                    assert(bits.len() == ones);
                    return None;
                },
            }
        }
        let sz: u8 = if ones == 0 {
            return Some(0);
        } else if ones == 1 {
            14
        } else if ones == 2 {
            17
        } else if ones == 3 {
            20
        } else {
            64
        };
        let ghost start = self.br.remaining();
        let payload = match self.br.try_read_bits(sz) {
            Some(x) => x,
            None => {
                return None;
            },
        };
        if sz == 64 {
            assert(start == bits.skip(4));
            assert(bits.skip(4).take(64) =~= bits.subrange(4, 68));
            assert(self.br.remaining() =~= bits.skip(68));
            if payload > i64::MAX as u64 {
                Some((payload as i128 - 0x1_0000_0000_0000_0000) as i64)
            } else {
                Some(payload as i64)
            }
        } else {
            proof {
                lemma_format_masks();
                lemma2_to64();
            }
            let half: u64 = 1u64 << (sz - 1);
            assert(half == pow2((sz - 1) as nat)) by {
                lemma2_to64();
                assert(1u64 << 13 == 0x2000 && 1u64 << 16 == 0x1_0000 && 1u64 << 19 == 0x8_0000)
                    by (bit_vector);
            }
            if payload >= half {
                Some((payload as i64) - 2 * (half as i64))
            } else {
                Some(payload as i64)
            }
        }
    }
}

impl Iterator for XORIterator {
    open spec fn wf(&self) -> bool {
        &&& self.reader_wf()
        &&& self@.window_ok()
        &&& self@.num_read <= self@.num_total
    }

    open spec fn sample(&self) -> (i64, u64) {
        (self@.t, self@.v)
    }

    fn next(&mut self) -> (r: Result<bool, Error>)
        ensures
            reports(r, decode_next(old(self)@).0),
            final(self)@ == decode_next(old(self)@).1,
    {
        if self.num_read == self.num_total {
            return Ok(false);
        }
        if self.num_read == 0 {
            let t = match read_i64(&mut self.br) {
                Ok(t) => t,
                Err(e) => {
                    return Err(e);
                },
            };
            let v = match self.br.read_bits(64) {
                Some(v) => v,
                None => {
                    assert(self@.bits =~= Seq::<bool>::empty());
                    return Err(Error::EOF);
                },
            };
            self.t = t;
            self.v = v;
            self.num_read = 1;
            return Ok(true);
        }
        let t_delta = if self.num_read == 1 {
            match read_u64(&mut self.br) {
                Ok(d) => d,
                Err(e) => {
                    return Err(e);
                },
            }
        } else {
            match self.delta_of_delta() {
                Some(dod) => {
                    let sum: i128 = self.t_delta as i128 + dod as i128;
                    if sum < 0 {
                        (sum + 0x1_0000_0000_0000_0000) as u64
                    } else if sum > u64::MAX as i128 {
                        (sum - 0x1_0000_0000_0000_0000) as u64
                    } else {
                        sum as u64
                    }
                },
                None => {
                    assert(self@.bits =~= Seq::<bool>::empty());
                    return Err(Error::EOF);
                },
            }
        };
        let sum: i128 = self.t as i128 + t_delta as i128;
        let t = if sum <= i64::MAX as i128 {
            sum as i64
        } else {
            (sum - 0x1_0000_0000_0000_0000) as i64
        };
        match self.value_block() {
            Some((leading, trailing, v)) => {
                self.t = t;
                self.t_delta = t_delta;
                self.leading = leading;
                self.trailing = trailing;
                self.v = v;
                self.num_read += 1;
                Ok(true)
            },
            None => {
                assert(self@.bits =~= Seq::<bool>::empty());
                Err(Error::EOF)
            },
        }
    }

    fn seek(&mut self, t: i64) -> (r: Result<bool, Error>)
        ensures
            reports(r, seek_from(old(self)@, t).0),
            final(self)@ == seek_from(old(self)@, t).1,
    {
        while self.num_read == 0 || self.t < t
            invariant
                self.wf(),
                seek_from(self@, t) == seek_from(old(self)@, t),
            decreases self@.num_total - self@.num_read,
        {
            match self.next() {
                Ok(true) => {},
                Ok(false) => {
                    return Ok(false);
                },
                Err(e) => {
                    return Err(e);
                },
            }
        }
        Ok(true)
    }

    fn at(&self) -> (r: (i64, u64)) {
        (self.t, self.v)
    }
}

/// The stream holds a chunk: a sample count in its first two bytes, and
/// behind them no more bits than that many samples can take.
pub open spec fn holds_chunk(s: BitStream) -> bool {
    &&& s.wf()
    &&& s.bytes().len() >= 2
    &&& 16 <= s.bits().len() <= 16 + 160 * header_count(s.bytes())
}

/// The bits that an iterator over a chunk starts from are the bits of the
/// samples, and behind them what is left of the last byte.
pub proof fn lemma_start_bits(s: BitStream)
    requires
        holds_chunk(s),
    ensures
        bytes_to_bits(s.bytes().skip(2)) == s.bits().skip(16) + bytes_to_bits(s.bytes()).skip(
            s.bits().len() as int,
        ),
{
    let all = bytes_to_bits(s.bytes());
    lemma_bytes_split(s.bytes(), 2);
    assert(all.skip(16) =~= bytes_to_bits(s.bytes().skip(2)));
    assert(all.skip(16) =~= s.bits().skip(16) + all.skip(s.bits().len() as int));
}

/// A chunk of samples in the XOR encoding.
pub struct XORChunk {
    b: BitStream,
}

impl XORChunk {
    /// The chunk's bits and bytes.
    pub closed spec fn stream(&self) -> BitStream {
        self.b
    }

    /// The chunk is in order.
    pub open spec fn inv(&self) -> bool {
        holds_chunk(self.stream())
    }

    /// The number of samples in the chunk.
    pub open spec fn count(&self) -> nat {
        header_count(self.stream().bytes())
    }

    /// The bits of the samples.
    pub open spec fn body(&self) -> Seq<bool> {
        self.stream().bits().skip(16)
    }

    /// What an iterator over the chunk starts from: the bits behind the
    /// sample count, padding included, and the count.
    pub open spec fn start(&self) -> Cursor {
        Cursor::start(bytes_to_bits(self.stream().bytes().skip(2)), self.count() as u16)
    }

    /// An empty chunk.
    pub fn new() -> (c: Self)
        ensures
            c.inv(),
            c.stream().bytes() == seq![0u8, 0u8],
            c.count() == 0,
            c.body() == Seq::<bool>::empty(),
    {
        let mut data = buf_with_capacity(128);
        buf_put_u8(&mut data, 0);
        buf_put_u8(&mut data, 0);
        let c = Self { b: BitStream::from_buffer(data) };
        proof {
            assert(c.stream().bytes() =~= seq![0u8, 0u8]);
            assert(c.body() =~= Seq::<bool>::empty());
        }
        c
    }

    /// The bytes of the chunk.
    pub fn to_vec(self) -> (v: Vec<u8>)
        ensures
            v@ == self.stream().bytes(),
    {
        self.b.to_vec()
    }

    /// The sample count in the first two bytes.
    fn count_of(b: &BitStream) -> (n: u16)
        requires
            b.bytes().len() >= 2,
        ensures
            n == header_count(b.bytes()),
    {
        (b.byte_at(0) as u16) * 256 + (b.byte_at(1) as u16)
    }

    /// An iterator over a copy of the bytes behind the sample count.
    fn _iterator(&self) -> (it: XORIterator)
        requires
            self.inv(),
        ensures
            it.wf(),
            it@ == self.start(),
    {
        let all = self.b.as_ref();
        let body = vstd::slice::slice_subrange(all, 2, all.len());
        assert(body@ =~= self.stream().bytes().skip(2));
        let br = Reader::new(buf_from_slice(body));
        let it = XORIterator {
            br,
            num_total: Self::count_of(&self.b),
            t: i64::MIN,
            num_read: 0,
            v: 0,
            leading: 0,
            trailing: 0,
            t_delta: 0,
        };
        assert(it@.bits =~= bytes_to_bits(self.stream().bytes().skip(2)));
        it
    }
}

impl<'a> Chunk<'a> for XORChunk {
    type Appender = XORAppender<'a>;

    type Iter = XORIterator;

    open spec fn wf(&self) -> bool {
        self.inv()
    }

    open spec fn content(&self) -> Seq<u8> {
        self.stream().bytes()
    }

    fn bytes(&self) -> (r: &[u8]) {
        self.b.as_ref()
    }

    fn encoding(&self) -> (e: Encoding)
        ensures
            e == Encoding::XOR,
    {
        Encoding::XOR
    }

    fn num_samples(&self) -> (n: usize)
        ensures
            n == self.count(),
    {
        Self::count_of(&self.b) as usize
    }

    fn compact(&mut self)
        ensures
            final(self).stream().bytes() == old(self).stream().bytes(),
            final(self).stream().bits() == old(self).stream().bits(),
    {
        self.b.release_over(CHUNK_COMPACT_CAPACITY_THRESHOLD);
    }

    /// An appender that goes on behind the samples of the chunk. It reads
    /// them all to find where the last one left off.
    fn appender(&'a mut self) -> (r: Result<XORAppender<'a>, Error>)
        ensures
            old(self).count() == MAX_SAMPLES ==> r matches Err(Error::AppendOverflow),
            old(self).count() < MAX_SAMPLES ==> match drain(old(self).start()) {
                (Ok(_), c) => r matches Ok(a) && a.stream() == old(self).stream()
                    && *final(a.handle()) == final(self).stream()
                    && a.written() == resumed(c, old(self).count()),
                (Err(Failure::Eof), _) => r matches Err(Error::EOF),
                (Err(Failure::Varint(frame)), _) => r matches Err(Error::ReadError(e)) && e
                    == varint_failure(frame),
            },
            r is Err ==> final(self).stream() == old(self).stream(),
    {
        let n = Self::count_of(&self.b);
        if n == MAX_SAMPLES {
            return Err(Error::AppendOverflow);
        }
        let mut it = self._iterator();
        let ghost c0 = it@;
        let mut more = true;
        while more
            invariant
                *self == *old(self),
                n == old(self).count(),
                n < MAX_SAMPLES,
                c0 == old(self).start(),
                it.wf(),
                more ==> drain(it@) == drain(c0),
                !more ==> drain(c0) == (Ok::<bool, Failure>(false), it@),
            decreases it@.num_total - it@.num_read + (if more { 1int } else { 0int }),
        {
            match it.next() {
                Ok(true) => {},
                Ok(false) => {
                    more = false;
                },
                Err(e) => {
                    return Err(e);
                },
            }
        }
        let leading = if n == 0 {
            NO_WINDOW
        } else {
            it.leading
        };
        Ok(
            XORAppender {
                b: &mut self.b,
                t: it.t,
                v: it.v,
                t_delta: it.t_delta,
                leading,
                trailing: it.trailing,
            },
        )
    }

    fn iterator(&self) -> (it: XORIterator)
        ensures
            it@ == self.start(),
    {
        self._iterator()
    }
}

/// Extends a chunk, sample by sample. While it lives, the chunk is its own;
/// once it is not used again, `lemma_released` says what the chunk holds.
pub struct XORAppender<'a> {
    b: &'a mut BitStream,
    t: i64,
    v: u64,
    t_delta: u64,
    leading: u8,
    trailing: u8,
}

impl<'a> XORAppender<'a> {
    /// The reference to the chunk's stream. What stands behind it when the
    /// appender is released is what the chunk then holds.
    pub closed spec fn handle(&self) -> &'a mut BitStream {
        self.b
    }

    /// The chunk's bits and bytes as they stand.
    pub closed spec fn stream(&self) -> BitStream {
        *self.b
    }

    /// What the appender remembers of the samples written.
    pub closed spec fn written(&self) -> Written {
        Written {
            t: self.t,
            v: self.v,
            t_delta: self.t_delta,
            leading: self.leading,
            trailing: self.trailing,
        }
    }

    /// An appender that is not used again leaves the chunk as its stream
    /// stands: what the chunk holds after the release is `stream()`.
    pub proof fn lemma_released(self)
        requires
            has_resolved(self),
        ensures
            *final(self.handle()) == self.stream(),
    {
    }

    /// The chunk behind the reference is in order.
    pub open spec fn inv(&self) -> bool {
        holds_chunk(self.stream())
    }

    /// The number of samples in the chunk.
    pub open spec fn count(&self) -> nat {
        header_count(self.stream().bytes())
    }

    /// The bits of the samples.
    pub open spec fn body(&self) -> Seq<bool> {
        self.stream().bits().skip(16)
    }

    /// Writes the value block of `v` behind the last value written.
    fn write_v_delta(&mut self, v: u64)
        requires
            old(self).stream().wf(),
            old(self).stream().bytes().len() <= 0x1000_0000,
        ensures
            final(self).stream().wf(),
            *final(final(self).handle()) == *final(old(self).handle()),
            final(self).stream().bits() == old(self).stream().bits() + value_bits(
                old(self).written().leading,
                old(self).written().trailing,
                old(self).written().v,
                v,
            ),
            final(self).stream().bits().len() <= old(self).stream().bits().len() + 77,
            final(self).written() == (Written {
                leading: window_after(
                    old(self).written().leading,
                    old(self).written().trailing,
                    old(self).written().v,
                    v,
                ).0,
                trailing: window_after(
                    old(self).written().leading,
                    old(self).written().trailing,
                    old(self).written().v,
                    v,
                ).1,
                ..old(self).written()
            }),
    {
        let ghost start = self.b.bits();
        let v_delta = v ^ self.v;
        if v_delta == 0 {
            self.b.write_bit(false);
            assert(self.b.bits() =~= start + seq![false]);
            return ;
        }
        self.b.write_bit(true);
        let lz = v_delta.leading_zeros();
        let tz = v_delta.trailing_zeros();
        proof {
            axiom_u64_leading_zeros(v_delta);
            axiom_u64_trailing_zeros(v_delta);
            assert((v_delta >> (tz as u64)) & 1u64 == 1u64);
            assert(lz + tz <= 63);
        }
        let mut leading = lz as u8;
        let trailing = tz as u8;
        if leading >= 32 {
            leading = 31;
        }
        if self.leading != NO_WINDOW && leading >= self.leading && trailing >= self.trailing {
            self.b.write_bit(false);
            self.b.write_bits(
                v_delta >> self.trailing,
                (64 - self.leading - self.trailing) as isize,
            );
            assert(self.b.bits() =~= start + (seq![true, false] + bits_of(
                v_delta >> self.trailing,
                (64 - self.leading - self.trailing) as nat,
            )));
        } else {
            self.leading = leading;
            self.trailing = trailing;
            self.b.write_bit(true);
            self.b.write_bits(leading as u64, 5);
            let sigbits = 64 - leading - trailing;
            self.b.write_bits(sigbits as u64, 6);
            self.b.write_bits(v_delta >> trailing, sigbits as isize);
            assert(self.b.bits() =~= start + (seq![true, true] + bits_of(leading as u64, 5)
                + bits_of(sigbits as u64, 6) + bits_of(v_delta >> trailing, sigbits as nat)));
        }
    }
}

/// Writes a delta of deltas: the prefix of the narrowest width that holds
/// it, then its two's complement in that width.
fn write_dod(b: &mut BitStream, dod: i64)
    requires
        old(b).wf(),
        old(b).bytes().len() <= 0x1000_0000,
    ensures
        final(b).wf(),
        final(b).bits() == old(b).bits() + dod_bits(dod),
        final(b).bits().len() <= old(b).bits().len() + 68,
        final(b).bytes().len() <= old(b).bytes().len() + 9,
{
    let ghost start = b.bits();
    let pattern: u64 = if dod >= 0 {
        dod as u64
    } else {
        (dod as i128 + 0x1_0000_0000_0000_0000) as u64
    };
    if dod == 0 {
        b.write_bit(false);
        assert(b.bits() =~= start + seq![false]);
        return ;
    }
    let (prefix, width, nbits): (u64, isize, isize) = if bit_range(dod, 14) {
        (0x02, 2, 14)
    } else if bit_range(dod, 17) {
        (0x06, 3, 17)
    } else if bit_range(dod, 20) {
        (0x0e, 4, 20)
    } else {
        (0x0f, 4, 64)
    };
    b.write_bits(prefix, width);
    b.write_bits(pattern, nbits);
    assert(b.bits() =~= start + (bits_of(prefix, width as nat) + bits_of(pattern, nbits as nat)));
}

/// Writes the sample count into the first two bytes, big-endian. The bits
/// behind them stay.
fn set_count(b: &mut BitStream, m: u16)
    requires
        old(b).wf(),
        old(b).bytes().len() >= 3,
    ensures
        final(b).wf(),
        header_count(final(b).bytes()) == m,
        final(b).bytes().len() == old(b).bytes().len(),
        final(b).bits().len() == old(b).bits().len(),
        final(b).bits().skip(16) == old(b).bits().skip(16),
{
    let ghost before = b.bits();
    let ghost b1 = b.bytes();
    b.set_byte(0, (m / 256) as u8);
    b.set_byte(1, (m % 256) as u8);
    proof {
        let b2 = b.bytes();
        assert forall|j: int| 16 <= j < before.len() implies b.bits()[j] == before[j] by {
            assert(b2[j / 8] == b1[j / 8]);
        }
        assert(b.bits().skip(16) =~= before.skip(16));
    }
}

/// `t - prev` modulo 2^64.
fn delta_to(prev: i64, t: i64) -> (d: u64)
    ensures
        d == delta_between(prev, t),
{
    let diff: i128 = t as i128 - prev as i128;
    if diff >= 0 {
        diff as u64
    } else {
        (diff + 0x1_0000_0000_0000_0000) as u64
    }
}

/// `delta - prev` modulo 2^64, as a signed number.
fn dod_to(prev: u64, delta: u64) -> (d: i64)
    ensures
        d == delta_of_delta(prev, delta),
{
    let gap: i128 = delta as i128 - prev as i128;
    if gap > i64::MAX as i128 {
        (gap - 0x1_0000_0000_0000_0000) as i64
    } else if gap < i64::MIN as i128 {
        (gap + 0x1_0000_0000_0000_0000) as i64
    } else {
        gap as i64
    }
}

impl<'a> XORAppender<'a> {
    /// Writes the timestamp of a sample behind `n` others.
    fn write_timestamp(&mut self, n: u16, t: i64, t_delta: u64)
        requires
            old(self).stream().wf(),
            old(self).stream().bytes().len() <= 0x0800_0000,
            n >= 1 ==> t_delta == delta_between(old(self).written().t, t),
        ensures
            final(self).stream().wf(),
            *final(final(self).handle()) == *final(old(self).handle()),
            final(self).written() == old(self).written(),
            final(self).stream().bits().len() <= old(self).stream().bits().len() + 80,
            final(self).stream().bytes().len() <= old(self).stream().bytes().len() + 10,
            final(self).stream().bits() == old(self).stream().bits() + (if n == 0 {
                bytes_to_bits(varint_bytes(zigzag(t)))
            } else if n == 1 {
                bytes_to_bits(varint_bytes(t_delta))
            } else {
                dod_bits(delta_of_delta(old(self).written().t_delta, t_delta))
            }),
    {
        if n == 0 {
            let enc = encode_i64(t);
            proof {
                lemma_varint_len(zigzag(t));
            }
            self.b.write_bytes(enc.as_slice());
        } else if n == 1 {
            let enc = encode_u64(t_delta);
            proof {
                lemma_varint_len(t_delta);
            }
            self.b.write_bytes(enc.as_slice());
        } else {
            write_dod(self.b, dod_to(self.t_delta, t_delta));
        }
    }
}

impl<'a> Appender for XORAppender<'a> {
    open spec fn wf(&self) -> bool {
        self.inv()
    }

    /// Appends a sample. A chunk that holds 65 535 samples takes no more,
    /// and is left as it was.
    fn append(&mut self, t: i64, v: u64) -> (r: Result<(), Error>)
        ensures
            *final(final(self).handle()) == *final(old(self).handle()),
            old(self).count() == MAX_SAMPLES ==> r == Err::<(), Error>(Error::AppendOverflow)
                && final(self).stream() == old(self).stream() && final(self).written() == old(
                self,
            ).written(),
            old(self).count() < MAX_SAMPLES ==> r == Ok::<(), Error>(()) && final(self).count()
                == old(self).count() + 1 && final(self).body() == old(self).body() + sample_bits(
                old(self).written(),
                old(self).count(),
                t,
                v,
            ) && final(self).written() == written_after(
                old(self).written(),
                old(self).count(),
                t,
                v,
            ),
    {
        let n = XORChunk::count_of(self.b);
        if n == MAX_SAMPLES {
            return Err(Error::AppendOverflow);
        }
        let ghost start = self.b.bits();
        let ghost w0 = self.written();
        proof {
            self.b.lemma_bit_len();
        }
        let t_delta: u64 = if n == 0 {
            0
        } else {
            delta_to(self.t, t)
        };
        self.write_timestamp(n, t, t_delta);
        if n == 0 {
            self.b.write_bits(v, 64);
        } else {
            self.write_v_delta(v);
        }
        assert(self.b.bits() =~= start + sample_bits(w0, n as nat, t, v));
        self.t = t;
        self.v = v;
        self.t_delta = t_delta;
        proof {
            self.b.lemma_bit_len();
        }
        set_count(self.b, n + 1);
        assert(self.b.bits().skip(16) =~= start.skip(16) + sample_bits(w0, n as nat, t, v));
        Ok(())
    }
}

} // verus!
