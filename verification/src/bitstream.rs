//! Writing and reading single bits and groups of bits, most significant
//! bit first, over a byte buffer.

use crate::bits::{
    bit_at, bits_of, bits_value, byte_bit, bytes_to_bits, lemma_bit_masked,
    lemma_bit_or, lemma_bit_shl, lemma_bit_shr, lemma_bit_tests, lemma_byte_set_bit,
    lemma_byte_split, lemma_byte_widened, lemma_byte_zero, lemma_bytes_split, lemma_joined_fits,
    lemma_masked_fits, lemma_top_byte, lemma_value_of_bits, low_mask,
};
use crate::buffer::{
    buf_as_slice, buf_capacity, buf_from_slice, buf_get, buf_len, buf_new, buf_put_u8, buf_set,
    contents,
};
use vstd::prelude::*;
use vstd::std_specs::convert::FromSpecImpl;
use vstd::std_specs::convert::IntoSpec;

verus! {

/// One bit.
#[derive(Debug, PartialEq, Eq, Clone, Copy, Structural)]
pub enum Bit {
    Zero,
    One,
}

impl From<bool> for Bit {
    fn from(b: bool) -> (r: Self) {
        if b {
            Self::One
        } else {
            Self::Zero
        }
    }
}

impl FromSpecImpl<bool> for Bit {
    open spec fn obeys_from_spec() -> bool {
        true
    }

    open spec fn from_spec(b: bool) -> Self {
        if b {
            Bit::One
        } else {
            Bit::Zero
        }
    }
}

impl From<Bit> for bool {
    fn from(b: Bit) -> (r: Self) {
        match b {
            Bit::One => true,
            Bit::Zero => false,
        }
    }
}

impl FromSpecImpl<Bit> for bool {
    open spec fn obeys_from_spec() -> bool {
        true
    }

    open spec fn from_spec(b: Bit) -> Self {
        b == Bit::One
    }
}

/// An append-only sequence of bits, kept in whole bytes.
pub struct BitStream {
    pub(crate) data: bytes::BytesMut,
    // how many bits of the last byte are still free
    pub(crate) count: u8,
}

impl BitStream {
    /// The bytes of the stream, the last one padded with zero bits.
    pub closed spec fn bytes(&self) -> Seq<u8> {
        contents(self.data)
    }

    /// How many low bits of the last byte have not been written yet.
    pub closed spec fn free(&self) -> nat {
        self.count as nat
    }

    /// At most seven bits are free, and the free bits of the last byte are
    /// zero.
    pub open spec fn wf(&self) -> bool {
        &&& self.free() < 8
        &&& self.free() > 0 ==> self.bytes().len() > 0
        &&& forall|k: u8| k < self.free() ==> !#[trigger] byte_bit(self.bytes().last(), k)
    }

    /// The bits written so far.
    pub open spec fn bits(&self) -> Seq<bool> {
        bytes_to_bits(self.bytes()).take(8 * self.bytes().len() - self.free())
    }

    /// The bits written fill the bytes but for the free bits of the last.
    pub proof fn lemma_bit_len(&self)
        requires
            self.wf(),
        ensures
            self.bits().len() == 8 * self.bytes().len() - self.free(),
    {
    }

    /// A stream without bits.
    pub fn new() -> (s: Self)
        ensures
            s.wf(),
            s.bytes() == Seq::<u8>::empty(),
            s.free() == 0,
    {
        Self { data: buf_new(), count: 0 }
    }

    /// A stream over the whole bytes of `data`.
    pub(crate) fn from_buffer(data: bytes::BytesMut) -> (s: Self)
        ensures
            s.wf(),
            s.bytes() == contents(data),
            s.free() == 0,
    {
        Self { data, count: 0 }
    }

    /// The byte at `i`.
    pub(crate) fn byte_at(&self, i: usize) -> (x: u8)
        requires
            i < self.bytes().len(),
        ensures
            x == self.bytes()[i as int],
    {
        buf_get(&self.data, i)
    }

    /// Replaces a byte before the last.
    pub(crate) fn set_byte(&mut self, i: usize, x: u8)
        requires
            old(self).wf(),
            i + 1 < old(self).bytes().len(),
        ensures
            final(self).wf(),
            final(self).bytes() == old(self).bytes().update(i as int, x),
            final(self).free() == old(self).free(),
    {
        buf_set(&mut self.data, i, x);
        assert(self.bytes().last() == old(self).bytes().last());
    }

    /// Moves the bytes to a buffer of their own size where more than
    /// `slack` bytes are reserved beyond them (see `reserves_over`).
    pub(crate) fn release_over(&mut self, slack: usize)
        ensures
            final(self).bytes() == old(self).bytes(),
            final(self).free() == old(self).free(),
    {
        let len = buf_len(&self.data);
        if reserves_over(buf_capacity(&self.data), len, slack) {
            let tight = buf_from_slice(buf_as_slice(&self.data));
            self.data = tight;
        }
    }

    /// The bytes of the stream.
    pub fn to_vec(self) -> (v: Vec<u8>)
        ensures
            v@ == self.bytes(),
    {
        vstd::slice::slice_to_vec(buf_as_slice(&self.data))
    }

    /// Appends one bit.
    pub fn write_bit<B: Into<Bit>>(&mut self, bit: B)
        requires
            old(self).wf(),
            old(self).bytes().len() < isize::MAX,
            <B as IntoSpec<Bit>>::obeys_into_spec(),
        ensures
            final(self).wf(),
            final(self).bits() == old(self).bits().push(bit.into_spec() == Bit::One),
            final(self).bytes().len() == old(self).bytes().len() + (if old(self).free() == 0 {
                1int
            } else {
                0int
            }),
    {
        let one = bool::from(bit.into());
        let ghost b0 = self.bytes();
        let ghost c0 = self.count;
        if self.count == 0 {
            buf_put_u8(&mut self.data, 0);
            self.count = 8;
        }
        let ghost b1 = self.bytes();
        let i = buf_len(&self.data) - 1;
        let x = buf_get(&self.data, i);
        let p: u8 = self.count - 1;
        assert forall|k: u8| k <= p implies !byte_bit(x, k) by {
            if c0 == 0 {
                assert(x == 0);
                lemma_byte_zero(k);
            } else {
                assert(x == old(self).bytes().last());
            }
        }
        if one {
            buf_set(&mut self.data, i, x | (1u8 << p));
        }
        self.count = p;
        proof {
            let b2 = self.bytes();
            let y = b2[i as int];
            assert forall|k: u8| k < 8 implies byte_bit(y, k) == (byte_bit(x, k) || (one && k
                == p)) by {
                lemma_byte_set_bit(x, p, k);
            }
            assert(b2.last() == y);
            let n0 = 8 * b0.len() - c0;
            let want = old(self).bits().push(one);
            assert(self.bits().len() == n0 + 1);
            assert forall|j: int| 0 <= j < n0 + 1 implies self.bits()[j] == want[j] by {
                let k = (7 - j % 8) as u8;
                assert(self.bits()[j] == byte_bit(b2[j / 8], k));
                if j / 8 == i {
                    if j < n0 {
                        assert(want[j] == byte_bit(b0[j / 8], k));
                        assert(k != p);
                    } else {
                        assert(k == p);
                    }
                } else {
                    assert(b2[j / 8] == b0[j / 8]);
                    assert(want[j] == byte_bit(b0[j / 8], k));
                }
            }
            assert(self.bits() =~= want);
        }
    }

    /// Appends the eight bits of `b`, most significant first.
    pub fn write_byte(&mut self, b: u8)
        requires
            old(self).wf(),
            old(self).bytes().len() < isize::MAX,
        ensures
            final(self).wf(),
            final(self).bits() == old(self).bits() + bits_of(b as u64, 8),
            final(self).bytes().len() == old(self).bytes().len() + 1,
            final(self).free() == old(self).free(),
    {
        let ghost b0 = self.bytes();
        let ghost n0 = 8 * self.bytes().len() - self.count;
        let ghost want = old(self).bits() + bits_of(b as u64, 8);
        assert forall|j: int| n0 <= j < n0 + 8 implies #[trigger] want[j] == byte_bit(
            b,
            (7 - (j - n0)) as u8,
        ) by {
            lemma_byte_widened(b, (7 - (j - n0)) as u64);
        }
        if self.count == 0 {
            buf_put_u8(&mut self.data, b);
            proof {
                let b2 = self.bytes();
                assert forall|j: int| 0 <= j < n0 + 8 implies self.bits()[j] == want[j] by {
                    if j < n0 {
                        assert(b2[j / 8] == b0[j / 8]);
                    } else {
                        assert(b2[j / 8] == b);
                    }
                }
                assert(self.bits() =~= want);
            }
            return ;
        }
        let c = self.count;
        let s: u8 = 8 - c;
        let i = buf_len(&self.data) - 1;
        let x = buf_get(&self.data, i);
        assert(x == old(self).bytes().last());
        let y: u8 = x | (b >> s);
        let z: u8 = b << c;
        buf_set(&mut self.data, i, y);
        buf_put_u8(&mut self.data, z);
        proof {
            let b2 = self.bytes();
            assert(b2.last() == z);
            assert forall|k: u8| k < 8 implies byte_bit(y, k) == (byte_bit(x, k) || (k < c
                && byte_bit(b, (k + s) as u8))) && byte_bit(z, k) == (k >= c && byte_bit(
                b,
                (k - c) as u8,
            )) by {
                lemma_byte_split(x, b, c, s, k);
            }
            assert forall|j: int| 0 <= j < n0 + 8 implies self.bits()[j] == want[j] by {
                let k = (7 - j % 8) as u8;
                assert(self.bits()[j] == byte_bit(b2[j / 8], k));
                if j < n0 {
                    assert(want[j] == byte_bit(b0[j / 8], k));
                    if j / 8 == i {
                        assert(b2[j / 8] == y);
                    } else {
                        assert(b2[j / 8] == b0[j / 8]);
                    }
                } else {
                    let m = j - n0;
                    assert(want[j] == byte_bit(b, (7 - m) as u8));
                    if m < c {
                        assert(j / 8 == i);
                        assert(b2[j / 8] == y);
                        assert(k == c - 1 - m);
                    } else {
                        assert(j / 8 == i + 1);
                        assert(b2[j / 8] == z);
                        assert(k == 7 - m + c);
                    }
                }
            }
            assert(self.bits() =~= want);
        }
    }

    /// Appends every bit of `bytes`, in order.
    pub(crate) fn write_bytes(&mut self, bytes: &[u8])
        requires
            old(self).wf(),
            old(self).bytes().len() + bytes@.len() <= isize::MAX,
        ensures
            final(self).wf(),
            final(self).bits() == old(self).bits() + bytes_to_bits(bytes@),
            final(self).bytes().len() == old(self).bytes().len() + bytes@.len(),
            final(self).free() == old(self).free(),
    {
        let ghost start = self.bits();
        let mut i: usize = 0;
        assert(self.bits() =~= start + bytes_to_bits(bytes@.take(0)));
        while i < bytes.len()
            invariant
                i <= bytes@.len(),
                self.wf(),
                old(self).bytes().len() + bytes@.len() <= isize::MAX,
                self.bytes().len() == old(self).bytes().len() + i,
                self.free() == old(self).free(),
                self.bits() == start + bytes_to_bits(bytes@.take(i as int)),
            decreases bytes@.len() - i,
        {
            let b = bytes[i];
            let ghost before = self.bits();
            self.write_byte(b);
            proof {
                let head = bytes_to_bits(bytes@.take(i as int));
                let more = bytes_to_bits(bytes@.take(i + 1));
                assert forall|j: int| 0 <= j < 8 * (i + 1) implies (head + bits_of(b as u64, 8))[j]
                    == more[j] by {
                    if j < 8 * i {
                        assert(bytes@.take(i as int)[j / 8] == bytes@.take(i + 1)[j / 8]);
                    } else {
                        lemma_byte_widened(b, (7 - (j - 8 * i)) as u64);
                        assert(bytes@.take(i + 1)[j / 8] == b);
                    }
                }
                assert(head + bits_of(b as u64, 8) =~= more);
                assert(before + bits_of(b as u64, 8) =~= start + more);
            }
            i += 1;
        }
        assert(bytes@.take(bytes@.len() as int) =~= bytes@);
    }

    /// Appends the `nbits` low bits of `u`, most significant first.
    pub fn write_bits(&mut self, u: u64, nbits: isize)
        requires
            old(self).wf(),
            0 <= nbits <= 64,
            old(self).bytes().len() + 9 <= isize::MAX,
        ensures
            final(self).wf(),
            final(self).bits() == old(self).bits() + bits_of(u, nbits as nat),
            final(self).bytes().len() <= old(self).bytes().len() + (nbits + 7) / 8,
    {
        let ghost full = bits_of(u, nbits as nat);
        let ghost start = old(self).bits();
        proof {
            self.lemma_bit_len();
        }
        if nbits <= 0 {
            assert(self.bits() =~= start + full);
            return ;
        }
        let n: u64 = nbits as u64;
        let mut w: u64 = u << (64 - n);
        let mut rem: u64 = n;
        assert forall|j: int| 0 <= j < n implies #[trigger] full[j] == bit_at(
            w,
            (63 - j) as u64,
        ) by {
            lemma_bit_shl(u, (64 - n) as u64, (63 - j) as u64);
        }
        assert(self.bits() =~= start + full.take(n - rem));
        while rem >= 8
            invariant
                self.wf(),
                rem <= n <= 64,
                full.len() == n,
                start.len() + 9 * 8 <= isize::MAX * 8,
                self.bits() == start + full.take(n - rem),
                forall|j: int|
                    n - rem <= j < n ==> #[trigger] full[j] == bit_at(
                        w,
                        (63 - (j - (n - rem))) as u64,
                    ),
            decreases rem,
        {
            let byte: u8 = #[verifier::truncate]
            ((w >> 56) as u8);
            let ghost before = self.bits();
            proof {
                self.lemma_bit_len();
            }
            self.write_byte(byte);
            proof {
                let chunk = bits_of(byte as u64, 8);
                let done = n - rem;
                assert forall|m: int| 0 <= m < 8 implies #[trigger] chunk[m] == full[done + m] by {
                    lemma_byte_widened(byte, (7 - m) as u64);
                    lemma_top_byte(w, (7 - m) as u8);
                    assert(full[done + m] == bit_at(w, (63 - m) as u64));
                }
                assert(before + chunk =~= start + full.take(done + 8));
                assert forall|j: int| done + 8 <= j < n implies #[trigger] full[j] == bit_at(
                    w << 8,
                    (63 - (j - (done + 8))) as u64,
                ) by {
                    lemma_bit_shl(w, 8, (63 - (j - (done + 8))) as u64);
                }
            }
            w = w << 8;
            rem = rem - 8;
        }
        while rem > 0
            invariant
                self.wf(),
                rem <= n <= 64,
                full.len() == n,
                start.len() + 9 * 8 <= isize::MAX * 8,
                self.bits() == start + full.take(n - rem),
                forall|j: int|
                    n - rem <= j < n ==> #[trigger] full[j] == bit_at(
                        w,
                        (63 - (j - (n - rem))) as u64,
                    ),
            decreases rem,
        {
            let top: bool = (w >> 63) == 1;
            let ghost before = self.bits();
            proof {
                self.lemma_bit_len();
            }
            self.write_bit(top);
            proof {
                let done = n - rem;
                lemma_bit_tests(w, 63);
                assert(top == full[done]);
                assert(before.push(top) =~= start + full.take(done + 1));
                assert forall|j: int| done + 1 <= j < n implies #[trigger] full[j] == bit_at(
                    w << 1,
                    (63 - (j - (done + 1))) as u64,
                ) by {
                    lemma_bit_shl(w, 1, (63 - (j - (done + 1))) as u64);
                }
            }
            w = w << 1;
            rem = rem - 1;
        }
        assert(full.take(n as int) =~= full);
        proof {
            self.lemma_bit_len();
        }
    }
}

impl Clone for BitStream {
    /// A stream of its own with the same bits.
    fn clone(&self) -> (s: Self)
        ensures
            s.bytes() == self.bytes(),
            s.free() == self.free(),
    {
        Self { data: buf_from_slice(buf_as_slice(&self.data)), count: self.count }
    }
}

impl AsRef<[u8]> for BitStream {
    /// The bytes of the stream.
    fn as_ref(&self) -> (s: &[u8])
        ensures
            s@ == self.bytes(),
    {
        buf_as_slice(&self.data)
    }
}

/// Does a buffer that can hold `capacity` bytes and holds `len` reserve
/// more than `slack` bytes beyond them? Such a buffer is worth giving up
/// for one of the bytes' own size.
pub fn reserves_over(capacity: usize, len: usize, slack: usize) -> (r: bool)
    ensures
        r == (capacity - len > slack),
{
    capacity > len && capacity - len > slack
}

/// A word with its `n` low bits set.
fn mask(n: u8) -> (m: u64)
    requires
        n <= 64,
    ensures
        m == low_mask(n as u64),
{
    if n >= 64 {
        u64::MAX
    } else {
        proof {
            lemma_bit_tests(0, n as u64);
        }
        (1u64 << n) - 1
    }
}

/// A cursor over the bits of a byte buffer. Bits are taken from a 64-bit
/// register that is refilled from the buffer, up to eight bytes at a time.
#[derive(Debug)]
pub struct Reader {
    stream: bytes::BytesMut,
    stream_offset: usize,
    buffer: u64,
    valid: u8,
}

impl Reader {
    /// The reader stands inside its buffer, and its register holds at most
    /// 64 bits.
    pub closed spec fn wf(&self) -> bool {
        &&& self.stream_offset <= contents(self.stream).len()
        &&& self.valid <= 64
    }

    /// The bits that wait in the register, next bit first.
    pub closed spec fn buffered(&self) -> Seq<bool> {
        bits_of(self.buffer, self.valid as nat)
    }

    /// The bytes of the buffer that have not been loaded into the register.
    pub closed spec fn unread(&self) -> Seq<u8> {
        contents(self.stream).skip(self.stream_offset as int)
    }

    /// All the bits still to be read, next bit first.
    pub open spec fn remaining(&self) -> Seq<bool> {
        self.buffered() + bytes_to_bits(self.unread())
    }

    /// How many bytes a refill loads: eight where eight are left, else as
    /// many as `nbits` bits may span, and never more than are left.
    pub open spec fn refill_len(avail: nat, nbits: u8) -> nat {
        if avail >= 8 {
            8
        } else if (nbits + 7) / 8 + 1 < avail {
            ((nbits + 7) / 8 + 1) as nat
        } else {
            avail
        }
    }

    /// A reader before the first bit of `stream`.
    pub fn new(stream: bytes::BytesMut) -> (r: Self)
        ensures
            r.wf(),
            r.buffered() == Seq::<bool>::empty(),
            r.unread() == contents(stream),
    {
        let r = Self { stream, stream_offset: 0, buffer: 0, valid: 0 };
        assert(r.buffered() =~= Seq::<bool>::empty());
        assert(r.unread() =~= contents(stream));
        r
    }

    /// The next eight bits as a byte.
    pub fn read_byte(&mut self) -> (r: Option<u8>)
        requires
            old(self).wf(),
        ensures
            final(self).wf(),
            r is Some <==> old(self).remaining().len() >= 8,
            r matches Some(b) ==> b == bits_value(old(self).remaining().take(8)) && final(self).remaining() == old(self).remaining().skip(8),
            r is None ==> final(self).remaining().len() == 0,
    {
        match self.read_bits(8) {
            Some(u) => {
                proof {
                    lemma_masked_fits(0, 8);
                }
                Some(u as u8)
            },
            None => None,
        }
    }

    /// The next bit, from the register if it holds one, else after a refill.
    pub fn try_read_bit(&mut self) -> (r: Option<Bit>)
        requires
            old(self).wf(),
        ensures
            final(self).wf(),
            r is Some <==> old(self).remaining().len() > 0,
            r matches Some(b) ==> (b == Bit::One) == old(self).remaining()[0] && final(self).remaining() == old(self).remaining().skip(1),
            r is None ==> final(self).remaining() == old(self).remaining(),
    {
        let bit = self.read_bit_fast();
        if bit.is_none() {
            return self.read_bit();
        }
        assert(self.remaining() =~= old(self).remaining().skip(1));
        bit
    }

    /// The next `nbits` bits as a number, from the register if it holds
    /// that many, else after a refill.
    pub fn try_read_bits(&mut self, nbits: u8) -> (r: Option<u64>)
        requires
            old(self).wf(),
            1 <= nbits <= 64,
        ensures
            final(self).wf(),
            r is Some <==> old(self).remaining().len() >= nbits,
            r matches Some(x) ==> x == bits_value(old(self).remaining().take(nbits as int))
                && x <= low_mask(nbits as u64) && final(self).remaining() == old(self).remaining().skip(nbits as int),
            r is None ==> final(self).remaining().len() == 0,
    {
        let bits = self.read_bits_fast(nbits);
        if bits.is_none() {
            return self.read_bits(nbits);
        }
        assert(self.remaining() =~= old(self).remaining().skip(nbits as int));
        assert(old(self).remaining().take(nbits as int) =~= old(self).buffered().take(
            nbits as int,
        ));
        bits
    }

    /// The next `nbits` bits as a number, most significant bit first. Where
    /// fewer are left, nothing is returned and the reader is left empty.
    pub fn read_bits(&mut self, nbits: u8) -> (r: Option<u64>)
        requires
            old(self).wf(),
            1 <= nbits <= 64,
        ensures
            final(self).wf(),
            r is Some <==> old(self).remaining().len() >= nbits,
            r matches Some(x) ==> x == bits_value(old(self).remaining().take(nbits as int))
                && x <= low_mask(nbits as u64) && final(self).remaining() == old(self).remaining().skip(nbits as int),
            r is None ==> final(self).remaining().len() == 0,
    {
        let ghost rem0 = self.remaining();
        if self.valid == 0 {
            let ghost un0 = self.unread();
            let loaded = self.load_next_buffer(nbits);
            if !loaded {
                return None;
            }
            proof {
                lemma_bytes_split(un0, Self::refill_len(un0.len(), nbits) as int);
                assert(self.remaining() =~= rem0);
            }
        }
        if nbits <= self.valid {
            let ghost bf = self.buffered();
            let r = self.read_bits_fast(nbits);
            assert(self.remaining() =~= rem0.skip(nbits as int));
            assert(rem0.take(nbits as int) =~= bf.take(nbits as int));
            return r;
        }
        let high_n = self.valid;
        let low_n = nbits - high_n;
        let high = self.buffer & mask(high_n);
        let ghost hb = self.buffered();
        let ghost un = self.unread();
        let ghost word0 = self.buffer;
        self.valid = 0;
        let loaded = self.load_next_buffer(low_n);
        if !loaded {
            return None;
        }
        let ghost k = Self::refill_len(un.len(), low_n) as int;
        let ghost nb = self.buffered();
        if self.valid < low_n {
            self.valid = 0;
            proof {
                assert(nb.len() == 8 * k);
                assert(k == un.len());
                assert(self.unread().len() == 0);
                assert(self.remaining() =~= Seq::<bool>::empty());
                assert(rem0.len() == high_n + 8 * un.len());
            }
            return None;
        }
        let shift = self.valid - low_n;
        let low = (self.buffer >> shift) & mask(low_n);
        self.valid = shift;
        let v = (high << low_n) | low;
        proof {
            let word = self.buffer;
            let n = nbits as int;
            lemma_bytes_split(un, k);
            let tail = bytes_to_bits(un.skip(k));
            assert(rem0 =~= hb + nb + tail);
            assert(self.buffered() =~= nb.skip(low_n as int));
            assert(self.remaining() =~= rem0.skip(n));
            assert forall|i: int| 0 <= i < n implies bits_of(v, n as nat)[i] == rem0.take(n)[i] by {
                let kk = (n - 1 - i) as u64;
                lemma_bit_or(high << low_n, low, kk);
                lemma_bit_shl(high, low_n as u64, kk);
                lemma_bit_masked(word >> shift, low_n as u64, kk);
                lemma_bit_shr(word, shift as u64, kk);
                if kk >= low_n {
                    lemma_bit_masked(word0, high_n as u64, (kk - low_n) as u64);
                    assert(rem0.take(n)[i] == hb[i]);
                } else {
                    assert(rem0.take(n)[i] == nb[i - high_n]);
                }
            }
            assert(bits_of(v, n as nat) =~= rem0.take(n));
            lemma_value_of_bits(v, n as nat);
            lemma_joined_fits(word0, high_n as u64, word >> shift, low_n as u64);
            lemma_masked_fits(v, nbits as u64);
        }
        Some(v)
    }

    /// The next `nbits` bits from the register alone: nothing is returned,
    /// and nothing changes, where the register holds fewer.
    pub fn read_bits_fast(&mut self, nbits: u8) -> (r: Option<u64>)
        requires
            old(self).wf(),
        ensures
            final(self).wf(),
            final(self).unread() == old(self).unread(),
            r is Some <==> old(self).buffered().len() >= nbits,
            r matches Some(x) ==> x == bits_value(old(self).buffered().take(nbits as int))
                && x <= low_mask(nbits as u64) && final(self).buffered() == old(self).buffered().skip(nbits as int),
            r is None ==> final(self).buffered() == old(self).buffered(),
    {
        if nbits > self.valid {
            return None;
        }
        if nbits == 0 {
            assert(self.buffered().skip(0) =~= self.buffered());
            assert(self.buffered().take(0) =~= Seq::<bool>::empty());
            return Some(0);
        }
        let bitmask = mask(nbits);
        let ghost bf = self.buffered();
        self.valid -= nbits;
        let word = self.buffer >> self.valid;
        proof {
            let n = nbits as nat;
            assert forall|i: int| 0 <= i < n implies bits_of(word, n)[i] == bf.take(n as int)[i] by {
                lemma_bit_shr(self.buffer, self.valid as u64, (n - 1 - i) as u64);
            }
            assert(bits_of(word, n) =~= bf.take(n as int));
            lemma_value_of_bits(word, n);
            lemma_masked_fits(word, nbits as u64);
            assert(self.buffered() =~= bf.skip(n as int));
        }
        Some(word & bitmask)
    }

    /// The next bit, refilling the register where it is empty.
    pub fn read_bit(&mut self) -> (r: Option<Bit>)
        requires
            old(self).wf(),
        ensures
            final(self).wf(),
            r is Some <==> old(self).remaining().len() > 0,
            r matches Some(b) ==> (b == Bit::One) == old(self).remaining()[0] && final(self).remaining() == old(self).remaining().skip(1),
            r is None ==> final(self).remaining() == old(self).remaining(),
    {
        let ghost rem0 = self.remaining();
        if self.valid == 0 {
            let ghost un0 = self.unread();
            let loaded = self.load_next_buffer(1);
            if !loaded {
                return None;
            }
            proof {
                lemma_bytes_split(un0, Self::refill_len(un0.len(), 1) as int);
                assert(self.remaining() =~= rem0);
            }
        }
        let r = self.read_bit_fast();
        assert(self.remaining() =~= rem0.skip(1));
        r
    }

    /// The next bit from the register alone: nothing is returned where the
    /// register is empty.
    pub fn read_bit_fast(&mut self) -> (r: Option<Bit>)
        requires
            old(self).wf(),
        ensures
            final(self).wf(),
            final(self).unread() == old(self).unread(),
            r is Some <==> old(self).buffered().len() > 0,
            r matches Some(b) ==> (b == Bit::One) == old(self).buffered()[0] && final(self).buffered() == old(self).buffered().skip(1),
            r is None ==> final(self).buffered() == old(self).buffered(),
    {
        if self.valid == 0 {
            return None;
        }
        self.valid -= 1;
        let bitmask = 1u64 << self.valid;
        let one = self.buffer & bitmask != 0;
        proof {
            lemma_bit_tests(self.buffer, self.valid as u64);
            assert(self.buffered() =~= old(self).buffered().skip(1));
        }
        Some(one.into())
    }

    /// Refills the register from the buffer, dropping what it held. Returns
    /// false, and changes nothing, where no byte is left.
    pub fn load_next_buffer(&mut self, nbits: u8) -> (r: bool)
        requires
            old(self).wf(),
        ensures
            final(self).wf(),
            r == (old(self).unread().len() > 0),
            r ==> final(self).buffered() == bytes_to_bits(
                old(self).unread().take(Self::refill_len(old(self).unread().len(), nbits) as int),
            ) && final(self).unread() == old(self).unread().skip(
                Self::refill_len(old(self).unread().len(), nbits) as int,
            ),
            !r ==> final(self).buffered() == old(self).buffered() && final(self).unread() == old(self).unread(),
    {
        let len = buf_len(&self.stream);
        if self.stream_offset >= len {
            return false;
        }
        let avail = len - self.stream_offset;
        let want: usize = (nbits as usize + 7) / 8 + 1;
        let nbytes: usize = if avail >= 8 {
            8
        } else if want < avail {
            want
        } else {
            avail
        };
        let ghost un = self.unread();
        let ghost target = bytes_to_bits(un.take(nbytes as int));
        let mut buffer = 0u64;
        let mut i: usize = 0;
        while i < nbytes
            invariant
                i <= nbytes <= 8,
                self.wf(),
                len == contents(self.stream).len(),
                self.stream_offset + nbytes <= contents(self.stream).len(),
                un == contents(self.stream).skip(self.stream_offset as int),
                target == bytes_to_bits(un.take(nbytes as int)),
                forall|j: int|
                    0 <= j < 8 * i ==> #[trigger] target[j] == bit_at(
                        buffer,
                        (8 * i - 1 - j) as u64,
                    ),
            decreases nbytes - i,
        {
            let b = buf_get(&self.stream, self.stream_offset + i);
            let ghost prev = buffer;
            buffer = (buffer << 8) | (b as u64);
            proof {
                assert(b == un[i as int]);
                assert forall|j: int| 0 <= j < 8 * (i + 1) implies #[trigger] target[j] == bit_at(
                    buffer,
                    (8 * (i + 1) - 1 - j) as u64,
                ) by {
                    let kk = (8 * (i + 1) - 1 - j) as u64;
                    lemma_bit_or(prev << 8, b as u64, kk);
                    lemma_bit_shl(prev, 8, kk);
                    lemma_byte_widened(b, kk);
                    assert(un.take(nbytes as int)[j / 8] == un[j / 8]);
                }
            }
            i += 1;
        }
        self.buffer = buffer;
        self.stream_offset += nbytes;
        self.valid = (nbytes * 8) as u8;
        proof {
            assert(self.buffered() =~= target);
            assert(self.unread() =~= un.skip(nbytes as int));
        }
        true
    }
}

} // verus!
