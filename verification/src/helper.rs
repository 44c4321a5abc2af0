//! Variable-length integers, through the `unsigned-varint` crate.

use crate::bitstream::Reader;
use crate::error::{varint_failure, Error};
use crate::format::{
    after_varint_frame, read_uvarint, unzigzag, varint_bytes, varint_frame, varint_frame_ok,
    varint_framed, varint_value, zigzag,
};
use vstd::prelude::*;

verus! {

/// `unsigned_varint::encode::u64`, with a buffer of its own: the varint of
/// `x`, seven bits to a byte from the least significant end, each byte but
/// the last marked with the high bit.
#[verifier::external_body]
pub(crate) fn encode_u64(x: u64) -> (out: Vec<u8>)
    ensures
        out@ == varint_bytes(x),
{
    let mut buf = [0u8; 10];
    unsigned_varint::encode::u64(x, &mut buf).to_vec()
}

/// `unsigned_varint::io::read_u64` on a slice that holds the bytes of one
/// varint and no more. It succeeds where the last byte ends the varint and
/// is not a needless zero, with the number that the groups of seven bits
/// spell; a tenth group keeps only the bit that fits.
#[verifier::external_body]
fn decode_u64(frame: &[u8]) -> (res: Result<u64, unsigned_varint::io::ReadError>)
    requires
        varint_framed(frame@),
    ensures
        res is Ok <==> varint_frame_ok(frame@),
        res matches Ok(x) ==> x == varint_value(frame@),
        res matches Err(e) ==> e == varint_failure(frame@),
{
    unsigned_varint::io::read_u64(frame)
}

/// The varint of the zig-zag form of `number`.
pub(crate) fn encode_i64(number: i64) -> (out: Vec<u8>)
    ensures
        out@ == varint_bytes(zigzag(number)),
{
    let ux: u64 = if number >= 0 {
        (number as u64) * 2
    } else {
        ((-(number + 1)) as u64) * 2 + 1
    };
    encode_u64(ux)
}

/// Reads one varint off the reader, byte by byte. The reader is left behind
/// the bytes taken, also where they do not make a varint.
pub(crate) fn read_u64(r: &mut Reader) -> (res: Result<u64, Error>)
    requires
        old(r).wf(),
    ensures
        final(r).wf(),
        final(r).remaining() == after_varint_frame(old(r).remaining(), 10),
        match read_uvarint(old(r).remaining()) {
            Some(x) => res == Ok::<u64, Error>(x),
            None => res == Err::<u64, Error>(
                Error::ReadError(varint_failure(varint_frame(old(r).remaining(), 10))),
            ),
        },
{
    let ghost bits0 = r.remaining();
    let mut frame: Vec<u8> = Vec::new();
    let mut open = true;
    while open && frame.len() < 10
        invariant
            r.wf(),
            frame.len() <= 10,
            forall|i: int| 0 <= i < frame.len() - 1 ==> frame[i] >= 128,
            open && frame.len() > 0 ==> frame[frame.len() - 1] >= 128,
            open ==> varint_frame(bits0, 10) == frame@ + varint_frame(
                r.remaining(),
                (10 - frame.len()) as nat,
            ),
            open ==> after_varint_frame(bits0, 10) == after_varint_frame(
                r.remaining(),
                (10 - frame.len()) as nat,
            ),
            !open ==> varint_frame(bits0, 10) == frame@,
            !open ==> after_varint_frame(bits0, 10) == r.remaining(),
        decreases (if open { 1int } else { 0int }) + 10 - frame.len(),
    {
        let ghost before = r.remaining();
        match r.read_byte() {
            None => {
                open = false;
                proof {
                    assert(r.remaining() =~= Seq::<bool>::empty());
                    assert(frame@ + Seq::<u8>::empty() =~= frame@);
                }
            },
            Some(b) => {
                let ghost head = frame@;
                frame.push(b);
                if b < 128 {
                    open = false;
                }
                proof {
                    assert(head + seq![b] =~= frame@);
                    assert(head + (seq![b] + varint_frame(before.skip(8), (10 - frame.len()) as nat))
                        =~= frame@ + varint_frame(before.skip(8), (10 - frame.len()) as nat));
                }
            },
        }
    }
    proof {
        if open {
            assert(frame@ + Seq::<u8>::empty() =~= frame@);
        }
    }
    match decode_u64(frame.as_slice()) {
        Ok(x) => Ok(x),
        Err(e) => Err(Error::ReadError(e)),
    }
}

/// Reads one zig-zag varint off the reader.
pub(crate) fn read_i64(r: &mut Reader) -> (res: Result<i64, Error>)
    requires
        old(r).wf(),
    ensures
        final(r).wf(),
        final(r).remaining() == after_varint_frame(old(r).remaining(), 10),
        match read_uvarint(old(r).remaining()) {
            Some(x) => res == Ok::<i64, Error>(unzigzag(x)),
            None => res == Err::<i64, Error>(
                Error::ReadError(varint_failure(varint_frame(old(r).remaining(), 10))),
            ),
        },
{
    match read_u64(r) {
        Ok(ux) => {
            let half = (ux / 2) as i64;
            if ux % 2 == 0 {
                Ok(half)
            } else {
                Ok(-half - 1)
            }
        },
        Err(e) => Err(e),
    }
}

} // verus!
