use bytes::BytesMut;
use chunkenc::bitstream::{reserves_over, Bit, BitStream, Reader};

fn reader_over(bytes: &[u8]) -> Reader {
    Reader::new(BytesMut::from(bytes))
}

#[test]
pub fn test_reader() {
    let mut bs = BitStream::new();
    for i in [true, false] {
        bs.write_bit(i);
    }

    for nbits in 1..64 {
        bs.write_bits(nbits, nbits as isize);
    }

    for v in (1..10000).step_by(123) {
        bs.write_bits(v, 29);
    }

    let mut r = Reader::new(bytes::BytesMut::from(bs.as_ref()));

    for i in [true, false] {
        let value = r.read_bit().unwrap();
        assert_eq!(Bit::from(i), value, "testing read_bit_fast");
    }

    for nbits in 1..64_u8 {
        let value = r.read_bits(nbits).unwrap();
        assert_eq!(nbits as u64, value, "testing read_bit_fast");
    }

    for i in (1..10000).step_by(123) {
        let value = r.read_bits(29).unwrap();
        assert_eq!(i as u64, value, "testing read_bit_fast");
    }
}

#[test]
fn bit_converts_both_ways() {
    assert_eq!(Bit::from(true), Bit::One);
    assert_eq!(Bit::from(false), Bit::Zero);
    assert!(bool::from(Bit::One));
    assert!(!bool::from(Bit::Zero));
}

#[test]
fn new_stream_is_empty() {
    let bs = BitStream::new();
    assert_eq!(bs.as_ref(), &[] as &[u8]);
    assert_eq!(bs.to_vec(), Vec::<u8>::new());
}

#[test]
fn bits_fill_a_byte_from_the_top() {
    let mut bs = BitStream::new();
    bs.write_bit(Bit::One);
    assert_eq!(bs.as_ref(), &[0x80]);
    bs.write_bit(false);
    bs.write_bit(true);
    assert_eq!(bs.as_ref(), &[0xa0]);
    for _ in 0..5 {
        bs.write_bit(true);
    }
    assert_eq!(bs.as_ref(), &[0xbf]);
    bs.write_bit(true);
    assert_eq!(bs.to_vec(), vec![0xbf, 0x80]);
}

#[test]
fn aligned_byte_is_appended_as_it_is() {
    let mut bs = BitStream::new();
    bs.write_byte(0xab);
    assert_eq!(bs.as_ref(), &[0xab]);
    bs.write_byte(0xcd);
    assert_eq!(bs.to_vec(), vec![0xab, 0xcd]);
}

#[test]
fn unaligned_byte_is_split_over_two() {
    let mut bs = BitStream::new();
    bs.write_bit(true);
    bs.write_bit(false);
    bs.write_bit(true);
    bs.write_byte(0xff);
    assert_eq!(bs.as_ref(), &[0xbf, 0xe0]);
    bs.write_byte(0x00);
    assert_eq!(bs.as_ref(), &[0xbf, 0xe0, 0x00]);
    bs.write_bits(0x1f, 5);
    assert_eq!(bs.to_vec(), vec![0xbf, 0xe0, 0x1f]);
}

#[test]
fn groups_are_written_most_significant_bit_first() {
    let mut bs = BitStream::new();
    bs.write_bits(0b101, 3);
    bs.write_bits(0, 0);
    bs.write_bits(0xffff_ffff_ffff_fffe, 5);
    assert_eq!(bs.as_ref(), &[0b1011_1110]);
    bs.write_bits(0x0123_4567_89ab_cdef, 64);
    assert_eq!(
        bs.to_vec(),
        vec![0xbe, 0x01, 0x23, 0x45, 0x67, 0x89, 0xab, 0xcd, 0xef]
    );
}

#[test]
fn wide_groups_cross_byte_borders() {
    let mut bs = BitStream::new();
    bs.write_bit(true);
    bs.write_bits(0xdead_beef_0bad_f00d, 64);
    bs.write_bits(0x1ff, 9);
    let mut r = reader_over(bs.as_ref());
    assert_eq!(r.read_bit(), Some(Bit::One));
    assert_eq!(r.read_bits(64), Some(0xdead_beef_0bad_f00d));
    assert_eq!(r.read_bits(9), Some(0x1ff));
}

#[test]
fn reader_reads_bits_in_order() {
    let mut r = reader_over(&[0b1010_0000]);
    assert_eq!(r.read_bit(), Some(Bit::One));
    assert_eq!(r.try_read_bit(), Some(Bit::Zero));
    assert_eq!(r.read_bit(), Some(Bit::One));
    for _ in 0..5 {
        assert_eq!(r.try_read_bit(), Some(Bit::Zero));
    }
    assert_eq!(r.read_bit(), None);
    assert_eq!(r.try_read_bit(), None);
}

#[test]
fn reader_reads_bytes() {
    let mut r = reader_over(&[0x12, 0x34, 0x56]);
    assert_eq!(r.read_byte(), Some(0x12));
    assert_eq!(r.read_bit(), Some(Bit::Zero));
    assert_eq!(r.read_byte(), Some(0x68));
    assert_eq!(r.read_bits(7), Some(0x56));
    assert_eq!(r.read_byte(), None);
}

#[test]
fn full_register_gives_all_its_bits_at_once() {
    let bytes = [0x01, 0x23, 0x45, 0x67, 0x89, 0xab, 0xcd, 0xef, 0xfe];
    let mut r = reader_over(&bytes);
    assert_eq!(r.read_bits(64), Some(0x0123_4567_89ab_cdef));
    assert_eq!(r.try_read_bits(8), Some(0xfe));
    assert_eq!(r.try_read_bits(1), None);
}

#[test]
fn group_spans_two_refills() {
    let bytes = [0xff, 0x00, 0xff, 0x00, 0xff, 0x00, 0xff, 0x00, 0xaa, 0x55];
    let mut r = reader_over(&bytes);
    assert_eq!(r.read_bits(60), Some(0x0ff0_0ff0_0ff0_0ff0));
    assert_eq!(r.read_bits(12), Some(0x0aa));
    assert_eq!(r.read_bits(8), Some(0x55));
    assert_eq!(r.read_bits(1), None);
}

#[test]
fn short_tail_ends_the_reader() {
    let mut r = reader_over(&[0xff, 0xff]);
    assert_eq!(r.read_bits(4), Some(0xf));
    assert_eq!(r.read_bits(13), None);
    assert_eq!(r.read_bit(), None);
    assert_eq!(r.read_bits(1), None);
}

#[test]
fn empty_reader_gives_nothing() {
    let mut r = reader_over(&[]);
    assert!(!r.load_next_buffer(8));
    assert_eq!(r.read_bit_fast(), None);
    assert_eq!(r.read_bits_fast(1), None);
    assert_eq!(r.read_bits_fast(0), Some(0));
    assert_eq!(r.try_read_bits(64), None);
    assert_eq!(r.read_byte(), None);
}

#[test]
fn fast_reads_take_from_the_register_only() {
    let mut r = reader_over(&[0xc0, 0x01]);
    assert_eq!(r.read_bit_fast(), None);
    assert_eq!(r.read_bits_fast(3), None);
    assert!(r.load_next_buffer(1));
    assert_eq!(r.read_bits_fast(17), None);
    assert_eq!(r.read_bit_fast(), Some(Bit::One));
    assert_eq!(r.read_bits_fast(2), Some(0b10));
    assert_eq!(r.read_bits_fast(13), Some(1));
    assert_eq!(r.read_bit_fast(), None);
    assert!(!r.load_next_buffer(1));
}

#[test]
fn refill_takes_eight_bytes_where_eight_are_left() {
    let bytes = [0x01, 0x02, 0x03, 0x04, 0x05, 0x06, 0x07, 0x08];
    let mut r = reader_over(&bytes);
    assert!(r.load_next_buffer(1));
    assert_eq!(r.read_bits_fast(64), Some(0x0102_0304_0506_0708));
    assert!(!r.load_next_buffer(1));
}

#[test]
fn refill_of_a_short_tail_takes_what_the_bits_may_span() {
    let bytes = [0x01, 0x02, 0x03, 0x04, 0x05];
    let mut r = reader_over(&bytes);
    // one bit may span two bytes
    assert!(r.load_next_buffer(1));
    assert_eq!(r.read_bits_fast(17), None);
    assert_eq!(r.read_bits_fast(16), Some(0x0102));
    // seventeen bits may span four, and three are left
    assert!(r.load_next_buffer(17));
    assert_eq!(r.read_bits_fast(25), None);
    assert_eq!(r.read_bits_fast(24), Some(0x03_0405));
    assert!(!r.load_next_buffer(64));
}

#[test]
fn refill_drops_what_the_register_held() {
    let mut r = reader_over(&[0xaa, 0xbb, 0xcc, 0xdd]);
    assert!(r.load_next_buffer(1));
    assert_eq!(r.read_bits_fast(4), Some(0xa));
    assert!(r.load_next_buffer(1));
    assert_eq!(r.read_bits_fast(16), Some(0xccdd));
}

#[test]
fn what_is_written_is_read_back() {
    let mut bs = BitStream::new();
    let mut expected = Vec::new();
    let mut x: u64 = 0x9e37_79b9_7f4a_7c15;
    for i in 0..500u64 {
        x ^= x << 13;
        x ^= x >> 7;
        x ^= x << 17;
        let width = (i % 64 + 1) as u8;
        let value = if width == 64 { x } else { x & ((1u64 << width) - 1) };
        match i % 3 {
            0 => {
                bs.write_bit(value & 1 == 1);
                expected.push((1u8, value & 1));
            }
            1 => {
                bs.write_byte(value as u8);
                expected.push((8u8, value & 0xff));
            }
            _ => {
                bs.write_bits(value, width as isize);
                expected.push((width, value));
            }
        }
    }
    let mut r = reader_over(bs.as_ref());
    for (width, value) in expected {
        assert_eq!(r.read_bits(width), Some(value));
    }
}

#[test]
fn write_bits_keeps_the_low_bits_only() {
    let mut bs = BitStream::new();
    bs.write_bits(0xffff_ffff_ffff_ff05, 4);
    bs.write_bits(0xf0, 4);
    assert_eq!(bs.to_vec(), vec![0x50]);
}

#[test]
fn clone_is_a_stream_of_its_own() {
    let mut bs = BitStream::new();
    bs.write_bits(0b110, 3);
    let mut other = bs.clone();
    other.write_bits(0b01, 2);
    bs.write_bit(true);
    assert_eq!(bs.to_vec(), vec![0b1101_0000]);
    assert_eq!(other.to_vec(), vec![0b1100_1000]);
}

#[test]
fn reserve_counts_from_one_byte_over_the_slack() {
    assert!(!reserves_over(0, 0, 32));
    assert!(!reserves_over(128, 128, 32));
    assert!(!reserves_over(160, 128, 32));
    assert!(reserves_over(161, 128, 32));
    assert!(reserves_over(128, 2, 32));
    assert!(!reserves_over(34, 2, 32));
    assert!(reserves_over(35, 2, 32));
    assert!(!reserves_over(2, 128, 32));
    assert!(reserves_over(1, 0, 0));
    assert!(!reserves_over(usize::MAX, 0, usize::MAX));
    assert!(reserves_over(usize::MAX, 0, usize::MAX - 1));
}
