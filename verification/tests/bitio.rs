//! The word-wise bit reader and writer.

use oxideav_huffyuv::bitio::{BitReader, BitWriter};

#[test]
fn writer_then_reader_round_trip_short_codes() {
    let mut w = BitWriter::new();

    w.write_msb(0b1010 << 28, 4);
    w.write_msb(0b0011 << 28, 4);
    w.write_msb(0b1111 << 28, 4);
    let buf = w.finish();

    let mut r = BitReader::new(&buf);
    assert_eq!(r.peek_window() >> 28, 0b1010);
    r.consume_bits(4).unwrap();
    assert_eq!(r.peek_window() >> 28, 0b0011);
    r.consume_bits(4).unwrap();
    assert_eq!(r.peek_window() >> 28, 0b1111);
    r.consume_bits(4).unwrap();
}

fn direct_peek(data: &[u8], cursor_bits: u64) -> u32 {
    let read_word_le = |word_idx: usize| -> u32 {
        let base = word_idx * 4;
        let mut buf = [0u8; 4];
        for (i, slot) in buf.iter_mut().enumerate() {
            if let Some(&b) = data.get(base + i) {
                *slot = b;
            }
        }
        u32::from_le_bytes(buf)
    };
    let word_idx = (cursor_bits / 32) as usize;
    let bit_off = (cursor_bits % 32) as u32;
    let cur = read_word_le(word_idx);
    if bit_off == 0 {
        cur
    } else {
        let nxt = read_word_le(word_idx + 1);
        (cur << bit_off) | (nxt >> (32 - bit_off))
    }
}

#[test]
fn round310_refill_window_matches_pre_r310_uniform_step() {
    for &len in &[0usize, 1, 3, 4, 5, 7, 8, 9, 16, 17, 31, 64, 257] {
        let mut data = vec![0u8; len];
        let mut s: u32 = 0x1357_9bdf ^ (len as u32).wrapping_mul(2654435761);
        for b in data.iter_mut() {
            s ^= s << 13;
            s ^= s >> 17;
            s ^= s << 5;
            *b = (s >> 24) as u8;
        }
        for &step in &[1u32, 3, 7, 11, 13, 16, 17, 23, 31, 32] {
            let mut r = BitReader::new(&data);
            let mut cursor: u64 = 0;

            let total_bits = (len as u64) * 8 + 96;
            while cursor < total_bits {
                assert_eq!(
                    r.peek_window(),
                    direct_peek(&data, cursor),
                    "len={len} step={step} cursor={cursor}"
                );
                assert_eq!(r.cursor_bits(), cursor);
                r.consume_bits(step).unwrap();
                cursor += step as u64;
            }
        }
    }
}

#[test]
fn round310_refill_window_matches_pre_r310_variable_step() {
    let mut data = vec![0u8; 512];
    let mut s: u32 = 0x2468_ace0;
    for b in data.iter_mut() {
        s ^= s << 13;
        s ^= s >> 17;
        s ^= s << 5;
        *b = (s >> 24) as u8;
    }
    let mut r = BitReader::new(&data);
    let mut cursor: u64 = 0;
    let mut t: u32 = 0x9e37_79b9;
    for _ in 0..4000 {
        assert_eq!(r.peek_window(), direct_peek(&data, cursor));
        assert_eq!(r.cursor_bits(), cursor);
        t = t.wrapping_mul(1664525).wrapping_add(1013904223);
        let step = 1 + (t >> 27) % 32;
        r.consume_bits(step).unwrap();
        cursor += step as u64;
    }
}

#[test]
fn round310_consume_bits_rejects_out_of_range() {
    let data = [0xAAu8; 8];
    let mut r = BitReader::new(&data);
    assert!(r.consume_bits(0).is_err());
    assert!(r.consume_bits(33).is_err());

    assert_eq!(r.cursor_bits(), 0);
    assert_eq!(r.peek_window(), direct_peek(&data, 0));
}

#[test]
fn round310_bytes_consumed_rounds_up_to_word() {
    let data = [0u8; 32];
    let mut r = BitReader::new(&data);
    assert_eq!(r.bytes_consumed(), 0);
    r.consume_bits(1).unwrap();
    assert_eq!(r.bytes_consumed(), 4);
    r.consume_bits(31).unwrap();
    assert_eq!(r.bytes_consumed(), 4);
    r.consume_bits(1).unwrap();
    assert_eq!(r.bytes_consumed(), 8);
}

#[test]
fn round310_empty_stream_serves_zero_window() {
    let r = BitReader::new(&[]);
    assert_eq!(r.peek_window(), 0);
    assert_eq!(r.cursor_bits(), 0);
    assert_eq!(r.bytes_consumed(), 0);
}

#[test]
fn writer_long_codes_cross_word_boundary() {
    let mut w = BitWriter::new();

    let code1 = 0b1_0101_0101_0101_0101_u32 << (32 - 17);
    let code2 = 0b1_1001_1001_1001_1001_u32 << (32 - 17);
    w.write_msb(code1, 17);
    w.write_msb(code2, 17);
    let buf = w.finish();
    assert_eq!(buf.len() % 4, 0);
    let mut r = BitReader::new(&buf);
    assert_eq!(
        (r.peek_window() >> 15) & ((1u32 << 17) - 1),
        0b1_0101_0101_0101_0101
    );
    r.consume_bits(17).unwrap();
    assert_eq!(
        (r.peek_window() >> 15) & ((1u32 << 17) - 1),
        0b1_1001_1001_1001_1001
    );
}

#[test]
fn codes_are_read_back_in_order() {
    assert!(BitWriter::new().finish().is_empty());
    let mut s = 0x1234_5679u32;
    let codes: Vec<(u32, u32)> = (0..500)
        .map(|_| {
            s = s.wrapping_mul(1664525).wrapping_add(1013904223);
            let n = 1 + (s >> 24) % 32;
            s = s.wrapping_mul(1664525).wrapping_add(1013904223);
            ((s >> (32 - n)) << (32 - n), n)
        })
        .collect();
    let mut w = BitWriter::new();
    for &(code, n) in &codes {
        w.write_msb(code, n);
    }
    let out = w.finish();
    let total: u32 = codes.iter().map(|c| c.1).sum();
    assert_eq!(out.len() as u32, 4 * total.div_ceil(32));
    let mut r = BitReader::new(&out);
    for &(code, n) in &codes {
        assert_eq!(r.peek_window() >> (32 - n), code >> (32 - n));
        r.consume_bits(n).unwrap();
    }
    assert_eq!(r.cursor_bits(), u64::from(total));
    assert_eq!(r.peek_window(), 0);
}
