//! Properties of length tables and Huffman tables on generated inputs.

use oxideav_huffyuv::tables::{
    compute_canonical_lengths, decode_one, rle_decode_one_channel, rle_decode_three_channels,
    rle_encode_one_channel, v1x_table_from_pair, HuffTable,
};

fn generated(seed: u32, n: usize) -> Vec<u8> {
    let mut s = seed | 1;
    (0..n)
        .map(|_| {
            s ^= s << 13;
            s ^= s >> 17;
            s ^= s << 5;
            s as u8
        })
        .collect()
}

fn build_lengths(src: &[u8]) -> [u8; 256] {
    let mut out = [0u8; 256];
    for (slot, &b) in out.iter_mut().zip(src) {
        *slot = b & 0x1F;
    }
    out
}

fn build_histogram(src: &[u8]) -> [u32; 256] {
    let mut out = [0u32; 256];
    for (i, chunk) in src.chunks(2).enumerate().take(256) {
        let lo = chunk.first().copied().unwrap_or(0) as u32;
        let hi = chunk.get(1).copied().unwrap_or(0) as u32;
        out[i] = (hi << 8) | lo;
    }
    out
}

fn assert_self_consistent_decode(table: &HuffTable) {
    for (sym, e) in table.entries.iter().enumerate() {
        if e.length == 0 {
            continue;
        }
        let (decoded_sym, decoded_len) =
            decode_one(table, e.code).expect("self-consistent decode must succeed");
        assert_eq!(decoded_sym as usize, sym);
        assert_eq!(decoded_len, e.length);
    }
}

#[test]
fn decoded_lengths_round_trip() {
    for seed in 0..200u32 {
        let data = generated(seed * 77 + 5, 300);
        let mut cursor: &[u8] = &data;
        if let Ok(table) = rle_decode_one_channel(&mut cursor) {
            let mut again = Vec::new();
            rle_encode_one_channel(&table, &mut again).expect("decoded lengths can be encoded");
            let mut cursor: &[u8] = &again;
            assert_eq!(rle_decode_one_channel(&mut cursor).unwrap(), table);
            assert!(cursor.is_empty());
        }
        let _ = rle_decode_three_channels(&data);
    }
}

#[test]
fn encoded_lengths_round_trip() {
    for n in [0usize, 1, 7, 100, 256] {
        for seed in 0..40u32 {
            let lengths = build_lengths(&generated(seed * 31 + 7, n));
            let mut out = Vec::new();
            rle_encode_one_channel(&lengths, &mut out).unwrap();
            let mut cursor: &[u8] = &out;
            assert_eq!(rle_decode_one_channel(&mut cursor).unwrap(), lengths);
        }
    }
}

#[test]
fn lengths_above_31_are_refused() {
    let mut lengths = [8u8; 256];
    lengths[17] = 32;
    let mut out = Vec::new();
    assert!(rle_encode_one_channel(&lengths, &mut out).is_err());
    assert!(HuffTable::build_from_lengths(&lengths).is_err());
}

#[test]
fn incomplete_lengths_are_refused() {
    assert!(HuffTable::build_from_lengths(&[0u8; 256]).is_err());
    assert!(HuffTable::build_from_lengths(&[1u8; 256]).is_err());
    let mut lengths = [8u8; 256];
    lengths[255] = 9;
    assert!(HuffTable::build_from_lengths(&lengths).is_err());
    assert!(HuffTable::build_from_lengths(&[8u8; 256]).is_ok());
}

#[test]
fn canonical_codewords_go_from_long_to_short() {
    let mut lengths = [0u8; 256];
    lengths[10] = 1;
    lengths[20] = 2;
    lengths[30] = 3;
    lengths[40] = 3;
    let table = HuffTable::build_from_lengths(&lengths).unwrap();
    assert_eq!(table.entries[30].code, 0x0000_0000);
    assert_eq!(table.entries[40].code, 0x2000_0000);
    assert_eq!(table.entries[20].code, 0x4000_0000);
    assert_eq!(table.entries[10].code, 0x8000_0000);
    assert_eq!(decode_one(&table, 0x3FFF_FFFF).unwrap(), (40, 3));
    assert_eq!(decode_one(&table, 0xFFFF_FFFF).unwrap(), (10, 1));
    assert_self_consistent_decode(&table);
}

#[test]
fn lengths_for_histograms_build_tables() {
    for seed in 0..60u32 {
        for n in [2usize, 9, 64, 511, 512] {
            let histogram = build_histogram(&generated(seed * 131 + 3, n));
            if let Ok(lengths) = compute_canonical_lengths(&histogram) {
                assert!(lengths.iter().all(|&l| l <= 31));
                let table = HuffTable::build_from_lengths(&lengths).unwrap();
                assert_self_consistent_decode(&table);
            } else {
                assert!(histogram.iter().all(|&c| c == 0));
            }
        }
    }
    assert!(compute_canonical_lengths(&[0u32; 256]).is_err());
}

#[test]
fn lengths_for_powers_of_two_are_exact() {
    let mut histogram = [0u32; 256];
    for (i, c) in [8u32, 4, 2, 1, 1].into_iter().enumerate() {
        histogram[i * 3] = c;
    }
    let lengths = compute_canonical_lengths(&histogram).unwrap();
    assert_eq!(lengths[0], 1);
    assert_eq!(lengths[3], 2);
    assert_eq!(lengths[6], 3);
    assert_eq!(lengths[9], 4);
    assert_eq!(lengths[12], 4);
    assert_eq!(lengths.iter().filter(|&&l| l > 0).count(), 5);
}

#[test]
fn lengths_of_growing_counts_stay_within_31() {
    let mut histogram = [0u32; 256];
    let (mut a, mut b) = (1u32, 1u32);
    for slot in histogram.iter_mut().take(45) {
        *slot = a;
        let next = a.saturating_add(b);
        a = b;
        b = next;
    }
    let lengths = compute_canonical_lengths(&histogram).unwrap();
    assert_eq!(lengths.iter().copied().max(), Some(31));
    assert_self_consistent_decode(&HuffTable::build_from_lengths(&lengths).unwrap());
}

#[test]
fn paired_tables_decode_their_own_codes() {
    for seed in 0..60u32 {
        let data = generated(seed * 17 + 11, 512);
        let lengths = build_lengths(&data[..256]);
        let mut codes = [0u8; 256];
        codes.copy_from_slice(&data[256..]);
        if let Ok(table) = v1x_table_from_pair(&lengths, &codes) {
            for e in table.entries.iter() {
                if e.length > 0 {
                    decode_one(&table, e.code).expect("an entry's own code decodes");
                }
            }
        }
    }
}
