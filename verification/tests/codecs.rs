use skypulsedb::compression::bits::{BitReader, BitWriter};
use skypulsedb::compression::delta::{
    decode_timestamps, encode_timestamps, read_leb_u64, write_leb_u64, zig_zag_decode,
    zig_zag_encode,
};
use skypulsedb::compression::gorilla::{decode, encode};
use skypulsedb::compression::{decode_floats, encode_floats};

fn bits_of(values: &[f64]) -> Vec<u64> {
    values.iter().map(|v| v.to_bits()).collect()
}

#[test]
fn roundtrip_regular() {
    let ts: Vec<i64> = (0..1000).map(|i| i * 60).collect();
    let enc = encode_timestamps(&ts);
    let dec = decode_timestamps(&enc);
    assert_eq!(ts, dec);
}

#[test]
fn roundtrip_irregular() {
    let ts: Vec<i64> = vec![1000, 1010, 1030, 1500, 1501, 1510, 3000];
    let enc = encode_timestamps(&ts);
    let dec = decode_timestamps(&enc);
    assert_eq!(ts, dec);
}

#[test]
fn single_and_empty() {
    let a: Vec<i64> = vec![];
    assert!(encode_timestamps(&a).is_empty());

    let b = vec![42i64];
    let enc = encode_timestamps(&b);
    let dec = decode_timestamps(&enc);
    assert_eq!(b, dec);
}

#[test]
fn roundtrip_empty() {
    let v: Vec<f64> = vec![];
    let enc = encode(&bits_of(&v));
    let dec = decode(&enc);
    assert!(dec.is_empty());
}

#[test]
fn zig_zag_maps_small_magnitudes_to_small_values() {
    assert_eq!(zig_zag_encode(0), 0);
    assert_eq!(zig_zag_encode(-1), 1);
    assert_eq!(zig_zag_encode(1), 2);
    assert_eq!(zig_zag_encode(-2), 3);
    assert_eq!(zig_zag_encode(2), 4);
    assert_eq!(zig_zag_encode(i64::MAX), u64::MAX - 1);
    assert_eq!(zig_zag_encode(i64::MIN), u64::MAX);
}

#[test]
fn zig_zag_decode_inverts_encode() {
    for n in [0i64, 1, -1, 2, -2, 63, -64, 1 << 40, -(1 << 40), i64::MAX, i64::MIN] {
        assert_eq!(zig_zag_decode(zig_zag_encode(n)), n);
    }
    assert_eq!(zig_zag_decode(0), 0);
    assert_eq!(zig_zag_decode(1), -1);
    assert_eq!(zig_zag_decode(2), 1);
    assert_eq!(zig_zag_decode(u64::MAX), i64::MIN);
}

#[test]
fn leb_writes_seven_bits_per_byte_low_group_first() {
    let mut out = Vec::new();
    write_leb_u64(0, &mut out);
    assert_eq!(out, vec![0x00]);
    out.clear();
    write_leb_u64(127, &mut out);
    assert_eq!(out, vec![0x7f]);
    out.clear();
    write_leb_u64(128, &mut out);
    assert_eq!(out, vec![0x80, 0x01]);
    out.clear();
    write_leb_u64(300, &mut out);
    assert_eq!(out, vec![0xac, 0x02]);
    out.clear();
    write_leb_u64(u64::MAX, &mut out);
    assert_eq!(out, vec![0xff, 0xff, 0xff, 0xff, 0xff, 0xff, 0xff, 0xff, 0xff, 0x01]);
}

#[test]
fn leb_appends_behind_what_is_there() {
    let mut out = vec![9u8, 9];
    write_leb_u64(300, &mut out);
    assert_eq!(out, vec![9, 9, 0xac, 0x02]);
}

#[test]
fn leb_read_gives_value_and_moves_cursor() {
    let data = [0xffu8, 0xac, 0x02, 0x05];
    let mut idx = 1usize;
    assert_eq!(read_leb_u64(&data, &mut idx), Some(300));
    assert_eq!(idx, 3);
    assert_eq!(read_leb_u64(&data, &mut idx), Some(5));
    assert_eq!(idx, 4);
    assert_eq!(read_leb_u64(&data, &mut idx), None);
    assert_eq!(idx, 4);
}

#[test]
fn leb_read_of_largest_value() {
    let mut out = Vec::new();
    write_leb_u64(u64::MAX, &mut out);
    let mut idx = 0usize;
    assert_eq!(read_leb_u64(&out, &mut idx), Some(u64::MAX));
    assert_eq!(idx, 10);
}

#[test]
fn leb_read_fails_when_cut_short() {
    let data = [0x80u8, 0x80];
    let mut idx = 0usize;
    assert_eq!(read_leb_u64(&data, &mut idx), None);
    assert_eq!(idx, 0);
}

#[test]
fn leb_read_fails_beyond_ten_bytes() {
    let data = [0x80u8, 0x80, 0x80, 0x80, 0x80, 0x80, 0x80, 0x80, 0x80, 0x80, 0x01];
    let mut idx = 0usize;
    assert_eq!(read_leb_u64(&data, &mut idx), None);
    assert_eq!(idx, 0);
}

#[test]
fn leb_read_behind_the_end() {
    let data = [0x01u8];
    let mut idx = 7usize;
    assert_eq!(read_leb_u64(&data, &mut idx), None);
    assert_eq!(idx, 7);
}

#[test]
fn timestamps_encode_to_exact_bytes() {
    // first value, then the step 10, then the change of step 20 - 10 = 10
    let enc = encode_timestamps(&[1000, 1010, 1030]);
    assert_eq!(enc, vec![0xe8, 0x03, 0, 0, 0, 0, 0, 0, 20, 20]);
    // a falling step: 5 -> 3 is -2, whose image is 3
    let enc = encode_timestamps(&[5, 3]);
    assert_eq!(enc, vec![5, 0, 0, 0, 0, 0, 0, 0, 3]);
    // a negative first value
    let enc = encode_timestamps(&[-1]);
    assert_eq!(enc, vec![0xff; 8]);
}

#[test]
fn timestamps_regular_interval_takes_one_byte_each() {
    let ts: Vec<i64> = (0..100).map(|i| 1_700_000_000 + i * 60).collect();
    let enc = encode_timestamps(&ts);
    assert_eq!(enc.len(), 8 + 99);
    assert!(enc[9..].iter().all(|b| *b == 0));
}

#[test]
fn timestamps_decode_of_empty_and_short_input() {
    assert!(decode_timestamps(&[]).is_empty());
    assert!(decode_timestamps(&[1, 2, 3, 4, 5, 6, 7]).is_empty());
}

#[test]
fn timestamps_decode_of_eight_bytes_is_one_value() {
    assert_eq!(decode_timestamps(&[42, 0, 0, 0, 0, 0, 0, 0]), vec![42]);
}

#[test]
fn timestamps_decode_stops_at_malformed_integer() {
    let mut enc = encode_timestamps(&[1000, 1010, 1030, 1500]);
    // an integer that is cut short
    enc.push(0x80);
    assert_eq!(decode_timestamps(&enc), vec![1000, 1010, 1030, 1500]);
    // what follows a malformed integer is not read
    let mut enc = encode_timestamps(&[1000, 1010]);
    enc.extend_from_slice(&[0x80; 10]);
    enc.push(0x01);
    enc.push(0x02);
    assert_eq!(decode_timestamps(&enc), vec![1000, 1010]);
}

#[test]
fn timestamps_decode_of_truncated_encoding_is_a_prefix() {
    let ts: Vec<i64> = vec![1000, 1010, 1030, 1500, 1501, 1510, 3000];
    let enc = encode_timestamps(&ts);
    for cut in 8..enc.len() {
        let dec = decode_timestamps(&enc[..cut]);
        assert!(dec.len() <= ts.len());
        assert_eq!(dec[..], ts[..dec.len()]);
    }
}

#[test]
fn timestamps_roundtrip_at_the_limits() {
    let ts = vec![i64::MIN, i64::MAX, 0, -1, i64::MAX, i64::MIN, i64::MIN];
    assert_eq!(decode_timestamps(&encode_timestamps(&ts)), ts);
    let ts = vec![0, i64::MIN];
    assert_eq!(decode_timestamps(&encode_timestamps(&ts)), ts);
}

#[test]
fn timestamps_roundtrip_two_values() {
    let ts = vec![7i64, 7];
    let enc = encode_timestamps(&ts);
    assert_eq!(enc.len(), 9);
    assert_eq!(decode_timestamps(&enc), ts);
}

#[test]
fn bit_writer_packs_most_significant_bit_first() {
    let mut w = BitWriter::new();
    w.push_bit(1);
    w.push_bit(0);
    w.push_bit(7);
    assert_eq!(w.finish(), vec![0b1010_0000]);

    let mut w = BitWriter::new();
    w.write_bits(0b101, 3);
    w.write_bits(0xff, 8);
    assert_eq!(w.finish(), vec![0b1011_1111, 0b1110_0000]);

    let w = BitWriter::new();
    assert!(w.finish().is_empty());
}

#[test]
fn bit_writer_full_bytes_get_no_padding() {
    let mut w = BitWriter::new();
    w.write_bits(0x0123_4567_89ab_cdef, 64);
    assert_eq!(w.finish(), vec![0x01, 0x23, 0x45, 0x67, 0x89, 0xab, 0xcd, 0xef]);
}

#[test]
fn bit_writer_takes_the_low_bits_only() {
    let mut w = BitWriter::new();
    w.write_bits(0xfff5, 4);
    w.write_bits(0, 0);
    assert_eq!(w.finish(), vec![0b0101_0000]);
}

#[test]
fn bit_reader_reads_what_the_writer_wrote() {
    let data = [0b1011_1111u8, 0b1110_0000];
    let mut r = BitReader::new(&data);
    assert_eq!(r.remaining_bits(), 16);
    assert_eq!(r.read_bits(3), Some(0b101));
    assert_eq!(r.read_bit(), Some(1));
    assert_eq!(r.remaining_bits(), 12);
    assert_eq!(r.read_bits(7), Some(0b111_1111));
    assert_eq!(r.read_bit(), Some(0));
    assert_eq!(r.read_bits(5), None);
    assert_eq!(r.remaining_bits(), 4);
    assert_eq!(r.read_bits(4), Some(0));
    assert_eq!(r.read_bit(), None);
    assert_eq!(r.read_bits(0), Some(0));
}

#[test]
fn bit_reader_reads_a_whole_word() {
    let data = [0x01u8, 0x23, 0x45, 0x67, 0x89, 0xab, 0xcd, 0xef, 0xff];
    let mut r = BitReader::new(&data);
    assert_eq!(r.read_bits(64), Some(0x0123_4567_89ab_cdef));
    assert_eq!(r.remaining_bits(), 8);
}

#[test]
fn values_single_value_is_stored_whole() {
    let enc = encode(&[1.0f64.to_bits()]);
    assert_eq!(enc, vec![0x3f, 0xf0, 0, 0, 0, 0, 0, 0]);
    assert_eq!(decode(&enc), vec![1.0f64.to_bits()]);
}

#[test]
fn values_block_has_flag_leading_zeros_length_and_bits() {
    // 1.0 behind 0.0: the difference 0x3ff0_0000_0000_0000 has 2 leading
    // zeros and 10 significant bits, all ones
    let enc = encode(&bits_of(&[0.0, 1.0]));
    assert_eq!(enc.len(), 11);
    assert_eq!(&enc[..8], &[0u8; 8]);
    // 1 000010 001001 1111111111 0
    assert_eq!(&enc[8..], &[0b1000_0100, 0b0100_1111, 0b1111_1110]);
}

#[test]
fn values_repeats_take_one_bit_each() {
    let vals = [0.0f64, 0.0, 1.0, -5.5, -5.5];
    let enc = encode(&bits_of(&vals));
    // 64 + 1 + (13 + 10) + (13 + 15) + 1 = 117 bits
    assert_eq!(enc.len(), 15);
    let without_repeats = encode(&bits_of(&[0.0, 1.0, -5.5]));
    // 115 bits
    assert_eq!(without_repeats.len(), 15);
    let eight_repeats = encode(&bits_of(&[2.5; 9]));
    assert_eq!(eight_repeats.len(), 9);
    assert_eq!(eight_repeats[8], 0);
}

#[test]
fn values_come_back_bit_identical() {
    let vals = [0.0f64, 0.0, 1.0, -5.5, -5.5];
    let enc = encode(&bits_of(&vals));
    let dec = decode(&enc);
    assert!(dec.len() >= vals.len());
    for (a, b) in vals.iter().zip(dec.iter()) {
        assert_eq!(a.to_bits(), *b);
    }
    // the last byte holds three bits of padding, which read as repeats
    assert_eq!(dec.len(), vals.len() + 3);
    assert!(dec[vals.len()..].iter().all(|b| *b == (-5.5f64).to_bits()));
}

#[test]
fn values_of_mixed_readings_come_back_bit_identical() {
    let vals = vec![0.0f64, 0.0, 1.0, 1.0000001, -5.5, -5.5, 12345.6789];
    let enc = encode(&bits_of(&vals));
    let dec = decode(&enc);
    assert!(dec.len() >= vals.len());
    for (a, b) in vals.iter().zip(dec.iter()) {
        assert_eq!(a.to_bits(), *b);
    }
    // 285 bits, so three bits of padding
    assert_eq!(enc.len(), 36);
    assert_eq!(dec.len(), vals.len() + 3);
}

#[test]
fn values_roundtrip_exactly_without_padding() {
    let vals = vec![2.5f64.to_bits(); 9];
    assert_eq!(decode(&encode(&vals)), vals);
    let vals = vec![7.25f64.to_bits()];
    assert_eq!(decode(&encode(&vals)), vals);
}

#[test]
fn values_sign_zero_and_nan_survive() {
    let vals = vec![
        0.0f64.to_bits(),
        (-0.0f64).to_bits(),
        f64::NAN.to_bits(),
        0x7ff8_0000_0000_0001,
        f64::INFINITY.to_bits(),
        f64::NEG_INFINITY.to_bits(),
        f64::MIN_POSITIVE.to_bits(),
        u64::MAX,
        0,
        1,
    ];
    let dec = decode(&encode(&vals));
    assert_eq!(&dec[..vals.len()], &vals[..]);
    assert!(f64::from_bits(dec[2]).is_nan());
}

#[test]
fn values_decode_of_short_input_is_empty() {
    assert!(decode(&[]).is_empty());
    assert!(decode(&[1, 2, 3, 4, 5, 6, 7]).is_empty());
}

#[test]
fn values_decode_stops_where_the_stream_ends_inside_a_block() {
    let vals = bits_of(&[0.0, 1.0, -5.5]);
    let enc = encode(&vals);
    // the block of 1.0 needs 23 bits, so two more bytes hold it only in part
    assert_eq!(decode(&enc[..8]), vals[..1].to_vec());
    assert_eq!(decode(&enc[..9]), vals[..1].to_vec());
    assert_eq!(decode(&enc[..10]), vals[..1].to_vec());
    assert_eq!(decode(&enc[..11])[..2], vals[..2]);
}

#[test]
fn values_decode_stops_at_a_block_that_does_not_fit() {
    // flag 1, 63 leading zeros, length 64: not a block of 64 bits
    let mut w = BitWriter::new();
    w.write_bits(9, 64);
    w.push_bit(1);
    w.write_bits(63, 6);
    w.write_bits(63, 6);
    w.write_bits(u64::MAX, 64);
    w.push_bit(0);
    let data = w.finish();
    assert_eq!(decode(&data), vec![9]);
}

#[test]
fn float_codec_is_reachable_by_its_short_names() {
    let vals = vec![3.5f64.to_bits()];
    assert_eq!(decode_floats(&encode_floats(&vals)), vals);
}
