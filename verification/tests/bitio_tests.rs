use gcstool::bitio::{BitReader, BitWriter};

#[test]
fn write_then_read_single_bits() {
    let mut w = BitWriter::new(Vec::new());
    let pattern = [1u8, 0, 1, 1, 0, 0, 1, 0, 1, 1, 1];
    for &b in pattern.iter() {
        w.write_bit(b);
    }
    let pad = w.flush();
    assert_eq!(pad, 5);
    let bytes = w.into_inner();
    assert_eq!(bytes, vec![0b1011_0010, 0b1110_0000]);
    let mut r = BitReader::new(bytes);
    for &b in pattern.iter() {
        assert_eq!(r.read_bit().unwrap(), b);
    }
}

#[test]
fn write_then_read_fields() {
    let mut w = BitWriter::new(Vec::new());
    w.write_bits(3, 0b101);
    w.write_bits(11, 0b101_1100_0111);
    w.write_bits(0, 0);
    w.write_bits(10, 0b11_0000_0001);
    let pad = w.flush();
    assert_eq!(pad, 0);
    let mut r = BitReader::new(w.into_inner());
    assert_eq!(r.read_bits(3).unwrap(), 0b101);
    assert_eq!(r.read_bits(11).unwrap(), 0b101_1100_0111);
    assert_eq!(r.read_bits(0).unwrap(), 0);
    assert_eq!(r.read_bits(10).unwrap(), 0b11_0000_0001);
}

#[test]
fn full_width_round_trip() {
    let mut w = BitWriter::new(Vec::new());
    w.write_bits(64, u64::MAX);
    w.write_bits(64, 0x0123_4567_89ab_cdef);
    w.flush();
    let mut r = BitReader::new(w.into_inner());
    assert_eq!(r.read_bits(64).unwrap(), u64::MAX);
    assert_eq!(r.read_bits(64).unwrap(), 0x0123_4567_89ab_cdef);
}

#[test]
fn high_bits_are_masked_off() {
    let mut w = BitWriter::new(Vec::new());
    w.write_bits(4, 0xf5);
    w.flush();
    let bytes = w.into_inner();
    assert_eq!(bytes, vec![0b0101_0000]);
}

#[test]
fn read_past_end_fails_without_consuming() {
    let mut r = BitReader::new(vec![0xff]);
    assert_eq!(r.read_bits(6).unwrap(), 0b11_1111);
    assert!(r.read_bits(3).is_err());
    assert_eq!(r.read_bits(2).unwrap(), 0b11);
    assert!(r.read_bit().is_err());
}

#[test]
fn seek_to_bit_positions() {
    let mut r = BitReader::new(vec![0b0010_1001, 0b1101_1110]);
    assert_eq!(r.seek(10).unwrap(), 10);
    assert_eq!(r.read_bits(5).unwrap(), 0b01111);
    assert_eq!(r.seek(0).unwrap(), 0);
    assert_eq!(r.read_bits(8).unwrap(), 0b0010_1001);
    assert!(r.seek(17).is_err());
    assert_eq!(r.seek(16).unwrap(), 16);
}

#[test]
fn reset_discards_partial_byte() {
    let mut r = BitReader::new(vec![0xab, 0xcd]);
    assert_eq!(r.read_bits(3).unwrap(), 0b101);
    r.reset();
    assert_eq!(r.read_bits(8).unwrap(), 0xcd);
}

#[test]
fn writer_appends_to_existing_bytes() {
    let mut w = BitWriter::new(vec![0x12]);
    w.write_bits(8, 0x34);
    w.flush();
    assert_eq!(w.into_inner(), vec![0x12, 0x34]);
}

#[test]
fn interleaved_schedule_round_trip() {
    let widths = [1u8, 7, 13, 64, 3, 9, 30, 2, 17];
    let values = [1u64, 0x55, 0x1abc, 0xdead_beef_cafe_f00d, 5, 0x1ff, 0x2fff_ffff, 3, 0x1_0203];
    let mut w = BitWriter::new(Vec::new());
    for i in 0..widths.len() {
        w.write_bits(widths[i], values[i]);
    }
    w.flush();
    let mut r = BitReader::new(w.into_inner());
    for i in 0..widths.len() {
        assert_eq!(r.read_bits(widths[i]).unwrap(), values[i]);
    }
}
