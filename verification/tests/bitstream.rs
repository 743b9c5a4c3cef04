use huffman::bits::{BitReader, BitWriter};

#[test]
fn writer_packs_msb_first() {
    let mut w = BitWriter::new();
    w.write_bit(true);
    w.write_bit(false);
    w.write_bit(true);
    w.write_bit(true);
    w.flush();
    assert_eq!(w.into_bytes(), vec![0b1011_0000u8]);
}

#[test]
fn writer_crosses_byte_boundary() {
    let mut w = BitWriter::new();
    let bits = [
        true, true, false, false, true, false, true, false, // 0xCA
        true, true, true, true,
    ];
    w.write_bits(&bits);
    w.flush();
    assert_eq!(w.into_bytes(), vec![0xCAu8, 0xF0u8]);
}

#[test]
fn writer_empty_flush_is_empty() {
    let mut w = BitWriter::new();
    w.flush();
    assert_eq!(w.into_bytes(), Vec::<u8>::new());
}

#[test]
fn reader_reads_msb_first() {
    let bytes = [0xA5u8];
    let mut r = BitReader::new(&bytes);
    let expected = [true, false, true, false, false, true, false, true];
    for &e in expected.iter() {
        assert_eq!(r.read_bit(), Some(e));
    }
    assert_eq!(r.read_bit(), None);
    assert_eq!(r.read_bit(), None);
}

#[test]
fn reader_reads_back_what_writer_wrote() {
    let bits = [
        false, true, true, false, false, false, true, false, true, true, false,
    ];
    let mut w = BitWriter::new();
    w.write_bits(&bits);
    w.flush();
    let bytes = w.into_bytes();
    let mut r = BitReader::new(bytes.as_slice());
    for &b in bits.iter() {
        assert_eq!(r.read_bit(), Some(b));
    }
    // The padding bits the flush added are zero.
    for _ in bits.len()..16 {
        assert_eq!(r.read_bit(), Some(false));
    }
    assert_eq!(r.read_bit(), None);
}

#[test]
fn reader_bytes_consumed_rounds_up() {
    let bytes = [0xFFu8, 0x00u8];
    let mut r = BitReader::new(&bytes);
    assert_eq!(r.bytes_consumed(), 0);
    r.read_bit();
    assert_eq!(r.bytes_consumed(), 1);
    for _ in 0..7 {
        r.read_bit();
    }
    assert_eq!(r.bytes_consumed(), 1);
    r.read_bit();
    assert_eq!(r.bytes_consumed(), 2);
}
