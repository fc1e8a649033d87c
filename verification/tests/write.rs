use bitstream::BigEndian;
use bitstream::BitCounter;
use bitstream::BitError;
use bitstream::BitQueue;
use bitstream::BitRecorder;
use bitstream::BitWrite;
use bitstream::BitWriter;
use bitstream::LittleEndian;
use bitstream::BE;
use bitstream::LE;

#[test]
fn test_write_queue_be() {
    let mut q: BitQueue<BE> = BitQueue::new(8);
    let mut v = BitQueue::<BE>::from_value(8, 0b10, 2);
    q.push(2, v.pop(2));
    let mut v = BitQueue::<BE>::from_value(8, 0b110, 3);
    q.push(3, v.pop(3));
    let mut v = BitQueue::<BE>::from_value(8, 0b001_11, 5);
    q.push(3, v.pop(3));
    assert_eq!(q.len(), 8);
    assert_eq!(q.pop(8), 0b10_110_001);
    q.push(2, v.pop(2));
    let mut v = BitQueue::<BE>::from_value(8, 0b101, 3);
    q.push(3, v.pop(3));
    let mut v = BitQueue::<BE>::from_value(32, 0b101_00111011_11000001, 19);
    q.push(3, v.pop(3));
    assert_eq!(q.len(), 8);
    assert_eq!(q.pop(8), 0b11_101_101);
    q.push(8, v.pop(8));
    assert_eq!(q.len(), 8);
    assert_eq!(q.pop(8), 0b00111011);
    q.push(8, v.pop(8));
    assert_eq!(q.len(), 8);
    assert_eq!(q.pop(8), 0b11000001);
    assert!(v.is_empty());
    assert!(q.is_empty());
}

#[test]
fn test_write_queue_edge_be() {
    for bits in 0..=8u32 {
        let value = if bits == 0 { 0 } else { (1u64 << bits) - 1 };
        let mut q: BitQueue<BE> = BitQueue::from_value(8, value, bits);
        q.push(8 - bits, if bits == 8 { 0 } else { (1u64 << (8 - bits)) - 1 });
        assert_eq!(q.pop(8), 0b11111111);
    }
}

#[test]
fn test_write_queue_le() {
    let mut q: BitQueue<LE> = BitQueue::new(8);
    let mut v = BitQueue::<LE>::from_value(8, 0b01, 2);
    q.push(2, v.pop(2));
    let mut v = BitQueue::<LE>::from_value(8, 0b100, 3);
    q.push(3, v.pop(3));
    let mut v = BitQueue::<LE>::from_value(8, 0b01_101, 5);
    q.push(3, v.pop(3));
    assert_eq!(q.len(), 8);
    assert_eq!(q.pop(8), 0b101_100_01);
    q.push(2, v.pop(2));
    let mut v = BitQueue::<LE>::from_value(8, 0b011, 3);
    q.push(3, v.pop(3));
    let mut v = BitQueue::<LE>::from_value(32, 0b11000001_00111011_111, 19);
    q.push(3, v.pop(3));
    assert_eq!(q.len(), 8);
    assert_eq!(q.pop(8), 0b111_011_01);
    q.push(8, v.pop(8));
    assert_eq!(q.len(), 8);
    assert_eq!(q.pop(8), 0b00111011);
    q.push(8, v.pop(8));
    assert_eq!(q.len(), 8);
    assert_eq!(q.pop(8), 0b11000001);
    assert!(v.is_empty());
    assert!(q.is_empty());
}

#[test]
fn test_write_queue_edge_le() {
    for bits in 0..=8u32 {
        let value = if bits == 0 { 0 } else { (1u64 << bits) - 1 };
        let mut q: BitQueue<LE> = BitQueue::from_value(8, value, bits);
        q.push(8 - bits, if bits == 8 { 0 } else { (1u64 << (8 - bits)) - 1 });
        assert_eq!(q.pop(8), 0b11111111);
    }
}

#[test]
fn test_writer_be() {
    let final_data: [u8; 4] = [0xB1, 0xED, 0x3B, 0xC1];

    // writing individual bits
    let mut w = BitWriter::endian(Vec::new(), BigEndian);
    for bit in [
        true, false, true, true, false, false, false, true, true, true, true, false, true, true,
        false, true,
    ] {
        w.write_bit(bit).unwrap();
    }
    assert_eq!(w.into_writer().as_slice(), &final_data[0..2]);

    // writing unsigned values
    let mut w = BitWriter::endian(Vec::new(), BigEndian);
    assert!(w.byte_aligned());
    w.write(2, 2u32).unwrap();
    assert!(!w.byte_aligned());
    w.write(3, 6u32).unwrap();
    assert!(!w.byte_aligned());
    w.write(5, 7u32).unwrap();
    assert!(!w.byte_aligned());
    w.write(3, 5u32).unwrap();
    assert!(!w.byte_aligned());
    w.write(19, 0x53BC1u32).unwrap();
    assert!(w.byte_aligned());
    assert_eq!(w.into_writer().as_slice(), &final_data);

    // writing signed values
    let mut w = BitWriter::endian(Vec::new(), BigEndian);
    w.write_signed(2, -2).unwrap();
    w.write_signed(3, -2).unwrap();
    w.write_signed(5, 7).unwrap();
    w.write_signed(3, -3).unwrap();
    w.write_signed(19, -181311).unwrap();
    assert_eq!(w.into_writer().as_slice(), &final_data);

    // writing unary 0 values
    let mut w = BitWriter::endian(Vec::new(), BigEndian);
    for v in [1u32, 2, 0, 0, 4, 2, 1, 0, 3, 4, 0, 0, 0, 0] {
        w.write_unary0(v).unwrap();
    }
    w.write(1, 1u32).unwrap();
    assert_eq!(w.into_writer().as_slice(), &final_data);

    // writing unary 1 values
    let mut w = BitWriter::endian(Vec::new(), BigEndian);
    for v in [0u32, 1, 0, 3, 0, 0, 0, 1, 0, 1, 2, 0, 0, 1, 0, 0, 0, 5] {
        w.write_unary1(v).unwrap();
    }
    assert_eq!(w.into_writer().as_slice(), &final_data);

    // byte aligning
    let aligned_data = [0xA0, 0xE0, 0x3B, 0xC0];
    let mut w = BitWriter::endian(Vec::new(), BigEndian);
    w.write(3, 5u32).unwrap();
    w.byte_align().unwrap();
    w.write(3, 7u32).unwrap();
    w.byte_align().unwrap();
    w.byte_align().unwrap();
    w.write(8, 59u32).unwrap();
    w.byte_align().unwrap();
    w.write(4, 12u32).unwrap();
    w.byte_align().unwrap();
    assert_eq!(w.into_writer().as_slice(), &aligned_data);

    // writing bytes, aligned
    let mut w = BitWriter::endian(Vec::new(), BigEndian);
    w.write_bytes(b"\xB1\xED").unwrap();
    assert_eq!(w.into_writer().as_slice(), &[0xB1, 0xED]);

    // writing bytes, un-aligned
    let mut w = BitWriter::endian(Vec::new(), BigEndian);
    w.write(4, 11u32).unwrap();
    w.write_bytes(b"\xB1\xED").unwrap();
    w.byte_align().unwrap();
    assert_eq!(w.into_writer().as_slice(), &[0xBB, 0x1E, 0xD0]);
}

#[test]
fn test_writer_le() {
    let final_data: [u8; 4] = [0xB1, 0xED, 0x3B, 0xC1];

    // writing individual bits
    let mut w = BitWriter::endian(Vec::new(), LittleEndian);
    for bit in [
        true, false, false, false, true, true, false, true, true, false, true, true, false, true,
        true, true,
    ] {
        w.write_bit(bit).unwrap();
    }
    assert_eq!(w.into_writer().as_slice(), &final_data[0..2]);

    // writing unsigned values
    let mut w = BitWriter::endian(Vec::new(), LittleEndian);
    assert!(w.byte_aligned());
    w.write(2, 1u32).unwrap();
    assert!(!w.byte_aligned());
    w.write(3, 4u32).unwrap();
    assert!(!w.byte_aligned());
    w.write(5, 13u32).unwrap();
    assert!(!w.byte_aligned());
    w.write(3, 3u32).unwrap();
    assert!(!w.byte_aligned());
    w.write(19, 0x609DFu32).unwrap();
    assert!(w.byte_aligned());
    assert_eq!(w.into_writer().as_slice(), &final_data);

    // writing signed values
    let mut w = BitWriter::endian(Vec::new(), LittleEndian);
    w.write_signed(2, 1).unwrap();
    w.write_signed(3, -4).unwrap();
    w.write_signed(5, 13).unwrap();
    w.write_signed(3, 3).unwrap();
    w.write_signed(19, -128545).unwrap();
    assert_eq!(w.into_writer().as_slice(), &final_data);
}

#[test]
fn test_writer_bits_errors() {
    let mut w = BitWriter::endian(Vec::new(), BigEndian);
    assert_eq!(w.write(9, 0u8).unwrap_err(), BitError::TooManyBits);
    assert_eq!(w.write(17, 0u16).unwrap_err(), BitError::TooManyBits);
    assert_eq!(w.write(33, 0u32).unwrap_err(), BitError::TooManyBits);
    assert_eq!(w.write(65, 0u64).unwrap_err(), BitError::TooManyBits);
    assert_eq!(w.write(1, 2u32).unwrap_err(), BitError::ValueOutOfRange);
    assert_eq!(w.write(2, 4u32).unwrap_err(), BitError::ValueOutOfRange);
    assert_eq!(w.write(3, 8u32).unwrap_err(), BitError::ValueOutOfRange);
    assert_eq!(w.write(4, 16u32).unwrap_err(), BitError::ValueOutOfRange);
    assert_eq!(w.write_signed(9, 0i8).unwrap_err(), BitError::TooManyBits);
    assert_eq!(w.write_signed(17, 0i16).unwrap_err(), BitError::TooManyBits);
    assert_eq!(w.write_signed(33, 0i32).unwrap_err(), BitError::TooManyBits);
    assert_eq!(w.write_signed(65, 0i64).unwrap_err(), BitError::TooManyBits);
    assert_eq!(w.write_signed(2, 2i32).unwrap_err(), BitError::ValueOutOfRange);
    assert_eq!(w.write_signed(2, -3i32).unwrap_err(), BitError::ValueOutOfRange);
    // a failed write changes nothing
    assert_eq!(w.into_writer().as_slice(), &[] as &[u8]);

    let mut w = BitWriter::endian(Vec::new(), LittleEndian);
    assert_eq!(w.write(9, 0u8).unwrap_err(), BitError::TooManyBits);
    assert_eq!(w.write(1, 2u32).unwrap_err(), BitError::ValueOutOfRange);
    assert_eq!(w.write_signed(2, 2i32).unwrap_err(), BitError::ValueOutOfRange);
    assert_eq!(w.into_writer().as_slice(), &[] as &[u8]);
}

#[test]
fn test_writer_edge_cases_be() {
    let final_data: Vec<u8> = vec![
        0, 0, 0, 0, 255, 255, 255, 255, 128, 0, 0, 0, 127, 255, 255, 255, 0, 0, 0, 0, 0, 0, 0, 0,
        255, 255, 255, 255, 255, 255, 255, 255, 128, 0, 0, 0, 0, 0, 0, 0, 127, 255, 255, 255, 255,
        255, 255, 255,
    ];

    // unsigned 32 and 64-bit values
    let mut w = BitWriter::endian(Vec::new(), BigEndian);
    w.write(32, 0u32).unwrap();
    w.write(32, 4294967295u32).unwrap();
    w.write(32, 2147483648u32).unwrap();
    w.write(32, 2147483647u32).unwrap();
    w.write(64, 0u64).unwrap();
    w.write(64, 0xFFFFFFFFFFFFFFFFu64).unwrap();
    w.write(64, 9223372036854775808u64).unwrap();
    w.write(64, 9223372036854775807u64).unwrap();
    assert_eq!(w.into_writer(), final_data);

    // signed 32 and 64-bit values through the unsigned path: a negative
    // value wraps into the field as two's complement
    let mut w = BitWriter::endian(Vec::new(), BigEndian);
    w.write(32, 0i64).unwrap();
    w.write(32, -1i64).unwrap();
    w.write(32, -2147483648i64).unwrap();
    w.write(32, 2147483647i64).unwrap();
    w.write(64, 0i64).unwrap();
    w.write(64, -1i64).unwrap();
    w.write(64, -9223372036854775808i64).unwrap();
    w.write(64, 9223372036854775807i64).unwrap();
    assert_eq!(w.into_writer(), final_data);

    // full-width signed writes transfer the natural byte representation
    let mut w = BitWriter::endian(Vec::new(), BigEndian);
    w.write_signed(8, i8::MAX).unwrap();
    assert_eq!(w.into_writer(), i8::MAX.to_be_bytes().to_vec());

    let mut w = BitWriter::endian(Vec::new(), BigEndian);
    w.write_signed(8, i8::MIN).unwrap();
    assert_eq!(w.into_writer(), i8::MIN.to_be_bytes().to_vec());

    let mut w = BitWriter::endian(Vec::new(), BigEndian);
    w.write_signed(16, i16::MAX).unwrap();
    assert_eq!(w.into_writer(), i16::MAX.to_be_bytes().to_vec());

    let mut w = BitWriter::endian(Vec::new(), BigEndian);
    w.write_signed(16, i16::MIN).unwrap();
    assert_eq!(w.into_writer(), i16::MIN.to_be_bytes().to_vec());

    let mut w = BitWriter::endian(Vec::new(), BigEndian);
    w.write_signed(32, i32::MAX).unwrap();
    assert_eq!(w.into_writer(), i32::MAX.to_be_bytes().to_vec());

    let mut w = BitWriter::endian(Vec::new(), BigEndian);
    w.write_signed(32, i32::MIN).unwrap();
    assert_eq!(w.into_writer(), i32::MIN.to_be_bytes().to_vec());

    let mut w = BitWriter::endian(Vec::new(), BigEndian);
    w.write_signed(64, i64::MAX).unwrap();
    assert_eq!(w.into_writer(), i64::MAX.to_be_bytes().to_vec());

    let mut w = BitWriter::endian(Vec::new(), BigEndian);
    w.write_signed(64, i64::MIN).unwrap();
    assert_eq!(w.into_writer(), i64::MIN.to_be_bytes().to_vec());
}

#[test]
fn test_writer_edge_cases_le() {
    let final_data: Vec<u8> = vec![
        0, 0, 0, 0, 255, 255, 255, 255, 0, 0, 0, 128, 255, 255, 255, 127, 0, 0, 0, 0, 0, 0, 0, 0,
        255, 255, 255, 255, 255, 255, 255, 255, 0, 0, 0, 0, 0, 0, 0, 128, 255, 255, 255, 255, 255,
        255, 255, 127,
    ];

    // unsigned 32 and 64-bit values
    let mut w = BitWriter::endian(Vec::new(), LittleEndian);
    w.write(32, 0u32).unwrap();
    w.write(32, 4294967295u32).unwrap();
    w.write(32, 2147483648u32).unwrap();
    w.write(32, 2147483647u32).unwrap();
    w.write(64, 0u64).unwrap();
    w.write(64, 0xFFFFFFFFFFFFFFFFu64).unwrap();
    w.write(64, 9223372036854775808u64).unwrap();
    w.write(64, 9223372036854775807u64).unwrap();
    assert_eq!(w.into_writer(), final_data);

    // signed 32 and 64-bit values through the unsigned path: a negative
    // value wraps into the field as two's complement
    let mut w = BitWriter::endian(Vec::new(), LittleEndian);
    w.write(32, 0i64).unwrap();
    w.write(32, -1i64).unwrap();
    w.write(32, -2147483648i64).unwrap();
    w.write(32, 2147483647i64).unwrap();
    w.write(64, 0i64).unwrap();
    w.write(64, -1i64).unwrap();
    w.write(64, -9223372036854775808i64).unwrap();
    w.write(64, 9223372036854775807i64).unwrap();
    assert_eq!(w.into_writer(), final_data);

    // full-width signed writes transfer the natural byte representation
    let mut w = BitWriter::endian(Vec::new(), LittleEndian);
    w.write_signed(8, i8::MAX).unwrap();
    assert_eq!(w.into_writer(), i8::MAX.to_le_bytes().to_vec());

    let mut w = BitWriter::endian(Vec::new(), LittleEndian);
    w.write_signed(8, i8::MIN).unwrap();
    assert_eq!(w.into_writer(), i8::MIN.to_le_bytes().to_vec());

    let mut w = BitWriter::endian(Vec::new(), LittleEndian);
    w.write_signed(16, i16::MAX).unwrap();
    assert_eq!(w.into_writer(), i16::MAX.to_le_bytes().to_vec());

    let mut w = BitWriter::endian(Vec::new(), LittleEndian);
    w.write_signed(16, i16::MIN).unwrap();
    assert_eq!(w.into_writer(), i16::MIN.to_le_bytes().to_vec());

    let mut w = BitWriter::endian(Vec::new(), LittleEndian);
    w.write_signed(32, i32::MAX).unwrap();
    assert_eq!(w.into_writer(), i32::MAX.to_le_bytes().to_vec());

    let mut w = BitWriter::endian(Vec::new(), LittleEndian);
    w.write_signed(32, i32::MIN).unwrap();
    assert_eq!(w.into_writer(), i32::MIN.to_le_bytes().to_vec());

    let mut w = BitWriter::endian(Vec::new(), LittleEndian);
    w.write_signed(64, i64::MAX).unwrap();
    assert_eq!(w.into_writer(), i64::MAX.to_le_bytes().to_vec());

    let mut w = BitWriter::endian(Vec::new(), LittleEndian);
    w.write_signed(64, i64::MIN).unwrap();
    assert_eq!(w.into_writer(), i64::MIN.to_le_bytes().to_vec());
}

#[test]
fn test_write_signed_types_truncate() {
    // a negative value of a signed type, written through the unsigned
    // path, keeps exactly the low bits of its two's-complement pattern
    let mut w = BitWriter::endian(Vec::new(), BigEndian);
    w.write(4, -1i8).unwrap();
    w.write(4, -100i8).unwrap();
    assert_eq!(w.into_writer(), vec![0b1111_1100]);

    let mut w = BitWriter::endian(Vec::new(), LittleEndian);
    w.write(4, -1i8).unwrap();
    w.write(4, -100i8).unwrap();
    assert_eq!(w.into_writer(), vec![0b1100_1111]);

    // the counter and recorder accept the same calls
    let mut c: BitCounter<BE> = BitCounter::new();
    c.write(4, -1i8).unwrap();
    c.write(32, -1i64).unwrap();
    assert_eq!(c.written(), 36);

    let mut rec: BitRecorder<BE> = BitRecorder::new();
    rec.write(4, -1i8).unwrap();
    rec.write(4, -100i8).unwrap();
    let mut w = BitWriter::endian(Vec::new(), BigEndian);
    rec.playback(&mut w).unwrap();
    assert_eq!(w.into_writer(), vec![0b1111_1100]);

    // a non-negative value must still fit the field
    let mut w = BitWriter::endian(Vec::new(), BigEndian);
    assert_eq!(w.write(4, 16i8).unwrap_err(), BitError::ValueOutOfRange);
    assert!(w.write(4, 15i8).is_ok());
}

#[test]
fn test_counter_be() {
    let mut c: BitCounter<BE> = BitCounter::new();
    assert!(c.byte_aligned());
    c.write(2, 2u32).unwrap();
    c.write(3, 6u32).unwrap();
    c.write(5, 7u32).unwrap();
    c.write(3, 5u32).unwrap();
    c.write(19, 0x53BC1u32).unwrap();
    assert_eq!(c.written(), 32);
    assert!(c.byte_aligned());

    let mut c: BitCounter<BE> = BitCounter::new();
    c.write_signed(2, -2).unwrap();
    c.write_signed(3, -2).unwrap();
    c.write_signed(5, 7).unwrap();
    c.write_signed(3, -3).unwrap();
    c.write_signed(19, -181311).unwrap();
    assert_eq!(c.written(), 32);

    let mut c: BitCounter<BE> = BitCounter::new();
    c.write_unary0(1).unwrap();
    c.write_unary0(2).unwrap();
    c.write_unary0(0).unwrap();
    assert_eq!(c.written(), 6);
    c.byte_align().unwrap();
    assert_eq!(c.written(), 8);
    c.write_bytes(b"\xB1\xED").unwrap();
    assert_eq!(c.written(), 24);

    // the same validations apply as on a live writer
    let mut c: BitCounter<BE> = BitCounter::new();
    assert_eq!(c.write(9, 0u8).unwrap_err(), BitError::TooManyBits);
    assert_eq!(c.write(1, 2u32).unwrap_err(), BitError::ValueOutOfRange);
    assert_eq!(c.written(), 0);
}

#[test]
fn test_counter_le() {
    let mut c: BitCounter<LE> = BitCounter::new();
    c.write(2, 1u32).unwrap();
    c.write(3, 4u32).unwrap();
    c.write(5, 13u32).unwrap();
    c.write(3, 3u32).unwrap();
    c.write(19, 0x609DFu32).unwrap();
    assert_eq!(c.written(), 32);
}

#[test]
fn test_recorder_be() {
    let final_data: [u8; 4] = [0xB1, 0xED, 0x3B, 0xC1];

    let mut rec: BitRecorder<BE> = BitRecorder::new();
    rec.write(2, 2u32).unwrap();
    rec.write(3, 6u32).unwrap();
    rec.write(5, 7u32).unwrap();
    rec.write(3, 5u32).unwrap();
    rec.write(19, 0x53BC1u32).unwrap();
    assert_eq!(rec.written(), 32);

    let mut w = BitWriter::endian(Vec::new(), BigEndian);
    rec.playback(&mut w).unwrap();
    assert_eq!(w.into_writer().as_slice(), &final_data);

    // playback advances a counter by exactly what the recorder reports
    let mut c: BitCounter<BE> = BitCounter::new();
    rec.playback(&mut c).unwrap();
    assert_eq!(c.written(), rec.written());
}

#[test]
fn test_recorder_le() {
    let final_data: [u8; 4] = [0xB1, 0xED, 0x3B, 0xC1];

    let mut rec: BitRecorder<LE> = BitRecorder::new();
    rec.write(2, 1u32).unwrap();
    rec.write(3, 4u32).unwrap();
    rec.write(5, 13u32).unwrap();
    rec.write(3, 3u32).unwrap();
    rec.write(19, 0x609DFu32).unwrap();
    assert_eq!(rec.written(), 32);

    let mut w = BitWriter::endian(Vec::new(), LittleEndian);
    rec.playback(&mut w).unwrap();
    assert_eq!(w.into_writer().as_slice(), &final_data);
}

#[test]
fn test_recorder_mixed_records() {
    let mut rec: BitRecorder<BE> = BitRecorder::new();
    rec.write_bit(true).unwrap();
    rec.write_signed(4, -5i8).unwrap();
    rec.write_unary0(2).unwrap();
    rec.write_unary1(1).unwrap();
    rec.write_bytes(b"\x0F").unwrap();
    rec.byte_align().unwrap();
    assert_eq!(rec.written() % 8, 0);

    let mut w = BitWriter::endian(Vec::new(), BigEndian);
    rec.playback(&mut w).unwrap();
    let direct = {
        let mut w = BitWriter::endian(Vec::new(), BigEndian);
        w.write_bit(true).unwrap();
        w.write_signed(4, -5i8).unwrap();
        w.write_unary0(2).unwrap();
        w.write_unary1(1).unwrap();
        w.write_bytes(b"\x0F").unwrap();
        w.byte_align().unwrap();
        w.into_writer()
    };
    assert_eq!(w.into_writer(), direct);
}

#[test]
fn test_into_unwritten() {
    let mut w = BitWriter::endian(Vec::new(), BigEndian);
    w.write(15, 0b1010_0101_0101_101u32).unwrap();
    let (bits, value) = w.into_unwritten();
    assert_eq!(bits, 7);
    assert_eq!(value, 0b0101_101);

    let mut w = BitWriter::endian(Vec::new(), BigEndian);
    w.write(8, 0b1010_0101u32).unwrap();
    let (bits, value) = w.into_unwritten();
    assert_eq!(bits, 0);
    assert_eq!(value, 0);
}
