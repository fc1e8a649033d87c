use bitstream::BigEndian;
use bitstream::BitError;
use bitstream::BitQueue;
use bitstream::BitReader;
use bitstream::LittleEndian;
use bitstream::BE;
use bitstream::LE;

#[test]
fn test_read_queue_be() {
    let mut q: BitQueue<BE> = BitQueue::new(32);
    assert!(q.is_empty());
    assert_eq!(q.len(), 0);
    q.push(8, 0b10_110_001);
    assert_eq!(q.len(), 8);
    assert_eq!(q.pop(2), 0b10);
    assert_eq!(q.len(), 6);
    assert_eq!(q.pop(3), 0b110);
    assert_eq!(q.len(), 3);
    q.push(8, 0b11_101_101);
    assert_eq!(q.len(), 11);
    assert_eq!(q.pop(5), 0b001_11);
    assert_eq!(q.len(), 6);
    assert_eq!(q.pop(3), 0b101);
    q.push(8, 0b00111011);
    q.push(8, 0b11000001);
    assert_eq!(q.pop(19), 0b101_00111011_11000001);
    assert!(q.is_empty());
    assert_eq!(q.value(), 0);
}

#[test]
fn test_read_queue_le() {
    let mut q: BitQueue<LE> = BitQueue::new(32);
    assert!(q.is_empty());
    assert_eq!(q.len(), 0);
    q.push(8, 0b101_100_01);
    assert_eq!(q.len(), 8);
    assert_eq!(q.pop(2), 0b01);
    assert_eq!(q.len(), 6);
    assert_eq!(q.pop(3), 0b100);
    assert_eq!(q.len(), 3);
    q.push(8, 0b111_011_01);
    assert_eq!(q.len(), 11);
    assert_eq!(q.pop(5), 0b01_101);
    assert_eq!(q.len(), 6);
    assert_eq!(q.pop(3), 0b011);
    q.push(8, 0b00111011);
    q.push(8, 0b11000001);
    assert_eq!(q.pop(19), 0b11000001_00111011_111);
    assert!(q.is_empty());
    assert_eq!(q.value(), 0);
}

#[test]
fn test_reader_be() {
    let actual_data: [u8; 4] = [0xB1, 0xED, 0x3B, 0xC1];

    // reading individual bits
    let mut r = BitReader::endian(actual_data.to_vec(), BigEndian);
    assert_eq!(r.read_bit().unwrap(), true);
    assert_eq!(r.read_bit().unwrap(), false);
    assert_eq!(r.read_bit().unwrap(), true);
    assert_eq!(r.read_bit().unwrap(), true);
    assert_eq!(r.read_bit().unwrap(), false);
    assert_eq!(r.read_bit().unwrap(), false);
    assert_eq!(r.read_bit().unwrap(), false);
    assert_eq!(r.read_bit().unwrap(), true);
    assert_eq!(r.read_bit().unwrap(), true);
    assert_eq!(r.read_bit().unwrap(), true);
    assert_eq!(r.read_bit().unwrap(), true);
    assert_eq!(r.read_bit().unwrap(), false);
    assert_eq!(r.read_bit().unwrap(), true);
    assert_eq!(r.read_bit().unwrap(), true);
    assert_eq!(r.read_bit().unwrap(), false);
    assert_eq!(r.read_bit().unwrap(), true);

    // reading unsigned values
    let mut r = BitReader::endian(actual_data.to_vec(), BigEndian);
    assert!(r.byte_aligned());
    assert_eq!(r.read::<u32>(2).unwrap(), 2);
    assert!(!r.byte_aligned());
    assert_eq!(r.read::<u32>(3).unwrap(), 6);
    assert!(!r.byte_aligned());
    assert_eq!(r.read::<u32>(5).unwrap(), 7);
    assert!(!r.byte_aligned());
    assert_eq!(r.read::<u32>(3).unwrap(), 5);
    assert!(!r.byte_aligned());
    assert_eq!(r.read::<u32>(19).unwrap(), 0x53BC1);
    assert!(r.byte_aligned());
    assert!(r.read::<u32>(1).is_err());

    // skipping bits
    let mut r = BitReader::endian(actual_data.to_vec(), BigEndian);
    assert_eq!(r.read::<u32>(2).unwrap(), 2);
    assert!(r.skip(3).is_ok());
    assert_eq!(r.read::<u32>(5).unwrap(), 7);
    assert!(r.skip(3).is_ok());
    assert_eq!(r.read::<u32>(19).unwrap(), 0x53BC1);

    // reading signed values
    let mut r = BitReader::endian(actual_data.to_vec(), BigEndian);
    assert_eq!(r.read_signed::<i32>(2).unwrap(), -2);
    assert_eq!(r.read_signed::<i32>(3).unwrap(), -2);
    assert_eq!(r.read_signed::<i32>(5).unwrap(), 7);
    assert_eq!(r.read_signed::<i32>(3).unwrap(), -3);
    assert_eq!(r.read_signed::<i32>(19).unwrap(), -181311);

    // reading unary 0 values
    let mut r = BitReader::endian(actual_data.to_vec(), BigEndian);
    assert_eq!(r.read_unary0().unwrap(), 1);
    assert_eq!(r.read_unary0().unwrap(), 2);
    assert_eq!(r.read_unary0().unwrap(), 0);
    assert_eq!(r.read_unary0().unwrap(), 0);
    assert_eq!(r.read_unary0().unwrap(), 4);

    // reading unary 1 values
    let mut r = BitReader::endian(actual_data.to_vec(), BigEndian);
    assert_eq!(r.read_unary1().unwrap(), 0);
    assert_eq!(r.read_unary1().unwrap(), 1);
    assert_eq!(r.read_unary1().unwrap(), 0);
    assert_eq!(r.read_unary1().unwrap(), 3);
    assert_eq!(r.read_unary1().unwrap(), 0);

    // byte aligning
    let mut r = BitReader::endian(actual_data.to_vec(), BigEndian);
    assert_eq!(r.read::<u32>(3).unwrap(), 5);
    r.byte_align();
    assert_eq!(r.read::<u32>(3).unwrap(), 7);
    r.byte_align();
    r.byte_align();
    assert_eq!(r.read::<u32>(8).unwrap(), 59);
    r.byte_align();
    assert_eq!(r.read::<u32>(4).unwrap(), 12);

    // reading bytes, aligned
    let mut r = BitReader::endian(actual_data.to_vec(), BigEndian);
    assert_eq!(r.read_to_vec(2).unwrap(), b"\xB1\xED".to_vec());

    // reading bytes, un-aligned
    let mut r = BitReader::endian(actual_data.to_vec(), BigEndian);
    assert_eq!(r.read::<u32>(4).unwrap(), 11);
    assert_eq!(r.read_to_vec(2).unwrap(), b"\x1E\xD3".to_vec());
}

#[test]
fn test_reader_le() {
    let actual_data: [u8; 4] = [0xB1, 0xED, 0x3B, 0xC1];

    // reading individual bits
    let mut r = BitReader::endian(actual_data.to_vec(), LittleEndian);
    assert_eq!(r.read_bit().unwrap(), true);
    assert_eq!(r.read_bit().unwrap(), false);
    assert_eq!(r.read_bit().unwrap(), false);
    assert_eq!(r.read_bit().unwrap(), false);
    assert_eq!(r.read_bit().unwrap(), true);
    assert_eq!(r.read_bit().unwrap(), true);
    assert_eq!(r.read_bit().unwrap(), false);
    assert_eq!(r.read_bit().unwrap(), true);
    assert_eq!(r.read_bit().unwrap(), true);
    assert_eq!(r.read_bit().unwrap(), false);
    assert_eq!(r.read_bit().unwrap(), true);
    assert_eq!(r.read_bit().unwrap(), true);
    assert_eq!(r.read_bit().unwrap(), false);
    assert_eq!(r.read_bit().unwrap(), true);
    assert_eq!(r.read_bit().unwrap(), true);
    assert_eq!(r.read_bit().unwrap(), true);

    // reading unsigned values
    let mut r = BitReader::endian(actual_data.to_vec(), LittleEndian);
    assert!(r.byte_aligned());
    assert_eq!(r.read::<u32>(2).unwrap(), 1);
    assert!(!r.byte_aligned());
    assert_eq!(r.read::<u32>(3).unwrap(), 4);
    assert!(!r.byte_aligned());
    assert_eq!(r.read::<u32>(5).unwrap(), 13);
    assert!(!r.byte_aligned());
    assert_eq!(r.read::<u32>(3).unwrap(), 3);
    assert!(!r.byte_aligned());
    assert_eq!(r.read::<u32>(19).unwrap(), 0x609DF);
    assert!(r.byte_aligned());
    assert!(r.read::<u32>(1).is_err());

    // skipping bits
    let mut r = BitReader::endian(actual_data.to_vec(), LittleEndian);
    assert_eq!(r.read::<u32>(2).unwrap(), 1);
    assert!(r.skip(3).is_ok());
    assert_eq!(r.read::<u32>(5).unwrap(), 13);
    assert!(r.skip(3).is_ok());
    assert_eq!(r.read::<u32>(19).unwrap(), 0x609DF);

    // reading signed values
    let mut r = BitReader::endian(actual_data.to_vec(), LittleEndian);
    assert_eq!(r.read_signed::<i32>(2).unwrap(), 1);
    assert_eq!(r.read_signed::<i32>(3).unwrap(), -4);
    assert_eq!(r.read_signed::<i32>(5).unwrap(), 13);
    assert_eq!(r.read_signed::<i32>(3).unwrap(), 3);
    assert_eq!(r.read_signed::<i32>(19).unwrap(), -128545);
}

#[test]
fn test_edge_cases_be() {
    let data: Vec<u8> = vec![
        0, 0, 0, 0, 255, 255, 255, 255, 128, 0, 0, 0, 127, 255, 255, 255, 0, 0, 0, 0, 0, 0, 0, 0,
        255, 255, 255, 255, 255, 255, 255, 255, 128, 0, 0, 0, 0, 0, 0, 0, 127, 255, 255, 255, 255,
        255, 255, 255,
    ];

    // 0 bit reads
    let mut r = BitReader::endian(vec![255], BigEndian);
    assert_eq!(r.read::<u8>(0).unwrap(), 0);
    assert_eq!(r.read::<u16>(0).unwrap(), 0);
    assert_eq!(r.read::<u32>(0).unwrap(), 0);
    assert_eq!(r.read::<u64>(0).unwrap(), 0);
    assert_eq!(r.read::<u8>(8).unwrap(), 255);

    // unsigned 32 and 64-bit values
    let mut r = BitReader::endian(data.clone(), BigEndian);
    assert_eq!(r.read::<u32>(32).unwrap(), 0);
    assert_eq!(r.read::<u32>(32).unwrap(), 4294967295);
    assert_eq!(r.read::<u32>(32).unwrap(), 2147483648);
    assert_eq!(r.read::<u32>(32).unwrap(), 2147483647);
    assert_eq!(r.read::<u64>(64).unwrap(), 0);
    assert_eq!(r.read::<u64>(64).unwrap(), 0xFFFFFFFFFFFFFFFF);
    assert_eq!(r.read::<u64>(64).unwrap(), 9223372036854775808);
    assert_eq!(r.read::<u64>(64).unwrap(), 9223372036854775807);

    // signed 32 and 64-bit values
    let mut r = BitReader::endian(data.clone(), BigEndian);
    assert_eq!(r.read_signed::<i32>(32).unwrap(), 0);
    assert_eq!(r.read_signed::<i32>(32).unwrap(), -1);
    assert_eq!(r.read_signed::<i32>(32).unwrap(), -2147483648);
    assert_eq!(r.read_signed::<i32>(32).unwrap(), 2147483647);
    assert_eq!(r.read_signed::<i64>(64).unwrap(), 0);
    assert_eq!(r.read_signed::<i64>(64).unwrap(), -1);
    assert_eq!(r.read_signed::<i64>(64).unwrap(), -9223372036854775808);
    assert_eq!(r.read_signed::<i64>(64).unwrap(), 9223372036854775807);
}

#[test]
fn test_edge_cases_le() {
    let data: Vec<u8> = vec![
        0, 0, 0, 0, 255, 255, 255, 255, 0, 0, 0, 128, 255, 255, 255, 127, 0, 0, 0, 0, 0, 0, 0, 0,
        255, 255, 255, 255, 255, 255, 255, 255, 0, 0, 0, 0, 0, 0, 0, 128, 255, 255, 255, 255, 255,
        255, 255, 127,
    ];

    // 0 bit reads
    let mut r = BitReader::endian(vec![255], LittleEndian);
    assert_eq!(r.read::<u8>(0).unwrap(), 0);
    assert_eq!(r.read::<u16>(0).unwrap(), 0);
    assert_eq!(r.read::<u32>(0).unwrap(), 0);
    assert_eq!(r.read::<u64>(0).unwrap(), 0);
    assert_eq!(r.read::<u8>(8).unwrap(), 255);

    // unsigned 32 and 64-bit values
    let mut r = BitReader::endian(data.clone(), LittleEndian);
    assert_eq!(r.read::<u32>(32).unwrap(), 0);
    assert_eq!(r.read::<u32>(32).unwrap(), 4294967295);
    assert_eq!(r.read::<u32>(32).unwrap(), 2147483648);
    assert_eq!(r.read::<u32>(32).unwrap(), 2147483647);
    assert_eq!(r.read::<u64>(64).unwrap(), 0);
    assert_eq!(r.read::<u64>(64).unwrap(), 0xFFFFFFFFFFFFFFFF);
    assert_eq!(r.read::<u64>(64).unwrap(), 9223372036854775808);
    assert_eq!(r.read::<u64>(64).unwrap(), 9223372036854775807);

    // signed 32 and 64-bit values
    let mut r = BitReader::endian(data.clone(), LittleEndian);
    assert_eq!(r.read_signed::<i32>(32).unwrap(), 0);
    assert_eq!(r.read_signed::<i32>(32).unwrap(), -1);
    assert_eq!(r.read_signed::<i32>(32).unwrap(), -2147483648);
    assert_eq!(r.read_signed::<i32>(32).unwrap(), 2147483647);
    assert_eq!(r.read_signed::<i64>(64).unwrap(), 0);
    assert_eq!(r.read_signed::<i64>(64).unwrap(), -1);
    assert_eq!(r.read_signed::<i64>(64).unwrap(), -9223372036854775808);
    assert_eq!(r.read_signed::<i64>(64).unwrap(), 9223372036854775807);
}

#[test]
fn test_reader_bits_errors() {
    let data = vec![0; 10];

    let mut r = BitReader::endian(data.clone(), BigEndian);
    assert_eq!(r.read::<u8>(9).unwrap_err(), BitError::TooManyBits);
    assert_eq!(r.read::<u16>(17).unwrap_err(), BitError::TooManyBits);
    assert_eq!(r.read::<u32>(33).unwrap_err(), BitError::TooManyBits);
    assert_eq!(r.read::<u64>(65).unwrap_err(), BitError::TooManyBits);
    assert_eq!(r.read_signed::<i8>(9).unwrap_err(), BitError::TooManyBits);
    assert_eq!(r.read_signed::<i16>(17).unwrap_err(), BitError::TooManyBits);
    assert_eq!(r.read_signed::<i32>(33).unwrap_err(), BitError::TooManyBits);
    assert_eq!(r.read_signed::<i64>(65).unwrap_err(), BitError::TooManyBits);

    let mut r = BitReader::endian(data.clone(), LittleEndian);
    assert_eq!(r.read::<u8>(9).unwrap_err(), BitError::TooManyBits);
    assert_eq!(r.read::<u16>(17).unwrap_err(), BitError::TooManyBits);
    assert_eq!(r.read::<u32>(33).unwrap_err(), BitError::TooManyBits);
    assert_eq!(r.read::<u64>(65).unwrap_err(), BitError::TooManyBits);
    assert_eq!(r.read_signed::<i8>(9).unwrap_err(), BitError::TooManyBits);
    assert_eq!(r.read_signed::<i16>(17).unwrap_err(), BitError::TooManyBits);
    assert_eq!(r.read_signed::<i32>(33).unwrap_err(), BitError::TooManyBits);
    assert_eq!(r.read_signed::<i64>(65).unwrap_err(), BitError::TooManyBits);
}

#[test]
fn test_reader_io_errors_be() {
    // reading past the end of a short buffer fails with an end-of-stream
    // error after exactly as many reads as the data supports
    let mut r = BitReader::endian(vec![0b1010_0101], BigEndian);
    assert!(r.read::<u8>(4).is_ok());
    assert!(r.read::<u8>(4).is_ok());
    assert_eq!(r.read::<u8>(1).unwrap_err(), BitError::UnexpectedEnd);

    let mut r = BitReader::endian(vec![0xFF, 0xFF], BigEndian);
    assert!(r.read::<u16>(12).is_ok());
    assert_eq!(r.read::<u16>(8).unwrap_err(), BitError::UnexpectedEnd);
    // a failed read consumes nothing
    assert_eq!(r.read::<u16>(4).unwrap(), 0xF);
    assert_eq!(r.read_bit().unwrap_err(), BitError::UnexpectedEnd);
}

#[test]
fn test_reader_io_errors_le() {
    let mut r = BitReader::endian(vec![0b1010_0101], LittleEndian);
    assert!(r.read::<u8>(4).is_ok());
    assert!(r.read::<u8>(4).is_ok());
    assert_eq!(r.read::<u8>(1).unwrap_err(), BitError::UnexpectedEnd);

    let mut r = BitReader::endian(vec![0xFF, 0xFF], LittleEndian);
    assert!(r.read::<u16>(12).is_ok());
    assert_eq!(r.read::<u16>(8).unwrap_err(), BitError::UnexpectedEnd);
    assert_eq!(r.read::<u16>(4).unwrap(), 0xF);
    assert_eq!(r.read_bit().unwrap_err(), BitError::UnexpectedEnd);
}

#[test]
fn test_read_bytes() {
    let data = vec![0xB1, 0xED];
    let mut r = BitReader::endian(data.clone(), BigEndian);
    assert_eq!(r.read_to_vec(2).unwrap(), vec![0xB1, 0xED]);
    let mut r = BitReader::endian(data.clone(), LittleEndian);
    assert_eq!(r.read_to_vec(2).unwrap(), vec![0xB1, 0xED]);
}

#[test]
fn test_into_unread() {
    let data = vec![0b1010_0101, 0b0101_1010];
    let mut r = BitReader::endian(data.clone(), BigEndian);
    assert_eq!(r.read::<u16>(9).unwrap(), 0b1010_0101_0);
    let (bits, value) = r.into_unread();
    assert_eq!(bits, 7);
    assert_eq!(value, 0b101_1010);

    let mut r = BitReader::endian(data, BigEndian);
    assert_eq!(r.read::<u16>(8).unwrap(), 0b1010_0101);
    let (bits, value) = r.into_unread();
    assert_eq!(bits, 0);
    assert_eq!(value, 0);
}

// the concrete most-significant-bit-first example: one byte, bit by bit,
// and the same byte as one whole field
#[test]
fn test_single_byte_msb_first() {
    let mut r = BitReader::endian(vec![0b10110111], BigEndian);
    assert_eq!(r.read_bit().unwrap(), true);
    assert_eq!(r.read_bit().unwrap(), false);
    assert_eq!(r.read_bit().unwrap(), true);
    assert_eq!(r.read_bit().unwrap(), true);
    assert_eq!(r.read_bit().unwrap(), false);
    assert_eq!(r.read_bit().unwrap(), true);
    assert_eq!(r.read_bit().unwrap(), true);
    assert_eq!(r.read_bit().unwrap(), true);

    let mut r = BitReader::endian(vec![0b10110111], BigEndian);
    assert_eq!(r.read::<u8>(8).unwrap(), 0xB7);
}

// the concrete least-significant-bit-first example: the same byte yields
// the reverse bit order
#[test]
fn test_single_byte_lsb_first() {
    let mut r = BitReader::endian(vec![0b10110111], LittleEndian);
    assert_eq!(r.read_bit().unwrap(), true);
    assert_eq!(r.read_bit().unwrap(), true);
    assert_eq!(r.read_bit().unwrap(), true);
    assert_eq!(r.read_bit().unwrap(), false);
    assert_eq!(r.read_bit().unwrap(), true);
    assert_eq!(r.read_bit().unwrap(), true);
    assert_eq!(r.read_bit().unwrap(), false);
    assert_eq!(r.read_bit().unwrap(), true);

    let mut r = BitReader::endian(vec![0b10110111], LittleEndian);
    assert_eq!(r.read::<u8>(8).unwrap(), 0xB7);
}

#[test]
fn test_reader_unary_examples() {
    let mut r = BitReader::endian(vec![0b01110111, 0b11111110], BigEndian);
    assert_eq!(r.read_unary0().unwrap(), 0);
    assert_eq!(r.read_unary0().unwrap(), 3);
    assert_eq!(r.read_unary0().unwrap(), 10);

    let mut r = BitReader::endian(vec![0b11101110, 0b01111111], LittleEndian);
    assert_eq!(r.read_unary0().unwrap(), 0);
    assert_eq!(r.read_unary0().unwrap(), 3);
    assert_eq!(r.read_unary0().unwrap(), 10);

    let mut r = BitReader::endian(vec![0b10001000, 0b00000001], BigEndian);
    assert_eq!(r.read_unary1().unwrap(), 0);
    assert_eq!(r.read_unary1().unwrap(), 3);
    assert_eq!(r.read_unary1().unwrap(), 10);

    let mut r = BitReader::endian(vec![0b00010001, 0b10000000], LittleEndian);
    assert_eq!(r.read_unary1().unwrap(), 0);
    assert_eq!(r.read_unary1().unwrap(), 3);
    assert_eq!(r.read_unary1().unwrap(), 10);
}

#[test]
fn test_queue_runs_and_state() {
    // leading runs: the queue pops the run and its terminator
    let mut q: BitQueue<BE> = BitQueue::new(8);
    q.push(8, 0b0010_1110);
    assert!(!q.all_0());
    assert!(!q.all_1());
    assert_eq!(q.pop_0(), 2);
    assert_eq!(q.pop_0(), 1);
    assert_eq!(q.pop_1(), 2);
    assert!(q.is_empty());

    let mut q: BitQueue<LE> = BitQueue::new(8);
    q.push(8, 0b0010_0111);
    assert_eq!(q.pop_1(), 3);
    assert_eq!(q.pop_0(), 1);
    assert_eq!(q.len(), 2);

    // all-zero and all-one queries
    let mut q: BitQueue<BE> = BitQueue::new(8);
    q.push(4, 0);
    assert!(q.all_0());
    q.clear();
    q.push(4, 0b1111);
    assert!(q.all_1());

    // the lookup-state encoding: 2^bits + value
    let mut q: BitQueue<BE> = BitQueue::new(8);
    assert_eq!(q.to_state(), 1);
    q.push(3, 0b101);
    assert_eq!(q.to_state(), 0b1101);
    assert_eq!(q.max_len(), 8);
    assert_eq!(q.remaining_len(), 5);
    assert_eq!(q.pop_all(), 0b101);
    assert!(q.is_empty());

    // drop discards from the head
    let mut q: BitQueue<BE> = BitQueue::new(8);
    q.set(0b1011_0111, 8);
    q.drop(4);
    assert_eq!(q.pop_all(), 0b0111);
}
