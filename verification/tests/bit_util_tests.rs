use parquet::bit_util::{
    ceil, convert_to_bytes, log2, set_array_bit, trailing_bits, unset_array_bit, BitReader,
    BitWriter, FixedWidth, MAX_VLQ_BYTE_LEN,
};
use parquet::memory::ByteBufferPtr;
use std::fmt::Debug;

/// A small deterministic linear congruential generator, so the
/// round-trip tests cover many values while staying reproducible.
fn next_random(state: &mut u64) -> u64 {
    *state = state
        .wrapping_mul(6364136223846793005)
        .wrapping_add(1442695040888963407);
    *state
}

fn random_numbers(total: usize, state: &mut u64) -> Vec<u64> {
    (0..total).map(|_| next_random(state)).collect()
}

#[test]
fn test_ceil() {
    assert_eq!(ceil(0, 1), 0);
    assert_eq!(ceil(1, 1), 1);
    assert_eq!(ceil(1, 2), 1);
    assert_eq!(ceil(1, 8), 1);
    assert_eq!(ceil(7, 8), 1);
    assert_eq!(ceil(8, 8), 1);
    assert_eq!(ceil(9, 8), 2);
    assert_eq!(ceil(9, 9), 1);
    assert_eq!(ceil(10000000000, 10), 1000000000);
    assert_eq!(ceil(10, 10000000000), 1);
    assert_eq!(ceil(10000000000, 1000000000), 10);
}

#[test]
fn test_bit_reader_get_value() {
    let buffer = vec![255, 0];
    let mut bit_reader = BitReader::new(ByteBufferPtr::new(buffer));
    assert_eq!(bit_reader.get_value::<i32>(1).expect("get_value() should return OK"), 1);
    assert_eq!(bit_reader.get_value::<i32>(2).expect("get_value() should return OK"), 3);
    assert_eq!(bit_reader.get_value::<i32>(3).expect("get_value() should return OK"), 7);
    assert_eq!(bit_reader.get_value::<i32>(4).expect("get_value() should return OK"), 3);
}

#[test]
fn test_bit_reader_get_value_boundary() {
    let buffer = vec![10, 0, 0, 0, 20, 0, 30, 0, 0, 0, 40, 0];
    let mut bit_reader = BitReader::new(ByteBufferPtr::new(buffer));
    assert_eq!(bit_reader.get_value::<i64>(32).expect("get_value() should return OK"), 10);
    assert_eq!(bit_reader.get_value::<i64>(16).expect("get_value() should return OK"), 20);
    assert_eq!(bit_reader.get_value::<i64>(32).expect("get_value() should return OK"), 30);
    assert_eq!(bit_reader.get_value::<i64>(16).expect("get_value() should return OK"), 40);
}

#[test]
fn test_bit_reader_get_aligned() {
    // 01110101 11001011
    let buffer = ByteBufferPtr::new(vec![0x75, 0xCB]);
    let mut bit_reader = BitReader::new(buffer.all());
    assert_eq!(bit_reader.get_value::<i32>(3).expect("get_value() should return OK"), 5);
    assert_eq!(bit_reader.get_aligned::<i32>(1).expect("get_aligned() should return OK"), 203);
    let _ = bit_reader.get_value::<i32>(1).expect_err("get_value() should return Err");
    bit_reader.reset(buffer.all());
    let _ = bit_reader.get_aligned::<i32>(3).expect_err("get_value() should return Err");
}

#[test]
fn test_bit_reader_get_vlq_int() {
    // 10001001 00000001 11110010 10110101 00000110
    let buffer: Vec<u8> = vec![0x89, 0x01, 0xF2, 0xB5, 0x06];
    let mut bit_reader = BitReader::new(ByteBufferPtr::new(buffer));
    assert_eq!(bit_reader.get_vlq_int().expect("get_vlq_int() should return OK"), 137);
    assert_eq!(bit_reader.get_vlq_int().expect("get_vlq_int() should return OK"), 105202);
}

#[test]
fn test_bit_reader_get_vlq_int_overflow() {
    // 10001001 10000001 11110010 10110101 00000110
    let buffer: Vec<u8> = vec![0x89, 0x81, 0xF2, 0xB5, 0x06];
    let mut bit_reader = BitReader::new(ByteBufferPtr::new(buffer));
    assert_eq!(bit_reader.get_vlq_int().expect("get_vlq_int() should return OK"), 1723629705);

    // 10001001 10000001 11110010 10110101 10000110 00000001
    let buffer = vec![0x89, 0x81, 0xF2, 0xB5, 0x86, 0x01];
    let mut bit_reader = BitReader::new(ByteBufferPtr::new(buffer));
    let v = bit_reader.get_vlq_int();
    assert!(v.is_err());
    assert_eq!(
        v.unwrap_err().description(),
        format!("Num of bytes exceed MAX_VLQ_BYTE_LEN ({})", MAX_VLQ_BYTE_LEN)
    );
}

#[test]
fn test_bit_reader_get_zigzag_vlq_int() {
    let buffer: Vec<u8> = vec![0, 1, 2, 3];
    let mut bit_reader = BitReader::new(ByteBufferPtr::new(buffer));
    assert_eq!(
        bit_reader.get_zigzag_vlq_int().expect("get_zigzag_vlq_int() should return OK"),
        0
    );
    assert_eq!(
        bit_reader.get_zigzag_vlq_int().expect("get_zigzag_vlq_int() should return OK"),
        -1
    );
    assert_eq!(
        bit_reader.get_zigzag_vlq_int().expect("get_zigzag_vlq_int() should return OK"),
        1
    );
    assert_eq!(
        bit_reader.get_zigzag_vlq_int().expect("get_zigzag_vlq_int() should return OK"),
        -2
    );
}

#[test]
fn test_set_array_bit() {
    let mut buffer = vec![0, 0, 0];
    set_array_bit(&mut buffer, 1);
    assert_eq!(buffer, vec![2, 0, 0]);
    set_array_bit(&mut buffer, 4);
    assert_eq!(buffer, vec![18, 0, 0]);
    unset_array_bit(&mut buffer, 1);
    assert_eq!(buffer, vec![16, 0, 0]);
    set_array_bit(&mut buffer, 10);
    assert_eq!(buffer, vec![16, 4, 0]);
    set_array_bit(&mut buffer, 10);
    assert_eq!(buffer, vec![16, 4, 0]);
    set_array_bit(&mut buffer, 11);
    assert_eq!(buffer, vec![16, 12, 0]);
    unset_array_bit(&mut buffer, 10);
    assert_eq!(buffer, vec![16, 8, 0]);
}

#[test]
fn test_log2() {
    assert_eq!(log2(1), 0);
    assert_eq!(log2(2), 1);
    assert_eq!(log2(3), 2);
    assert_eq!(log2(4), 2);
    assert_eq!(log2(5), 3);
    assert_eq!(log2(5), 3);
    assert_eq!(log2(6), 3);
    assert_eq!(log2(7), 3);
    assert_eq!(log2(8), 3);
    assert_eq!(log2(9), 4);
}

#[test]
fn test_skip() {
    let mut writer = BitWriter::new(5);
    let old_offset = writer.skip(1).expect("skip() should return OK");
    writer.put_aligned(42, 4);
    writer.put_aligned_offset(0x10, 1, old_offset);
    let result = writer.consume();
    assert_eq!(result.as_ref(), [0x10, 42, 0, 0, 0]);

    writer = BitWriter::new(4);
    let result = writer.skip(5);
    assert!(result.is_err());
}

#[test]
fn test_get_next_byte_ptr() {
    let mut writer = BitWriter::new(5);
    let offset = writer.get_next_byte_ptr(1).expect("get_next_byte_ptr() should return OK");
    writer.put_aligned_offset(0x10, 1, offset);
    writer.put_aligned(42, 4);
    let result = writer.consume();
    assert_eq!(result.as_ref(), [0x10, 42, 0, 0, 0]);
}

#[test]
fn test_put_get_bool() {
    let len = 8;
    let mut writer = BitWriter::new(len);

    for i in 0..8 {
        let result = writer.put_value(i % 2, 1);
        assert!(result);
    }

    writer.flush();
    {
        let buffer = writer.buffer();
        assert_eq!(buffer[0], 0b10101010);
    }

    // Write 00110011
    for i in 0..8 {
        let result = match i {
            0 | 1 | 4 | 5 => writer.put_value(false as u64, 1),
            _ => writer.put_value(true as u64, 1),
        };
        assert!(result);
    }
    writer.flush();
    {
        let buffer = writer.buffer();
        assert_eq!(buffer[0], 0b10101010);
        assert_eq!(buffer[1], 0b11001100);
    }

    let mut reader = BitReader::new(writer.consume());

    for i in 0..8 {
        let val = reader.get_value::<u8>(1).expect("get_value() should return OK");
        assert_eq!(val, i % 2);
    }

    for i in 0..8 {
        let val = reader.get_value::<bool>(1).expect("get_value() should return OK");
        match i {
            0 | 1 | 4 | 5 => assert_eq!(val, false),
            _ => assert_eq!(val, true),
        }
    }
}

fn test_put_value_rand_numbers(total: usize, num_bits: usize, state: &mut u64) {
    assert!(num_bits < 64);
    let num_bytes = ceil(num_bits as i64, 8);
    let mut writer = BitWriter::new(num_bytes as usize * total);
    let values: Vec<u64> = random_numbers(total, state)
        .iter()
        .map(|v| v & ((1 << num_bits) - 1))
        .collect();
    for i in 0..total {
        assert!(
            writer.put_value(values[i], num_bits),
            "[{}]: put_value() failed",
            i
        );
    }

    let mut reader = BitReader::new(writer.consume());
    for i in 0..total {
        let v = reader.get_value::<u64>(num_bits).expect("get_value() should return OK");
        assert_eq!(v, values[i], "[{}]: expected {} but got {}", i, values[i], v);
    }
}

#[test]
fn test_put_value_roundtrip() {
    let mut state: u64 = 0x853c49e6748fea9b;
    test_put_value_rand_numbers(32, 2, &mut state);
    test_put_value_rand_numbers(32, 3, &mut state);
    test_put_value_rand_numbers(32, 4, &mut state);
    test_put_value_rand_numbers(32, 5, &mut state);
    test_put_value_rand_numbers(32, 6, &mut state);
    test_put_value_rand_numbers(32, 7, &mut state);
    test_put_value_rand_numbers(32, 8, &mut state);
    test_put_value_rand_numbers(64, 16, &mut state);
    test_put_value_rand_numbers(64, 24, &mut state);
    test_put_value_rand_numbers(64, 32, &mut state);
}

fn test_put_aligned_rand_numbers<T>(total: usize, num_bits: usize, state: &mut u64)
where
    T: Copy + FixedWidth + Default + Debug + PartialEq,
{
    assert!(num_bits <= 32);
    assert!(total % 2 == 0);

    let aligned_value_byte_width = std::mem::size_of::<T>();
    let value_byte_width = ceil(num_bits as i64, 8) as usize;
    let mut writer = BitWriter::new((total / 2) * (aligned_value_byte_width + value_byte_width));
    let values: Vec<u32> = random_numbers(total / 2, state)
        .iter()
        .map(|v| (v & ((1 << num_bits) - 1)) as u32)
        .collect();
    let aligned_values: Vec<T> = random_numbers(total / 2, state)
        .iter()
        .map(|v| T::from_pattern(*v))
        .collect();

    for i in 0..total {
        let j = i / 2;
        if i % 2 == 0 {
            assert!(
                writer.put_value(values[j] as u64, num_bits),
                "[{}]: put_value() failed",
                i
            );
        } else {
            assert!(
                writer.put_aligned::<T>(aligned_values[j], aligned_value_byte_width),
                "[{}]: put_aligned() failed",
                i
            );
        }
    }

    let mut reader = BitReader::new(writer.consume());
    for i in 0..total {
        let j = i / 2;
        if i % 2 == 0 {
            let v = reader.get_value::<u64>(num_bits).expect("get_value() should return OK");
            assert_eq!(v, values[j] as u64, "[{}]: expected {} but got {}", i, values[j], v);
        } else {
            let v = reader
                .get_aligned::<T>(aligned_value_byte_width)
                .expect("get_aligned() should return OK");
            assert_eq!(v, aligned_values[j], "[{}]: expected {:?} but got {:?}", i, aligned_values[j], v);
        }
    }
}

#[test]
fn test_put_aligned_roundtrip() {
    let mut state: u64 = 0xda3e39cb94b95bdb;
    test_put_aligned_rand_numbers::<u8>(4, 3, &mut state);
    test_put_aligned_rand_numbers::<u8>(16, 5, &mut state);
    test_put_aligned_rand_numbers::<i16>(32, 7, &mut state);
    test_put_aligned_rand_numbers::<i16>(32, 9, &mut state);
    test_put_aligned_rand_numbers::<i32>(32, 11, &mut state);
    test_put_aligned_rand_numbers::<i32>(32, 13, &mut state);
    test_put_aligned_rand_numbers::<i64>(32, 17, &mut state);
    test_put_aligned_rand_numbers::<i64>(32, 23, &mut state);
}

#[test]
fn test_put_vlq_int() {
    let total = 64;
    let mut state: u64 = 0x9e3779b97f4a7c15;
    let mut writer = BitWriter::new(total * 32);
    let values: Vec<u32> = random_numbers(total, &mut state)
        .iter()
        .map(|v| *v as u32)
        .collect();
    for i in 0..total {
        assert!(
            writer.put_vlq_int(values[i] as u64),
            "[{}]; put_vlq_int() failed",
            i
        );
    }

    let mut reader = BitReader::new(writer.consume());
    for i in 0..total {
        let v = reader.get_vlq_int().expect("get_vlq_int() should return OK");
        assert_eq!(v as u32, values[i], "[{}]: expected {} but got {}", i, values[i], v);
    }
}

#[test]
fn test_put_zigzag_vlq_int() {
    let total = 64;
    let mut state: u64 = 0xc4ceb9fe1a85ec53;
    let mut writer = BitWriter::new(total * 32);
    let values: Vec<i32> = random_numbers(total, &mut state)
        .iter()
        .map(|v| *v as i32)
        .collect();
    for i in 0..total {
        assert!(
            writer.put_zigzag_vlq_int(values[i] as i64),
            "[{}]; put_zigzag_vlq_int() failed",
            i
        );
    }

    let mut reader = BitReader::new(writer.consume());
    for i in 0..total {
        let v = reader.get_zigzag_vlq_int().expect("get_zigzag_vlq_int() should return OK");
        assert_eq!(v as i32, values[i], "[{}]: expected {} but got {}", i, values[i], v);
    }
}

#[test]
fn test_trailing_bits() {
    assert_eq!(trailing_bits(0xff, 0), 0);
    assert_eq!(trailing_bits(0xff, 1), 1);
    assert_eq!(trailing_bits(0xff, 2), 3);
    assert_eq!(trailing_bits(0xabcdef98, 16), 0xef98);
    assert_eq!(trailing_bits(u64::MAX, 64), u64::MAX);
    assert_eq!(trailing_bits(u64::MAX, 100), u64::MAX);
}

#[test]
fn test_convert_to_bytes() {
    let v: u32 = 0x12345678;
    assert_eq!(convert_to_bytes(&v, 4), vec![0x78, 0x56, 0x34, 0x12]);
    assert_eq!(convert_to_bytes(&v, 2), vec![0x78, 0x56]);
    let w: i64 = -2;
    assert_eq!(
        convert_to_bytes(&w, 8),
        vec![0xFE, 0xFF, 0xFF, 0xFF, 0xFF, 0xFF, 0xFF, 0xFF]
    );
}

#[test]
fn test_vlq_encode_137() {
    // Encoding 137 must produce exactly the two bytes 0x89, 0x01, and
    // decoding those two bytes must yield 137.
    let mut writer = BitWriter::new(8);
    assert!(writer.put_vlq_int(137));
    let result = writer.consume();
    assert_eq!(result.as_ref(), [0x89, 0x01]);
    let mut reader = BitReader::new(result);
    assert_eq!(reader.get_vlq_int().expect("get_vlq_int() should return OK"), 137);
}

#[test]
fn test_alternating_bits() {
    // Eight single-bit values 1,0,1,0,1,0,1,0 pack to 0b10101010 and
    // read back in order.
    let mut writer = BitWriter::new(8);
    for i in 0..8 {
        assert!(writer.put_value(1 - i % 2, 1));
    }
    writer.flush();
    assert_eq!(writer.buffer()[0], 0b01010101);
    let mut reader = BitReader::new(writer.consume());
    for i in 0..8 {
        let v = reader.get_value::<u8>(1).expect("get_value() should return OK");
        assert_eq!(v, 1 - (i % 2) as u8);
    }
}

#[test]
fn test_capacity_boundary() {
    // A writer of 2 bytes takes exactly 16 bits; the first overflowing
    // write fails and leaves the committed bytes untouched.
    let mut writer = BitWriter::new(2);
    assert!(writer.put_value(0b101, 3));
    assert!(writer.put_value(0b11111, 5));
    assert!(writer.put_value(0xFF, 8));
    assert!(!writer.put_value(1, 1));
    assert!(!writer.put_aligned::<u8>(7, 1));
    let result = writer.consume();
    assert_eq!(result.as_ref(), [0b11111101, 0xFF]);
}

#[test]
fn test_patch_then_read() {
    // Reserve four bytes, write unrelated data, patch the reservation,
    // and check the patched value and the unrelated data both survive.
    let mut writer = BitWriter::new(10);
    assert!(writer.put_value(0b110, 3));
    let offset = writer.skip(4).expect("skip() should return OK");
    assert_eq!(offset, 1);
    assert!(writer.put_aligned::<u8>(0xAB, 1));
    assert!(writer.put_vlq_int(5));
    assert!(writer.put_aligned_offset::<u32>(0xDEADBEEF, 4, offset));
    let result = writer.consume();
    assert_eq!(result.as_ref(), [0b110, 0xEF, 0xBE, 0xAD, 0xDE, 0xAB, 5]);
    let mut reader = BitReader::new(result);
    assert_eq!(reader.get_value::<u8>(3).expect("get_value() should return OK"), 0b110);
    assert_eq!(
        reader.get_aligned::<u32>(4).expect("get_aligned() should return OK"),
        0xDEADBEEF
    );
    assert_eq!(reader.get_aligned::<u8>(1).expect("get_aligned() should return OK"), 0xAB);
    assert_eq!(reader.get_vlq_int().expect("get_vlq_int() should return OK"), 5);
}

#[test]
fn test_reader_underrun_errors() {
    let mut reader = BitReader::new(ByteBufferPtr::new(vec![0x80, 0x80]));
    // A truncated varint is reported as running out of bytes, not as a
    // malformed value.
    let err = reader.get_vlq_int().unwrap_err();
    assert_eq!(err.description(), "Not enough bytes left");
    // The failed read did not advance the cursor: the reader is still
    // positioned at the first byte and stays resumable.
    assert_eq!(reader.get_byte_offset(), 0);
    assert_eq!(reader.get_aligned::<u8>(1).expect("get_aligned() should return OK"), 0x80);
    let mut empty = BitReader::new(ByteBufferPtr::new(vec![]));
    assert!(empty.get_value::<u8>(1).is_err());
    assert!(empty.get_aligned::<u8>(1).is_err());
}

#[test]
fn test_writer_bytes_written() {
    let mut writer = BitWriter::new(4);
    assert_eq!(writer.bytes_written(), 0);
    assert!(writer.put_value(1, 1));
    assert_eq!(writer.bytes_written(), 1);
    assert!(writer.put_value(0x1FF, 9));
    assert_eq!(writer.bytes_written(), 2);
    writer.flush();
    assert_eq!(writer.byte_offset(), 2);
    assert_eq!(writer.buffer_len(), 4);
}
