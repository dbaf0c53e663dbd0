use mycal::compress::{
    decode_magic, encode_magic, magic_bytes_required, vbyte_bytes_required, vbyte_decode,
    vbyte_encode, MagicEncodedBuffer, VbyteEncodedBuffer,
};
use std::collections::VecDeque;

#[test]
fn test_vbyte() {
    let victim = 12345678;
    let mut buffer: VecDeque<u8> = VecDeque::new();
    vbyte_encode(victim, &mut buffer);
    println!("Value {} encoded {:?}", victim, &buffer);
    let (decoded, _) = vbyte_decode(&mut buffer);
    println!("Value {} decoded {:?}", victim, decoded);
    assert!(victim == decoded);
}

#[test]
fn test_magic() {
    let doc_id = 1234;
    let freq = 5;
    let mut buffer: VecDeque<u8> = VecDeque::new();
    let bytes = encode_magic(doc_id, freq, &mut buffer);
    println!(
        "Docid {} Freq {} encoded {:?} bytes {}",
        doc_id, freq, &buffer, bytes
    );
    let (decoded_doc_id, decoded_freq) = decode_magic(&mut buffer);
    println!("Docid {} Freq{}", decoded_doc_id, decoded_freq);
    assert!(doc_id == decoded_doc_id);
    assert!(freq == decoded_freq);
}

#[test]
fn vbyte_boundary_lengths() {
    let cases: [(u32, usize); 5] = [(0, 1), (127, 1), (128, 2), (16383, 2), (16384, 3)];
    for (value, expected_len) in cases {
        assert_eq!(vbyte_bytes_required(value), expected_len);
        let mut buffer: VecDeque<u8> = VecDeque::new();
        let written = vbyte_encode(value, &mut buffer);
        assert_eq!(written, expected_len);
        assert_eq!(buffer.len(), expected_len);
        let (decoded, consumed) = vbyte_decode(&mut buffer);
        assert_eq!(decoded, value);
        assert_eq!(consumed, expected_len);
        assert!(buffer.is_empty());
    }
}

#[test]
fn vbyte_round_trips_many() {
    for value in [
        0u32,
        1,
        7,
        127,
        128,
        300,
        16384,
        2097151,
        2097152,
        268435455,
        268435456,
        u32::MAX,
    ] {
        let mut buffer: VecDeque<u8> = VecDeque::new();
        vbyte_encode(value, &mut buffer);
        let (decoded, _) = vbyte_decode(&mut buffer);
        assert_eq!(decoded, value);
    }
}

#[test]
fn magic_small_freq_single_byte() {
    // gap 2, freq 1 encodes in one vbyte whose value is 5
    let mut buffer: VecDeque<u8> = VecDeque::new();
    let bytes = encode_magic(2, 1, &mut buffer);
    assert_eq!(bytes, 1);
    assert_eq!(buffer[0], 5);
    let (g, f) = decode_magic(&mut buffer);
    assert_eq!((g, f), (2, 1));
}

#[test]
fn magic_large_freq_two_vbytes() {
    // freq at the base emits two vbytes
    let mut buffer: VecDeque<u8> = VecDeque::new();
    let bytes = encode_magic(1, 4, &mut buffer);
    assert_eq!(bytes, 2);
    assert_eq!(magic_bytes_required(1, 4), 2);
    let (g, f) = decode_magic(&mut buffer);
    assert_eq!((g, f), (1, 4));
}

#[test]
fn magic_round_trips_many() {
    for (g, f) in [
        (1u32, 1u32),
        (1, 3),
        (1, 4),
        (1, 1000),
        (5, 2),
        (1000, 7),
        (1, u32::MAX),
        (0x3fffffff, 3),
    ] {
        let mut buffer: VecDeque<u8> = VecDeque::new();
        encode_magic(g, f, &mut buffer);
        let (dg, df) = decode_magic(&mut buffer);
        assert_eq!((dg, df), (g, f));
    }
}

#[test]
fn buffer_write_then_read() {
    let mut buf = VbyteEncodedBuffer::new_with_capacity(16);
    let w1 = buf.write(5);
    let w2 = buf.write(300);
    let w3 = buf.write(0);
    assert_eq!((w1, w2, w3), (1, 2, 1));
    assert_eq!(buf.tell(), 4);
    buf.seek(0);
    assert_eq!(buf.read(), Ok(5));
    assert_eq!(buf.read(), Ok(300));
    assert_eq!(buf.read(), Ok(0));
}

#[test]
fn magic_buffer_gap_encoding() {
    let mut buf = MagicEncodedBuffer::new_with_capacity(32);
    buf.write(3, 1);
    buf.write(7, 4);
    buf.write(8, 2);
    buf.reset();
    assert_eq!(buf.read(), (3, 1));
    assert_eq!(buf.read(), (7, 4));
    assert_eq!(buf.read(), (8, 2));
}

#[test]
fn buffer_read_off_end_is_error() {
    let mut buf = VbyteEncodedBuffer::new(vec![]);
    assert!(buf.read().is_err());
    // a run of continuation bytes never terminates a value
    let mut buf = VbyteEncodedBuffer::new(vec![0x80, 0x80, 0x80, 0x80, 0x80, 0x80]);
    assert!(buf.read().is_err());
}
