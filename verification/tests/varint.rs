use lifthrasiir::reader::{ByteReader, UnexpectedEof};
use lifthrasiir::varint::{read_varint, unzigzag, write_varint, zigzag};

fn written(value: u64) -> Vec<u8> {
    let mut buf = Vec::new();
    write_varint(&mut buf, value);
    buf
}

#[test]
fn test_varint() {
    let values = vec![0, 1, 127, 128, 16383, 16384, 1000000];

    for value in values {
        let mut buf = Vec::new();
        write_varint(&mut buf, value);
        let mut cursor = ByteReader::new(&buf);
        assert_eq!(read_varint(&mut cursor).unwrap(), value);
    }
}

#[test]
fn varint_lengths() {
    for n in 1..9usize {
        let largest = (1u64 << (7 * n)) - 1;
        assert_eq!(written(largest).len(), n);
        assert_eq!(written(largest + 1).len(), n + 1);
    }
    assert_eq!(written(u64::MAX).len(), 9);
}

#[test]
fn varint_layout() {
    assert_eq!(written(5), vec![5]);
    assert_eq!(written(0x1234), vec![0x92, 0x34]);
    assert_eq!(written(0x123456), vec![0xd2, 0x34, 0x56]);
    assert_eq!(written(0x80_0000_0000_0000), vec![0xfe, 0x80, 0, 0, 0, 0, 0, 0]);
    assert_eq!(
        written(0x0123_4567_89ab_cdef),
        vec![0xff, 0x01, 0x23, 0x45, 0x67, 0x89, 0xab, 0xcd, 0xef]
    );
}

#[test]
fn varint_roundtrip_at_all_sizes() {
    for shift in 0..64 {
        for value in [1u64 << shift, (1u64 << shift) - 1, (1u64 << shift) | 1] {
            let mut buf = written(value);
            buf.push(77);
            let mut reader = ByteReader::new(&buf);
            assert_eq!(read_varint(&mut reader), Ok(value));
            assert_eq!(reader.read_byte(), Ok(77));
        }
    }
}

#[test]
fn varint_cut_short() {
    for value in [0u64, 300, 1 << 40, u64::MAX] {
        let buf = written(value);
        for len in 0..buf.len() {
            let mut reader = ByteReader::new(&buf[..len]);
            assert_eq!(read_varint(&mut reader), Err(UnexpectedEof));
        }
    }
}

#[test]
fn zigzag_values() {
    assert_eq!(zigzag(0), 0);
    assert_eq!(zigzag(-1), 1);
    assert_eq!(zigzag(1), 2);
    assert_eq!(zigzag(-2), 3);
    assert_eq!(zigzag(2), 4);
    assert_eq!(zigzag(i64::MAX), u64::MAX - 1);
    assert_eq!(zigzag(i64::MIN), u64::MAX);
}

#[test]
fn zigzag_roundtrip() {
    for n in [0, 1, -1, 77, -77, i64::MAX, i64::MIN, 1 << 40, -(1 << 40)] {
        assert_eq!(unzigzag(zigzag(n)), n);
    }
    for z in [0, 1, 2, 3, u64::MAX, u64::MAX - 1, 1 << 63] {
        assert_eq!(zigzag(unzigzag(z)), z);
    }
}

#[test]
fn varint_bytes_are_ordered() {
    let mut values: Vec<u64> = vec![0, 1, 2, 255, 256, 257, u64::MAX];
    for k in 1..10 {
        let edge = if k == 9 { u64::MAX - 1 } else { 1u64 << (7 * k) };
        values.extend([edge - 1, edge, edge + 1]);
    }
    for &a in &values {
        for &b in &values {
            assert_eq!(a < b, written(a) < written(b));
            assert_eq!(a == b, written(b).starts_with(&written(a)));
        }
    }
}
