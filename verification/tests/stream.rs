use allockator::bytes::{from_le_bytes, read_u128, read_u16};
use allockator::stream::InputStream;

#[test]
fn reads_fill_up_with_zeros() {
    let mut stream = InputStream::new(&[1, 2, 3]);
    let mut buf = [9; 2];
    assert_eq!(stream.read(&mut buf), 2);
    assert_eq!(buf, [1, 2]);
    let mut buf = [9; 4];
    assert_eq!(stream.read(&mut buf), 1);
    assert_eq!(buf, [3, 0, 0, 0]);
    assert_eq!(stream.read(&mut buf), 0);
    assert_eq!(buf, [0, 0, 0, 0]);
}

#[test]
fn an_empty_read_takes_nothing() {
    let mut stream = InputStream::new(&[7]);
    assert_eq!(stream.read(&mut []), 0);
    assert_eq!(stream.read_u8(), Some(7));
}

#[test]
fn single_bytes_end_with_none() {
    let mut stream = InputStream::new(&[0, 255]);
    assert_eq!(stream.read_u8(), Some(0));
    assert_eq!(stream.read_u8(), Some(255));
    assert_eq!(stream.read_u8(), None);
    assert_eq!(stream.read_u8(), None);
}

#[test]
fn single_bytes_can_end_with_zero() {
    let mut stream = InputStream::new(&[5]);
    assert_eq!(stream.read_u8_zeroing(), 5);
    assert_eq!(stream.read_u8_zeroing(), 0);
    assert_eq!(stream.read_u8(), None);
}

#[test]
fn a_copy_reads_on_by_itself() {
    let mut stream = InputStream::new(&[1, 2, 3]);
    assert_eq!(stream.read_u8(), Some(1));
    let mut copy = stream.clone();
    assert_eq!(stream.read_u8(), Some(2));
    assert_eq!(copy.read_u8(), Some(2));
    assert_eq!(copy.read_u8(), Some(3));
    assert_eq!(stream.read_u8(), Some(3));
}

#[test]
fn two_reads_are_as_good_as_one() {
    let data: Vec<u8> = (1..=10).collect();
    for first in 0..12 {
        for second in 0..12 {
            let mut whole = vec![99; first + second];
            let mut stream = InputStream::new(&data);
            let count = stream.read(&mut whole);
            let mut head = vec![99; first];
            let mut tail = vec![99; second];
            let mut parts = InputStream::new(&data);
            let sum = parts.read(&mut head) + parts.read(&mut tail);
            head.extend(tail);
            assert_eq!(head, whole);
            assert_eq!(sum, count);
            assert_eq!(parts.read_u8(), stream.read_u8());
        }
    }
}

#[test]
fn numbers_have_their_least_byte_first() {
    assert_eq!(from_le_bytes(&[]), 0);
    assert_eq!(from_le_bytes(&[1, 2]), 0x201);
    assert_eq!(from_le_bytes(&[255; 16]), u128::MAX);
    let bytes = 0x0123_4567_89ab_cdef_0011_2233_4455_6677_u128.to_le_bytes();
    assert_eq!(from_le_bytes(&bytes), 0x0123_4567_89ab_cdef_0011_2233_4455_6677);
    let mut stream = InputStream::new(&[0x34, 0x12, 7]);
    assert_eq!(read_u16(&mut stream), 0x1234);
    assert_eq!(read_u128(&mut stream), 7);
    assert_eq!(read_u16(&mut stream), 0);
}
