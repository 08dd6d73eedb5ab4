use mnemonic_worker::codec::{decode, recombine, WorkAssignment};
use mnemonic_worker::errors::WorkerError;

#[test]
fn decode_two_digit_scenario() {
    // digits [5, 10], offset 0: start = 5 << 117 | 10 << 106.
    let a = WorkAssignment { digits: vec![5, 10], offset: 0, batch_size: 1 };
    let r = decode(&a).unwrap();
    assert_eq!(r.start_hi, (5u64 << 53) | (10u64 << 42));
    assert_eq!(r.start_hi, 45079976738816000);
    assert_eq!(r.start_lo, 0);
    assert_eq!(r.batch_size, 1);
    assert_eq!(r.offset, 0);
}

#[test]
fn decode_adds_offset() {
    let a = WorkAssignment { digits: vec![5, 10], offset: 7, batch_size: 64 };
    let r = decode(&a).unwrap();
    assert_eq!(r.start_hi, 45079976738816000);
    assert_eq!(r.start_lo, 7);
    assert_eq!(r.offset, 7);
    assert_eq!(r.batch_size, 64);
}

#[test]
fn decode_empty_digits_is_offset() {
    let a = WorkAssignment { digits: vec![], offset: 42, batch_size: 1 };
    let r = decode(&a).unwrap();
    assert_eq!(r.start_hi, 0);
    assert_eq!(r.start_lo, 42);
}

#[test]
fn decode_eleven_max_digits() {
    // Eleven digits of 2047 pack to 2^128 - 2^7: the largest packable value.
    let a = WorkAssignment { digits: vec![2047; 11], offset: 0, batch_size: 1 };
    let r = decode(&a).unwrap();
    let expected = u128::MAX - 127;
    assert_eq!(recombine(r.start_hi, r.start_lo), expected);
    // The remaining headroom of 127 still fits ...
    let a2 = WorkAssignment { digits: vec![2047; 11], offset: 127, batch_size: 1 };
    let r2 = decode(&a2).unwrap();
    assert_eq!(recombine(r2.start_hi, r2.start_lo), u128::MAX);
    // ... and one more overflows.
    let a3 = WorkAssignment { digits: vec![2047; 11], offset: 128, batch_size: 1 };
    assert_eq!(decode(&a3), Err(WorkerError::EncodingOverflow));
}

#[test]
fn decode_overflow_is_rejected() {
    let a = WorkAssignment { digits: vec![2047], offset: u128::MAX, batch_size: 1 };
    assert_eq!(decode(&a), Err(WorkerError::EncodingOverflow));
}

#[test]
fn decode_too_many_digits_is_rejected() {
    let a = WorkAssignment { digits: vec![0; 12], offset: 0, batch_size: 1 };
    assert_eq!(decode(&a), Err(WorkerError::EncodingOverflow));
}

#[test]
fn round_trip_reproduces_packed_value() {
    // Reference packing computed independently with 128-bit shifts.
    let digits: Vec<u16> = vec![1, 2047, 0, 33, 900];
    let offset: u128 = 123456789123456789;
    let mut expected: u128 = 0;
    let mut shift = 128;
    for d in &digits {
        shift -= 11;
        expected |= (*d as u128) << shift;
    }
    expected += offset;
    let a = WorkAssignment { digits, offset, batch_size: 2 };
    let r = decode(&a).unwrap();
    assert_eq!(recombine(r.start_hi, r.start_lo), expected);
}

#[test]
fn recombine_splits_at_bit_64() {
    assert_eq!(recombine(1, 5), (1u128 << 64) + 5);
    assert_eq!(recombine(0, u64::MAX), u64::MAX as u128);
    assert_eq!(recombine(u64::MAX, u64::MAX), u128::MAX);
}
