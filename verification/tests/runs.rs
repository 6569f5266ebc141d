//! Decoding run lists.

use diskbytes_core::turbo::runs::{decode_run_list, RunEntry, RunError};

#[test]
fn simple_two_runs() {
    // header 0x21: length 1 byte, offset 2 bytes (signed).
    // Run 1: length 5, delta +0x100. Run 2: length 3, delta +0x40.
    let bytes: Vec<u8> = vec![
        0x21, 0x05, 0x00, 0x01, // len 5, delta 256
        0x21, 0x03, 0x40, 0x00, // len 3, delta 64
        0x00,
    ];
    let runs = decode_run_list(&bytes, 0, bytes.len(), 0, 7).unwrap();
    assert_eq!(runs.len(), 2);
    assert_eq!(runs[0].length, 5);
    assert_eq!(runs[0].lcn, Some(256));
    assert_eq!(runs[1].length, 3);
    assert_eq!(runs[1].lcn, Some(256 + 64));
}

#[test]
fn negative_delta_goes_backwards() {
    // First run at +0x40, second with delta -0x10 (sign-extended 1 byte).
    let bytes: Vec<u8> = vec![
        0x11, 0x04, 0x40, // len 4, delta 64 (1-byte offset)
        0x11, 0x02, 0xF0, // len 2, delta -16 (0xF0 sign-extends)
        0x00,
    ];
    let runs = decode_run_list(&bytes, 0, bytes.len(), 0, 5).unwrap();
    assert_eq!(runs[1].lcn, Some(64 - 16));
}

#[test]
fn sparse_run_has_no_lcn() {
    // header 0x01: length 1 byte, NO offset field → sparse.
    let bytes: Vec<u8> = vec![0x01, 0x08, 0x00];
    let runs = decode_run_list(&bytes, 0, bytes.len(), 0, 7).unwrap();
    assert_eq!(runs.len(), 1);
    assert_eq!(runs[0].lcn, None);
    assert_eq!(runs[0].length, 8);
}

#[test]
fn trailing_hole_becomes_sparse() {
    // One run of 2 clusters but the VCN span says 5 → sparse tail of 3.
    let bytes: Vec<u8> = vec![0x11, 0x02, 0x10, 0x00];
    let runs = decode_run_list(&bytes, 0, bytes.len(), 0, 4).unwrap();
    assert_eq!(runs.len(), 2);
    assert_eq!(runs[0].lcn, Some(16));
    assert_eq!(runs[1].lcn, None);
    assert_eq!(runs[1].length, 3);
}

#[test]
fn terminator_stops() {
    let bytes: Vec<u8> = vec![0x11, 0x02, 0x10, 0x00, 0x11, 0x02, 0x10];
    let runs = decode_run_list(&bytes, 0, bytes.len(), 0, 1).unwrap();
    assert_eq!(runs.len(), 1);
}

#[test]
fn bad_widths_are_skipped_not_fatal() {
    // 0x99: both widths "9" (invalid) → skip 18 bytes to the terminator.
    let mut bytes = vec![0x99];
    bytes.extend(std::iter::repeat_n(0u8, 18));
    bytes.push(0x00);
    let runs = decode_run_list(&bytes, 0, bytes.len(), 0, 0).unwrap();
    // The VCN span 0..0 = one cluster of trailing hole (sparse) at
    // most — never a located run.
    assert!(runs.iter().all(|r| r.lcn.is_none()));
    assert!(runs.len() <= 1);
}

#[test]
fn overrun_detected() {
    // Claims a 4-byte length but the buffer ends.
    let bytes: Vec<u8> = vec![0x40, 0x01];
    assert!(decode_run_list(&bytes, 0, bytes.len(), 0, 4).is_err());
}

/// Each run starts where the runs before it end.
#[test]
fn runs_follow_each_other() {
    let bytes: Vec<u8> = vec![
        0x11, 0x04, 0x40, // len 4 at 64
        0x01, 0x02, // len 2, sparse
        0x11, 0x03, 0x10, // len 3 at 80
        0x00,
    ];
    let runs = decode_run_list(&bytes, 0, bytes.len(), 10, 20).unwrap();
    assert_eq!(
        runs,
        vec![
            RunEntry { length: 4, lcn: Some(64), first_vcn: 10 },
            RunEntry { length: 2, lcn: None, first_vcn: 14 },
            RunEntry { length: 3, lcn: Some(80), first_vcn: 16 },
            RunEntry { length: 2, lcn: None, first_vcn: 19 },
        ]
    );
}

/// A list that starts or ends inside the buffer is read within its bounds.
#[test]
fn fields_stay_within_the_attribute() {
    let bytes: Vec<u8> = vec![0xEE, 0x21, 0x05, 0x00, 0x01, 0x00];
    let runs = decode_run_list(&bytes, 1, 6, 0, 4).unwrap();
    assert_eq!(runs, vec![RunEntry { length: 5, lcn: Some(256), first_vcn: 0 }]);
    // The second offset byte stands behind the end.
    assert_eq!(decode_run_list(&bytes, 1, 4, 0, 4), Err(RunError::Overrun));
}

/// A run that is longer than what is left of the span is dropped, and does not
/// move the position of the next one.
#[test]
fn runs_beyond_the_span_are_dropped() {
    let bytes: Vec<u8> = vec![0x11, 0x0A, 0x40, 0x11, 0x03, 0x10, 0x00];
    let runs = decode_run_list(&bytes, 0, bytes.len(), 0, 3).unwrap();
    assert_eq!(
        runs,
        vec![
            RunEntry { length: 3, lcn: Some(16), first_vcn: 0 },
            RunEntry { length: 1, lcn: None, first_vcn: 3 },
        ]
    );
    // A span that is out of order has no clusters.
    assert_eq!(decode_run_list(&bytes, 0, bytes.len(), 5, 3), Ok(vec![]));
}

/// A run whose position leaves its range is dropped, but its clusters stay
/// claimed.
#[test]
fn runs_out_of_range_keep_their_clusters() {
    let mut bytes: Vec<u8> = vec![0x81, 0x02];
    bytes.extend(i64::MAX.to_le_bytes());
    bytes.extend([0x11, 0x03, 0x01, 0x01, 0x04, 0x00]);
    let runs = decode_run_list(&bytes, 0, bytes.len(), 0, 9).unwrap();
    assert_eq!(
        runs,
        vec![
            RunEntry { length: 2, lcn: Some(i64::MAX), first_vcn: 0 },
            RunEntry { length: 4, lcn: None, first_vcn: 5 },
            RunEntry { length: 1, lcn: None, first_vcn: 9 },
        ]
    );
}

/// Any bytes decode to runs inside the span or to an error.
#[test]
fn arbitrary_bytes_never_panic() {
    let mut state: u64 = 0x9E37_79B9_7F4A_7C15;
    for round in 0..2000u64 {
        let mut bytes: Vec<u8> = Vec::new();
        for _ in 0..(round % 64) {
            state = state
                .wrapping_mul(6_364_136_223_846_793_005)
                .wrapping_add(1_442_695_040_888_963_407);
            bytes.push((state >> 33) as u8);
        }
        let last = if round % 2 == 0 { u64::MAX } else { 1000 };
        if let Ok(runs) = decode_run_list(&bytes, 0, bytes.len(), 0, last) {
            let mut vcn: u128 = 0;
            for r in &runs {
                assert!(r.length > 0);
                assert!(u128::from(r.first_vcn) >= vcn);
                vcn = u128::from(r.first_vcn) + u128::from(r.length);
            }
            assert!(vcn <= u128::from(last) + 1);
        }
    }
}

/// An item of length zero is skipped with its offset, and reading goes on behind
/// it.
#[test]
fn empty_runs_are_skipped_as_a_whole() {
    let bytes: Vec<u8> = vec![0x11, 0x00, 0x00, 0x11, 0x02, 0x10, 0x00];
    assert_eq!(
        decode_run_list(&bytes, 0, 7, 0, 1),
        Ok(vec![RunEntry { length: 2, lcn: Some(16), first_vcn: 0 }])
    );
    // Its offset does not move the next run.
    let bytes: Vec<u8> = vec![0x21, 0x00, 0x11, 0x22, 0x11, 0x02, 0x10, 0x00];
    assert_eq!(
        decode_run_list(&bytes, 0, bytes.len(), 0, 1),
        Ok(vec![RunEntry { length: 2, lcn: Some(16), first_vcn: 0 }])
    );
    // An offset that is not all there is an error here too.
    assert_eq!(decode_run_list(&[0x21, 0x00, 0x11], 0, 3, 0, 1), Err(RunError::Overrun));
    // A start behind the end is an empty list.
    assert_eq!(
        decode_run_list(&[0x21], 9, 1, 4, 5),
        Ok(vec![RunEntry { length: 2, lcn: None, first_vcn: 4 }])
    );
}
