use gqodb::adaptive::unpack;
use gqodb::block::{restore, Layout};

#[test]
fn rejects_invalid_transforms() {
    assert!(restore(&[0; 7], 1, Layout::Varint).is_err());
    let mut malformed = vec![0; 8];
    malformed.extend([255; 10]);
    assert!(restore(&malformed, 2, Layout::Varint).is_err());
    let mut malformed = vec![0; 8];
    malformed.push(65);
    assert!(restore(&malformed, 2, Layout::Bitpack).is_err());
    assert!(restore(&[1], 0, Layout::Raw).is_err());
}

#[test]
fn malformed_simd_groups_fail_before_library_call() {
    for width in 33..255 {
        assert!(unpack(&[width], 1, 0, 1).is_err());
    }
    assert!(unpack(&[32, 0], 128, 0, 1).is_err());
    assert!(unpack(&[255, 0], 1, 0, 1).is_err());
    assert!(unpack(&[0], 1, 0, 0).is_err());
    assert!(unpack(&[0, 0], 1, 0, 1).is_err());
}
