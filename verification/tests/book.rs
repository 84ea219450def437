use gqodb::book::{decode, encode};

fn fix_crc(bytes: &mut [u8]) {
    let end = bytes.len() - 4;
    let crc = crc32fast::hash(&bytes[..end]);
    bytes[end..].copy_from_slice(&crc.to_le_bytes());
}

#[test]
fn exact_extremes_runs_empty_and_high_entropy() {
    let mut seed = 7u64;
    let random = (0..4097)
        .map(|_| {
            seed ^= seed << 13;
            seed ^= seed >> 7;
            seed ^= seed << 17;
            seed as i64
        })
        .collect();
    for values in [
        vec![vec![]],
        vec![vec![i64::MIN, i64::MAX, -1, 0]],
        vec![vec![i64::MIN; 4097], (0..4097).map(|i| i / 50).collect(), random],
    ] {
        let bytes = encode(&values).unwrap();
        assert_eq!(decode(&bytes, &mut Vec::new()).unwrap(), values);
    }
}

#[test]
fn every_byte_width_and_run_boundary_roundtrips() {
    for width in 1..=8 {
        for rows in [1, 3, 4, 127, 128, 129, 513] {
            let high = if width == 8 { i64::MAX } else { (1i64 << (width * 8)) - 1 };
            let values = vec![
                (0..rows).map(|i| [0, 1, high][i % 3]).collect(),
                (0..rows).map(|i| if i < rows / 2 { i64::MIN } else { i64::MAX }).collect(),
            ];
            assert_eq!(decode(&encode(&values).unwrap(), &mut Vec::new()).unwrap(), values);
        }
    }
}

#[test]
fn truncation_corruption_and_forged_structure_fail() {
    let bytes = encode(&vec![vec![42; 32]]).unwrap();
    for n in 0..bytes.len() {
        assert!(decode(&bytes[..n], &mut Vec::new()).is_err());
    }
    for i in 0..bytes.len() {
        let mut bad = bytes.clone();
        bad[i] ^= 1;
        assert!(decode(&bad, &mut Vec::new()).is_err());
    }
    for (offset, value) in [(16, 2), (17, 9), (18, 2), (19, 1), (20, 0), (32, 0), (40, 255)] {
        let mut bad = bytes.clone();
        bad[offset] = value;
        fix_crc(&mut bad);
        assert!(decode(&bad, &mut Vec::new()).is_err(), "offset {offset}");
    }
    let mut bad = bytes.clone();
    assert_eq!(bad[18], 0);
    bad[44] = 33;
    fix_crc(&mut bad);
    assert!(decode(&bad, &mut Vec::new()).is_err());
}
