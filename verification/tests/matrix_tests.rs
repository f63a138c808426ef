use dither_core::matrix::is_supported_size;
use dither_core::matrix::threshold_matrix;
use dither_core::ConfigurationError;
use dither_core::DitherError;

fn matrix_is_permutation(m: &[u16], n: usize) -> bool {
    if m.len() != n * n {
        return false;
    }
    let mut seen = vec![false; n * n];
    for &v in m {
        let v = v as usize;
        if v >= n * n || seen[v] {
            return false;
        }
        seen[v] = true;
    }
    seen.iter().all(|&s| s)
}

#[test]
fn matrix_2x2_is_published_table() {
    let m = threshold_matrix(2).unwrap();
    assert_eq!(m, vec![0, 3, 2, 1]);
}

#[test]
fn matrix_4x4_is_published_table() {
    let m = threshold_matrix(4).unwrap();
    let expected: Vec<u16> = vec![0, 8, 2, 10, 12, 4, 14, 6, 3, 11, 1, 9, 15, 7, 13, 5];
    assert_eq!(m, expected);
}

#[test]
fn matrix_8x8_is_published_table() {
    let m = threshold_matrix(8).unwrap();
    let expected: Vec<u16> = vec![
        0, 32, 8, 40, 2, 34, 10, 42, 48, 16, 56, 24, 50, 18, 58, 26, 12, 44, 4, 36, 14, 46, 6, 38,
        60, 28, 52, 20, 62, 30, 54, 22, 3, 35, 11, 43, 1, 33, 9, 41, 51, 19, 59, 27, 49, 17, 57,
        25, 15, 47, 7, 39, 13, 45, 5, 37, 63, 31, 55, 23, 61, 29, 53, 21,
    ];
    assert_eq!(m, expected);
}

#[test]
fn every_supported_matrix_is_a_permutation() {
    for &n in &[2usize, 4, 8, 16, 32, 64] {
        let m = threshold_matrix(n).unwrap();
        assert!(matrix_is_permutation(&m, n), "size {} is not a permutation", n);
    }
}

#[test]
fn supported_size_check_matches_provider() {
    for n in 0..130usize {
        assert_eq!(is_supported_size(n), threshold_matrix(n).is_ok());
    }
}

#[test]
fn unsupported_sizes_fail_with_configuration_error() {
    for &n in &[0usize, 1, 3, 5, 6, 7, 9, 15, 17, 63, 65, 128, 1000] {
        match threshold_matrix(n) {
            Err(DitherError::Configuration(ConfigurationError::UnsupportedMatrixSize)) => {},
            other => panic!("size {} gave {:?}", n, other),
        }
    }
}
