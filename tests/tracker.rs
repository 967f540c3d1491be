use pwgen::classes::{ascii_lower, unique_ascii_case_insensitive};
use pwgen::uniqueness::{detect_backend, insert_scalar, insert_wide};
use pwgen::{Backend, UniqueSet};

fn stream(seed: u64, n: usize) -> Vec<u8> {
    let mut x = seed;
    let mut out = Vec::new();
    for _ in 0..n {
        x = x.wrapping_mul(6364136223846793005).wrapping_add(1442695040888963407);
        out.push((x >> 56) as u8);
    }
    out
}

#[test]
fn backends_agree_on_replayed_streams() {
    for seed in 0..8u64 {
        let vs = stream(seed, 600);
        let mut a = UniqueSet::with_backend(Backend::Scalar);
        let mut b = UniqueSet::with_backend(Backend::Wide);
        for v in &vs {
            assert_eq!(a.insert(*v), b.insert(*v));
            for w in 0..=255u8 {
                assert_eq!(a.contains(w), b.contains(w));
            }
        }
    }
}

#[test]
fn insert_all_answers_match_single_inserts() {
    let vs = stream(42, 300);
    let mut a = UniqueSet::with_backend(Backend::Scalar);
    let mut b = UniqueSet::with_backend(Backend::Wide);
    let ra = a.insert_all(&vs);
    let rb = b.insert_all(&vs);
    assert_eq!(ra, rb);
    let mut seen = [false; 256];
    for (i, v) in vs.iter().enumerate() {
        assert_eq!(ra[i], !seen[*v as usize]);
        seen[*v as usize] = true;
    }
}

#[test]
fn insert_reports_first_time_only() {
    let mut s = UniqueSet::new();
    assert_eq!(s.backend(), detect_backend());
    assert!(!s.contains(0));
    assert!(s.insert(0));
    assert!(!s.insert(0));
    assert!(s.insert(255));
    assert!(s.insert(7));
    assert!(s.insert(8));
    assert!(!s.insert(255));
    assert!(s.contains(7) && s.contains(8) && !s.contains(9));
}

#[test]
fn raw_bitmaps_set_the_expected_bit() {
    let mut bytes = [0u8; 32];
    assert!(insert_scalar(&mut bytes, 10));
    assert_eq!(bytes[1], 0b100);
    assert!(!insert_scalar(&mut bytes, 10));
    let mut words = [0u64; 4];
    assert!(insert_wide(&mut words, 130));
    assert_eq!(words[2], 0b100);
    assert!(!insert_wide(&mut words, 130));
}

#[test]
fn folding_and_uniqueness_check() {
    assert_eq!(ascii_lower(b'A'), b'a');
    assert_eq!(ascii_lower(b'Z'), b'z');
    assert_eq!(ascii_lower(b'a'), b'a');
    assert_eq!(ascii_lower(b'@'), b'@');
    assert_eq!(ascii_lower(b'['), b'[');
    assert!(unique_ascii_case_insensitive(&b"ABCDEFGHIJKLMNOPQRSTUVWXYZ".to_vec()));
    assert!(unique_ascii_case_insensitive(&b"0123456789".to_vec()));
    assert!(!unique_ascii_case_insensitive(&b"xyzX".to_vec()));
    assert!(unique_ascii_case_insensitive(&Vec::new()));
}
