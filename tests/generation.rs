use pwgen::classes::{class_pool, pools_valid};
use pwgen::generator::{eligible_chars, select_char};
use pwgen::{CharClass, Generator, GeneratorError, UniqueSet};

fn class_of(b: u8) -> Option<CharClass> {
    for c in [CharClass::Upper, CharClass::Lower, CharClass::Digit, CharClass::Special] {
        if class_pool(c).contains(&b) {
            return Some(c);
        }
    }
    None
}

fn assert_policy(pw: &str, length: usize) {
    let bytes = pw.as_bytes();
    assert_eq!(pw.chars().count(), length);
    assert_eq!(bytes.len(), length);
    let classes: Vec<CharClass> = bytes.iter().map(|b| class_of(*b).expect("byte outside the pools")).collect();
    for c in [CharClass::Upper, CharClass::Lower, CharClass::Digit, CharClass::Special] {
        assert!(classes.contains(&c), "class {:?} missing from {}", c, pw);
    }
    for w in classes.windows(2) {
        assert_ne!(w[0], w[1], "adjacent characters of one class in {}", pw);
    }
    for i in 0..bytes.len() {
        for j in (i + 1)..bytes.len() {
            assert_ne!(bytes[i].to_ascii_lowercase(), bytes[j].to_ascii_lowercase(), "repeat in {}", pw);
        }
    }
}

#[test]
fn length_sixteen_with_default_settings() {
    let mut g = Generator::default();
    let a = g.generate(16).expect("length 16 succeeds");
    assert_policy(&a, 16);
    let b = g.generate(16).expect("length 16 succeeds");
    assert_policy(&b, 16);
    assert_ne!(a, b);
    assert!(g.draws() >= 64);
    assert!(g.successes() == 2);
}

#[test]
fn every_success_meets_the_policy() {
    let mut g = Generator::new(Some(256));
    for length in 16..=48usize {
        for _ in 0..5 {
            match g.generate(length) {
                Ok(pw) => assert_policy(&pw, length),
                Err(GeneratorError::RetryBoundExhausted(b)) => assert_eq!(b, 256),
                Err(e) => panic!("unexpected error {:?} for length {}", e, length),
            }
        }
    }
}

#[test]
fn lengths_below_minimum_fail_without_drawing() {
    let mut g = Generator::new(None);
    for length in 0..16usize {
        assert_eq!(g.generate(length), Err(GeneratorError::LengthBelowMinimum));
    }
    assert_eq!(g.draws(), 0);
    assert_eq!(g.attempts(), 0);
}

#[test]
fn lengths_above_capacity_fail_without_drawing() {
    let mut g = Generator::new(Some(5));
    for length in [91usize, 92, 200, usize::MAX] {
        assert_eq!(g.generate(length), Err(GeneratorError::LengthExceedsCapacity));
    }
    assert_eq!(g.draws(), 0);
    assert_eq!(g.attempts(), 0);
}

#[test]
fn length_ninety_one_is_over_capacity() {
    let mut g = Generator::default();
    assert_eq!(g.generate(91), Err(GeneratorError::LengthExceedsCapacity));
    assert_eq!(g.draws(), 0);
}

#[test]
fn length_ninety_is_not_refused_for_capacity() {
    let mut g = Generator::new(Some(50));
    match g.generate(90) {
        Ok(pw) => assert_policy(&pw, 90),
        Err(e) => assert_eq!(e, GeneratorError::RetryBoundExhausted(50)),
    }
    assert!(g.attempts() >= 1);
}

#[test]
fn single_retry_at_capacity_reports_exhaustion() {
    let mut g = Generator::new(Some(1));
    let mut exhausted = 0;
    for _ in 0..20 {
        match g.generate(90) {
            Ok(pw) => assert_policy(&pw, 90),
            Err(e) => {
                assert_eq!(e, GeneratorError::RetryBoundExhausted(1));
                exhausted += 1;
            }
        }
    }
    assert!(exhausted > 0);
    assert_eq!(g.attempts(), 20);
}

#[test]
fn zero_retries_exhaust_at_once() {
    let mut g = Generator::new(Some(0));
    assert_eq!(g.generate(16), Err(GeneratorError::RetryBoundExhausted(0)));
    assert_eq!(g.attempts(), 0);
    assert_eq!(g.draws(), 0);
}

#[test]
fn adaptive_generator_counts_attempts() {
    let mut g = Generator::new(None);
    assert_eq!(g.retry_bound(16), 32);
    let pw = g.generate(20).expect("length 20 succeeds");
    assert_policy(&pw, 20);
    assert_eq!(g.successes(), 1);
    assert!(g.attempts() >= 1);
    assert_eq!(g.max_retries(), None);
}

#[test]
fn explicit_ceiling_is_the_bound() {
    let g = Generator::new(Some(7));
    assert_eq!(g.retry_bound(16), 7);
    assert_eq!(g.retry_bound(90), 7);
    assert_eq!(Generator::default().max_retries(), Some(256));
}

#[test]
fn pools_are_valid_and_sized() {
    assert!(pools_valid());
    assert_eq!(class_pool(CharClass::Upper).len(), 26);
    assert_eq!(class_pool(CharClass::Lower).len(), 26);
    assert_eq!(class_pool(CharClass::Digit).len(), 10);
    assert_eq!(class_pool(CharClass::Special).len(), 28);
    assert_eq!(class_pool(CharClass::Digit), b"0123456789".to_vec());
}

#[test]
fn eligible_characters_skip_used_folds() {
    let mut used = UniqueSet::new();
    assert_eq!(eligible_chars(CharClass::Digit, &used), b"0123456789".to_vec());
    used.insert(b'0');
    used.insert(b'5');
    used.insert(b'b');
    assert_eq!(eligible_chars(CharClass::Digit, &used), b"12346789".to_vec());
    let upper = eligible_chars(CharClass::Upper, &used);
    assert_eq!(upper.len(), 25);
    assert!(!upper.contains(&b'B'));
    assert_eq!(upper[1], b'C');
    let digits = eligible_chars(CharClass::Digit, &used);
    assert_eq!(select_char(&digits, 0), Some(b'1'));
    assert_eq!(select_char(&digits, 9), Some(b'2'));
    assert_eq!(select_char(&Vec::new(), 9), None);
}

#[test]
fn success_counts_one_success_and_bounded_work() {
    let mut g = Generator::new(Some(256));
    let pw = g.generate(16).expect("length 16 succeeds");
    assert_policy(&pw, 16);
    assert_eq!(g.successes(), 1);
    assert!(g.attempts() >= 1 && g.attempts() <= 256);
    assert!(g.draws() >= 32 && g.draws() <= 2 * 16 * g.attempts());
}
