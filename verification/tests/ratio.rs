use fon::{gcd, simplify, ConfigurationError};

#[test]
fn simplify_cd_rate_to_dat_rate() {
    assert_eq!(simplify(48000, 44100), Ok((160, 147)));
    assert_eq!(simplify(44100, 48000), Ok((147, 160)));
}

#[test]
fn simplify_rejects_zero_terms() {
    assert_eq!(simplify(0, 44100), Err(ConfigurationError::ZeroRate));
    assert_eq!(simplify(44100, 0), Err(ConfigurationError::ZeroRate));
    assert_eq!(simplify(0, 0), Err(ConfigurationError::ZeroRate));
}

#[test]
fn simplify_keeps_equal_rates_at_one_to_one() {
    assert_eq!(simplify(44100, 44100), Ok((1, 1)));
    assert_eq!(simplify(1, 1), Ok((1, 1)));
    assert_eq!(simplify(u32::MAX, u32::MAX), Ok((1, 1)));
}

#[test]
fn simplify_leaves_lowest_terms_alone() {
    assert_eq!(simplify(160, 147), Ok((160, 147)));
    assert_eq!(simplify(1, u32::MAX), Ok((1, u32::MAX)));
    assert_eq!(simplify(u32::MAX, 1), Ok((u32::MAX, 1)));
}

#[test]
fn simplify_gives_coprime_terms_in_the_same_proportion() {
    let rates: [u32; 9] = [8000, 11025, 16000, 22050, 32000, 44100, 48000, 96000, 192000];
    for &a in rates.iter() {
        for &b in rates.iter() {
            let (n, d) = simplify(a, b).unwrap();
            assert!(n > 0 && d > 0);
            assert_eq!(n as u64 * b as u64, d as u64 * a as u64);
            assert_eq!(gcd(n, d), 1);
        }
    }
}

#[test]
fn simplify_is_idempotent() {
    let (n, d) = simplify(96000, 22050).unwrap();
    assert_eq!((n, d), (640, 147));
    assert_eq!(simplify(n, d), Ok((n, d)));
}

#[test]
fn gcd_of_known_pairs() {
    assert_eq!(gcd(48000, 44100), 300);
    assert_eq!(gcd(44100, 48000), 300);
    assert_eq!(gcd(12, 18), 6);
    assert_eq!(gcd(17, 5), 1);
    assert_eq!(gcd(u32::MAX, u32::MAX), u32::MAX);
    assert_eq!(gcd(u32::MAX, 1), 1);
}

#[test]
fn gcd_with_zero() {
    assert_eq!(gcd(0, 0), 0);
    assert_eq!(gcd(0, 7), 7);
    assert_eq!(gcd(7, 0), 7);
}

#[test]
fn gcd_divides_both_and_is_greatest() {
    for a in 1u32..40 {
        for b in 1u32..40 {
            let g = gcd(a, b);
            assert_eq!(a % g, 0);
            assert_eq!(b % g, 0);
            for d in 1..=a.min(b) {
                if a % d == 0 && b % d == 0 {
                    assert_eq!(g % d, 0);
                }
            }
        }
    }
}
