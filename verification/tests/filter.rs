use fon::filter::{EnvelopePoint, BASE_TAPS, ENVELOPE_SAMPLES, MAX_TAPS, OVERSAMPLE};
use fon::{simplify, FilterSpec};

#[test]
fn filter_passes_whole_band_when_rate_goes_up() {
    let spec = FilterSpec::build(147, 160);
    assert_eq!(spec.taps, 161);
    assert_eq!((spec.cutoff_num, spec.cutoff_den), (1, 1));
    assert_eq!(spec.oversample, 32);
}

#[test]
fn filter_passes_whole_band_when_rate_stays() {
    let spec = FilterSpec::build(1, 1);
    assert_eq!(spec.taps, BASE_TAPS);
    assert_eq!((spec.cutoff_num, spec.cutoff_den), (1, 1));
    assert_eq!(spec.oversample, OVERSAMPLE);
}

#[test]
fn filter_narrows_band_when_rate_goes_down() {
    let spec = FilterSpec::build(2, 1);
    assert_eq!((spec.cutoff_num, spec.cutoff_den), (1, 2));
    // 161 * 2 = 322, made odd
    assert_eq!(spec.taps, 323);

    let spec = FilterSpec::build(160, 147);
    assert_eq!((spec.cutoff_num, spec.cutoff_den), (147, 160));
    // 161 * 160 / 147 = 175 and a fraction
    assert_eq!(spec.taps, 175);

    let spec = FilterSpec::build(3, 1);
    // 161 * 3 = 483 is odd already
    assert_eq!(spec.taps, 483);
}

#[test]
fn filter_length_is_held_to_the_maximum() {
    assert_eq!(FilterSpec::build(1000, 1).taps, MAX_TAPS);
    assert_eq!(FilterSpec::build(u32::MAX, 1).taps, 4097);
    // 161 * 25 = 4025 is still below the maximum, 161 * 26 = 4186 is not
    assert_eq!(FilterSpec::build(25, 1).taps, 4025);
    assert_eq!(FilterSpec::build(26, 1).taps, 4097);
}

#[test]
fn filter_length_is_always_odd() {
    for num in 1u32..200 {
        for den in [1u32, 2, 3, 7, 64, 147, 160] {
            let spec = FilterSpec::build(num, den);
            assert_eq!(spec.taps % 2, 1, "{}:{}", num, den);
            assert!(spec.taps >= BASE_TAPS && spec.taps <= MAX_TAPS);
            assert!(spec.cutoff_num > 0 && spec.cutoff_num <= spec.cutoff_den);
        }
    }
}

#[test]
fn filter_length_grows_as_cutoff_falls() {
    let mut last = 0;
    for num in 1u32..60 {
        let spec = FilterSpec::build(num, 2);
        assert!(spec.taps >= last, "{} taps at {}:2 after {}", spec.taps, num, last);
        last = spec.taps;
    }
    assert_eq!(last, MAX_TAPS);
}

#[test]
fn input_latency_is_half_the_taps() {
    assert_eq!(FilterSpec::build(147, 160).input_latency(), 80);
    assert_eq!(FilterSpec::build(160, 147).input_latency(), 87);
    assert_eq!(FilterSpec::build(1000, 1).input_latency(), 2048);
}

#[test]
fn output_latency_scales_with_the_ratio() {
    // 80 * 160 / 147 = 87.07..
    assert_eq!(FilterSpec::build(147, 160).output_latency(147, 160), 87);
    // 87 * 147 / 160 = 79.93..
    assert_eq!(FilterSpec::build(160, 147).output_latency(160, 147), 80);
    assert_eq!(FilterSpec::build(1, 1).output_latency(1, 1), 80);
    // 80 * 4294967295 / 1
    assert_eq!(FilterSpec::build(1, u32::MAX).output_latency(1, u32::MAX), 343597383600);
}

#[test]
fn output_latency_rounds_halves_up() {
    let spec = FilterSpec { taps: 7, cutoff_num: 1, cutoff_den: 1, oversample: 32 };
    assert_eq!(spec.input_latency(), 3);
    // 3 / 2 = 1.5
    assert_eq!(spec.output_latency(2, 1), 2);
    // 3 * 3 / 2 = 4.5
    assert_eq!(spec.output_latency(2, 3), 5);
    // 3 / 4 = 0.75
    assert_eq!(spec.output_latency(4, 1), 1);
    // 3 / 7 = 0.43
    assert_eq!(spec.output_latency(7, 1), 0);
}

#[test]
fn output_latency_is_within_half_a_sample() {
    let rates: [u32; 7] = [8000, 11025, 22050, 44100, 48000, 96000, 192000];
    for &a in rates.iter() {
        for &b in rates.iter() {
            let (num, den) = simplify(a, b).unwrap();
            let spec = FilterSpec::build(num, den);
            let exact = spec.input_latency() as i128 * den as i128;
            let got = spec.output_latency(num, den) as i128 * num as i128;
            assert!(2 * (got - exact).abs() <= num as i128);
        }
    }
}

#[test]
fn built_filters_are_well_formed() {
    assert!(FilterSpec::build(147, 160).is_wf());
    assert!(FilterSpec::build(u32::MAX, 1).is_wf());
    assert!(FilterSpec { taps: 5, cutoff_num: 1, cutoff_den: 1, oversample: 32 }.is_wf());
}

#[test]
fn malformed_filters_are_told_apart() {
    assert!(!FilterSpec { taps: 4, cutoff_num: 1, cutoff_den: 1, oversample: 32 }.is_wf());
    assert!(!FilterSpec { taps: 0, cutoff_num: 1, cutoff_den: 1, oversample: 32 }.is_wf());
    assert!(!FilterSpec { taps: 4099, cutoff_num: 1, cutoff_den: 1, oversample: 32 }.is_wf());
    assert!(!FilterSpec { taps: 5, cutoff_num: 0, cutoff_den: 1, oversample: 32 }.is_wf());
    assert!(!FilterSpec { taps: 5, cutoff_num: 3, cutoff_den: 2, oversample: 32 }.is_wf());
    assert!(!FilterSpec { taps: 5, cutoff_num: 1, cutoff_den: 1, oversample: 16 }.is_wf());
}

#[test]
fn tap_distance_is_counted_from_the_read_position() {
    let spec = FilterSpec { taps: 5, cutoff_num: 1, cutoff_den: 1, oversample: 32 };
    // the centre tap, and a read position on it
    assert_eq!(spec.tap_distance(2, 0, 4), 0);
    // two samples before the centre, in quarters of a sample
    assert_eq!(spec.tap_distance(0, 0, 4), -8);
    assert_eq!(spec.tap_distance(0, 3, 4), -11);
    assert_eq!(spec.tap_distance(4, 3, 4), 5);
    assert_eq!(spec.tap_distance(2, 1, 4), -1);
    let spec = FilterSpec::build(u32::MAX, 1);
    assert_eq!(spec.tap_distance(0, 0, u32::MAX), -2048 * u32::MAX as i64);
    assert_eq!(spec.tap_distance(4096, u32::MAX - 1, u32::MAX), 2047 * u32::MAX as i64 + 1);
}

#[test]
fn envelope_point_of_taps_within_the_span() {
    let spec = FilterSpec { taps: 5, cutoff_num: 1, cutoff_den: 1, oversample: 32 };
    assert_eq!(
        spec.envelope_point(2, 0, 4),
        Some(EnvelopePoint { index: 0, part: 0, scale: 20 })
    );
    // 8 quarters of 10: 64 * 8 / 20 = 25 and 12 / 20
    assert_eq!(
        spec.envelope_point(0, 0, 4),
        Some(EnvelopePoint { index: 25, part: 12, scale: 20 })
    );
    // 5 quarters of 10: half way, 16 steps
    assert_eq!(
        spec.envelope_point(4, 3, 4),
        Some(EnvelopePoint { index: 16, part: 0, scale: 20 })
    );
    // 10 quarters of 10: the edge
    assert_eq!(
        spec.envelope_point(0, 2, 4),
        Some(EnvelopePoint { index: 32, part: 0, scale: 20 })
    );
}

#[test]
fn envelope_point_of_taps_beyond_the_span() {
    let spec = FilterSpec { taps: 5, cutoff_num: 1, cutoff_den: 1, oversample: 32 };
    // 11 quarters of a sample are more than half of five samples
    assert_eq!(spec.envelope_point(0, 3, 4), None);
    assert_eq!(spec.envelope_point(0, 2, 4).is_some(), true);
}

#[test]
fn envelope_point_leaves_room_for_four_samples() {
    for &(num, den) in [(147u32, 160u32), (160, 147), (1, 1), (3, 1)].iter() {
        let spec = FilterSpec::build(num, den);
        for k in 0..spec.taps {
            for phase in [0, 1, den / 2, den - 1] {
                if let Some(point) = spec.envelope_point(k, phase, den) {
                    assert!(point.index <= OVERSAMPLE);
                    assert!(point.index + 3 < ENVELOPE_SAMPLES);
                    assert!(point.part < point.scale);
                    assert_eq!(point.scale, spec.taps as u64 * den as u64);
                }
            }
        }
    }
}
