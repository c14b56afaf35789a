use fon::filter::EnvelopePoint;
use fon::{simplify, ConfigurationError, FilterSpec, Progress, Resampler, Stream};

/// A source that holds its frames in memory and, once they are used up,
/// either goes on with silence or runs dry.
struct Source {
    samples: Vec<f32>,
    at: usize,
    pad: bool,
    pulls: Vec<usize>,
}

impl Source {
    fn padded(samples: Vec<f32>) -> Source {
        Source { samples, at: 0, pad: true, pulls: Vec::new() }
    }

    fn finite(samples: Vec<f32>) -> Source {
        Source { samples, at: 0, pad: false, pulls: Vec::new() }
    }
}

impl<const CH: usize, const SR: u32> Stream<f32, CH, SR> for Source {
    fn extend(&mut self, buffer: &mut Vec<f32>, frames: usize) -> usize {
        self.pulls.push(frames);
        let mut pulled = 0;
        while pulled < frames {
            if self.at + CH <= self.samples.len() {
                buffer.extend_from_slice(&self.samples[self.at..self.at + CH]);
                self.at += CH;
            } else if self.pad {
                buffer.extend(std::iter::repeat(0.0f32).take(CH));
            } else {
                break;
            }
            pulled += 1;
        }
        pulled
    }
}

/// One lobe of a Kaiser window from its centre to its edge, with one sample
/// before the centre and two beyond the edge.
const KAISER: [f64; 36] = [
    0.99537781, 1.0, 0.99537781, 0.98162644, 0.95908712, 0.92831446,
    0.89005583, 0.84522401, 0.79486424, 0.74011713, 0.68217934, 0.62226347,
    0.56155915, 0.5011968, 0.44221549, 0.38553619, 0.33194107, 0.28205962,
    0.23636152, 0.19515633, 0.15859932, 0.1267028, 0.09935205, 0.07632451,
    0.05731132, 0.0419398, 0.02979584, 0.0204451, 0.01345224, 0.00839739,
    0.00488951, 0.00257636, 0.00115101, 0.00035515, 0.0, 0.0,
];

fn envelope(point: EnvelopePoint) -> f64 {
    let index = point.index as usize;
    let frac = point.part as f64 / point.scale as f64;
    let cube = frac * frac * frac;
    let square = frac * frac;
    let after_next = -0.1666666667 * frac + 0.1666666667 * cube;
    let next = frac + 0.5 * square - 0.5 * cube;
    let before = -0.3333333333 * frac + 0.5 * square - 0.1666666667 * cube;
    let here = 1.0 - after_next - next - before;
    before * KAISER[index]
        + here * KAISER[index + 1]
        + next * KAISER[index + 2]
        + after_next * KAISER[index + 3]
}

fn sinc(cutoff: f64, x: f64) -> f64 {
    if x.abs() < 1e-6 {
        cutoff
    } else {
        let scaled = std::f64::consts::PI * x * cutoff;
        cutoff * scaled.sin() / scaled
    }
}

/// A Kaiser-windowed sinc for the conversion from `from` to `to`.
fn windowed_sinc(from: u32, to: u32) -> impl Fn(&[f32], u32) -> f32 {
    let (num, den) = simplify(from, to).unwrap();
    let filter = FilterSpec::build(num, den);
    let cutoff = filter.cutoff_num as f64 / filter.cutoff_den as f64;
    move |window: &[f32], phase: u32| {
        assert_eq!(window.len(), filter.taps as usize);
        assert!(phase < den);
        let mut sum = 0.0f64;
        for (k, &sample) in window.iter().enumerate() {
            let k = k as u32;
            if let Some(point) = filter.envelope_point(k, phase, den) {
                let x = filter.tap_distance(k, phase, den) as f64 / den as f64;
                sum += sample as f64 * sinc(cutoff, x) * envelope(point);
            }
        }
        sum as f32
    }
}

fn centre(window: &[f32], _phase: u32) -> f32 {
    window[window.len() / 2]
}

fn noise(n: usize, mut seed: u64) -> Vec<f32> {
    let mut out = Vec::with_capacity(n);
    for _ in 0..n {
        seed = seed.wrapping_mul(6364136223846793005).wrapping_add(1442695040888963407);
        out.push(((seed >> 40) as f32) / (1u64 << 23) as f32 - 1.0);
    }
    out
}

fn tone(hz: f64, rate: f64, n: usize) -> Vec<f32> {
    (0..n).map(|i| (2.0 * std::f64::consts::PI * hz * i as f64 / rate).sin() as f32).collect()
}

fn peak(samples: &[f32]) -> f32 {
    samples.iter().fold(0.0f32, |m, s| m.max(s.abs()))
}

#[test]
fn resampler_rejects_zero_rates() {
    let r = Resampler::<_, _, f32, 1, 0, 48000>::new(Source::padded(vec![]), centre, 0.0);
    assert_eq!(r.err(), Some(ConfigurationError::ZeroRate));
    let r = Resampler::<_, _, f32, 1, 44100, 0>::new(Source::padded(vec![]), centre, 0.0);
    assert_eq!(r.err(), Some(ConfigurationError::ZeroRate));
    let r = Resampler::<_, _, f32, 0, 0, 0>::new(Source::padded(vec![]), centre, 0.0);
    assert_eq!(r.err(), Some(ConfigurationError::ZeroRate));
}

#[test]
fn resampler_rejects_zero_channels() {
    let r = Resampler::<_, _, f32, 0, 44100, 48000>::new(Source::padded(vec![]), centre, 0.0);
    assert_eq!(r.err(), Some(ConfigurationError::ZeroChannels));
}

#[test]
fn resampler_reports_ratio_filter_and_latency() {
    let r = Resampler::<_, _, f32, 2, 44100, 48000>::new(Source::padded(vec![]), centre, 0.0)
        .ok()
        .unwrap();
    assert_eq!(r.ratio(), (147, 160));
    assert_eq!(r.filter(), FilterSpec::build(147, 160));
    assert_eq!(r.input_latency(), 80);
    assert_eq!(r.output_latency(), 87);
    let r = Resampler::<_, _, f32, 2, 48000, 44100>::new(Source::padded(vec![]), centre, 0.0)
        .ok()
        .unwrap();
    assert_eq!(r.ratio(), (160, 147));
    assert_eq!(r.input_latency(), 87);
    assert_eq!(r.output_latency(), 80);
}

#[test]
fn resampler_output_latency_is_within_a_sample_of_the_scaled_input_latency() {
    let r = Resampler::<_, _, f32, 1, 44100, 48000>::new(Source::padded(vec![]), centre, 0.0)
        .ok()
        .unwrap();
    let exact = r.input_latency() as f64 * 48000.0 / 44100.0;
    assert!((r.output_latency() as f64 - exact).abs() <= 0.5);
    let r = Resampler::<_, _, f32, 1, 192000, 8000>::new(Source::padded(vec![]), centre, 0.0)
        .ok()
        .unwrap();
    let exact = r.input_latency() as f64 * 8000.0 / 192000.0;
    assert!((r.output_latency() as f64 - exact).abs() <= 0.5);
}

#[test]
fn resampler_asks_for_latency_and_steps_rounded_up() {
    let r = Resampler::<_, _, f32, 1, 44100, 48000>::new(Source::padded(vec![]), centre, 0.0)
        .ok()
        .unwrap();
    // 256 * 147 / 160 = 235.2
    assert_eq!(r.required_input_frames(256), Some(80 + 236));
    assert_eq!(r.required_input_frames(0), Some(80));
    assert_eq!(r.required_input_frames(160), Some(80 + 147));
    assert_eq!(r.required_input_frames(1), Some(81));
    assert_eq!(r.pull_size(256), 316);
    let r = Resampler::<_, _, f32, 1, 48000, 16000>::new(Source::padded(vec![]), centre, 0.0)
        .ok()
        .unwrap();
    assert_eq!(r.required_input_frames(10), Some(241 + 30));
    assert_eq!(r.required_input_frames(usize::MAX), None);
    assert_eq!(r.pull_size(usize::MAX), usize::MAX);
}

#[test]
fn resampler_pulls_what_it_asks_for() {
    let mut r = Resampler::<_, _, f32, 1, 44100, 48000>::new(
        Source::padded(noise(1000, 1)),
        windowed_sinc(44100, 48000),
        0.0,
    )
    .ok()
    .unwrap();
    let mut out = Vec::new();
    let pull = r.pull_size(256);
    assert_eq!(r.extend(&mut out, 256), 256);
    assert_eq!(pull, 316);
}

#[test]
fn resampling_silence_yields_silence() {
    let mut r = Resampler::<_, _, f32, 1, 44100, 48000>::new(
        Source::padded(vec![]),
        windowed_sinc(44100, 48000),
        0.0,
    )
    .ok()
    .unwrap();
    let mut out = Vec::new();
    let produced = r.extend(&mut out, 256);
    assert_eq!(produced, 256);
    assert_eq!(out.len(), 256);
    assert!(out.iter().all(|&s| s == 0.0));
}

#[test]
fn resampling_a_ramp_at_one_to_one_shifts_it_by_the_latency() {
    let ramp: Vec<f32> = (0..100).map(|i| i as f32 / 100.0).collect();
    let mut r = Resampler::<_, _, f32, 1, 48000, 48000>::new(
        Source::padded(ramp.clone()),
        windowed_sinc(48000, 48000),
        0.0,
    )
    .ok()
    .unwrap();
    let latency = r.output_latency() as usize;
    assert_eq!(latency, 80);
    let mut out = Vec::new();
    assert_eq!(r.extend(&mut out, 300), 300);
    for (i, &s) in out.iter().enumerate() {
        let want = if i >= latency && i < latency + 100 { ramp[i - latency] } else { 0.0 };
        assert!((s - want).abs() < 1e-5, "sample {}: {} for {}", i, s, want);
    }
    // the cross-correlation with the input peaks at the latency
    let mut best = (0usize, f32::MIN);
    for lag in 0..200 {
        let sum: f32 = ramp.iter().enumerate().map(|(i, &x)| x * out[i + lag]).sum();
        if sum > best.1 {
            best = (lag, sum);
        }
    }
    assert_eq!(best.0, latency);
}

#[test]
fn resampling_at_equal_rates_reproduces_the_input() {
    let input = noise(500, 3);
    let mut r = Resampler::<_, _, f32, 1, 44100, 44100>::new(
        Source::padded(input.clone()),
        windowed_sinc(44100, 44100),
        0.0,
    )
    .ok()
    .unwrap();
    let latency = r.output_latency() as usize;
    let mut out = Vec::new();
    assert_eq!(r.extend(&mut out, 580), 580);
    for i in 0..500 {
        assert!((out[i + latency] - input[i]).abs() < 1e-5);
    }
}

#[test]
fn two_extends_give_what_one_gives() {
    let input = noise(4000, 5);
    let mut once = Resampler::<_, _, f32, 1, 44100, 48000>::new(
        Source::padded(input.clone()),
        windowed_sinc(44100, 48000),
        0.0,
    )
    .ok()
    .unwrap();
    let mut whole = Vec::new();
    assert_eq!(once.extend(&mut whole, 256), 256);

    let mut twice = Resampler::<_, _, f32, 1, 44100, 48000>::new(
        Source::padded(input.clone()),
        windowed_sinc(44100, 48000),
        0.0,
    )
    .ok()
    .unwrap();
    let mut parts = Vec::new();
    assert_eq!(twice.extend(&mut parts, 128), 128);
    assert_eq!(twice.extend(&mut parts, 128), 128);
    assert_eq!(parts.len(), 256);
    assert_eq!(parts, whole);
    assert!(peak(&whole) > 0.1);
}

#[test]
fn many_extends_give_what_one_gives_when_downsampling() {
    let input = noise(6000, 9);
    let mut once = Resampler::<_, _, f32, 2, 48000, 44100>::new(
        Source::padded(input.clone()),
        windowed_sinc(48000, 44100),
        0.0,
    )
    .ok()
    .unwrap();
    let mut whole = Vec::new();
    assert_eq!(once.extend(&mut whole, 700), 700);
    let mut many = Resampler::<_, _, f32, 2, 48000, 44100>::new(
        Source::padded(input.clone()),
        windowed_sinc(48000, 44100),
        0.0,
    )
    .ok()
    .unwrap();
    let mut parts = Vec::new();
    for frames in [1usize, 99, 0, 250, 350] {
        assert_eq!(many.extend(&mut parts, frames), frames);
    }
    assert_eq!(parts.len(), 1400);
    assert_eq!(parts, whole);
}

#[test]
fn extend_keeps_what_the_buffer_held() {
    let mut r = Resampler::<_, _, f32, 1, 44100, 48000>::new(
        Source::padded(noise(1000, 2)),
        windowed_sinc(44100, 48000),
        0.0,
    )
    .ok()
    .unwrap();
    let mut out = vec![9.0f32, 8.0, 7.0];
    assert_eq!(r.extend(&mut out, 10), 10);
    assert_eq!(out.len(), 13);
    assert_eq!(&out[..3], &[9.0, 8.0, 7.0]);
}

#[test]
fn channels_are_converted_side_by_side() {
    // left counts up, right counts down
    let mut frames = Vec::new();
    for i in 0..200 {
        frames.push(i as f32);
        frames.push(-(i as f32));
    }
    let mut r = Resampler::<_, _, f32, 2, 32000, 32000>::new(Source::padded(frames), centre, 0.0)
        .ok()
        .unwrap();
    let mut out = Vec::new();
    assert_eq!(r.extend(&mut out, 120), 120);
    assert_eq!(out.len(), 240);
    for i in 0..120 {
        let want = if i >= 80 { (i - 80) as f32 } else { 0.0 };
        assert_eq!(out[2 * i], want);
        assert_eq!(out[2 * i + 1], -want);
    }
}

#[test]
fn a_source_that_runs_dry_gives_fewer_frames() {
    let mut r = Resampler::<_, _, f32, 1, 48000, 48000>::new(
        Source::finite((1..=50).map(|i| i as f32).collect()),
        centre,
        0.0,
    )
    .ok()
    .unwrap();
    let mut out = Vec::new();
    // 50 frames of input support 50 frames of output at one to one
    assert_eq!(r.extend(&mut out, 256), 50);
    assert_eq!(out.len(), 50);
    assert!(out.iter().all(|&s| s == 0.0));
    assert_eq!(r.extend(&mut out, 256), 0);
    assert_eq!(out.len(), 50);
}

#[test]
fn resampler_counts_the_frames_it_retires() {
    let mut r = Resampler::<_, _, f32, 2, 48000, 16000>::new(
        Source::padded(noise(10000, 6)),
        centre,
        0.0,
    )
    .ok()
    .unwrap();
    assert_eq!(r.consumed_total(), 0);
    // one frame short of a window of 483 taps
    assert_eq!(r.retained(), 482);
    let mut out = Vec::new();
    assert_eq!(r.extend(&mut out, 10), 10);
    // ten steps of three frames; 241 + 30 were pulled
    assert_eq!(r.consumed_total(), 30);
    assert_eq!(r.retained(), 482 + 241);
    assert_eq!(r.extend(&mut out, 5), 5);
    assert_eq!(r.consumed_total(), 45);
}

#[test]
fn resample_converts_frames_handed_to_it() {
    let mut r = Resampler::<_, _, f32, 2, 16000, 16000>::new(Source::finite(vec![]), centre, 0.0)
        .ok()
        .unwrap();
    let mut out = Vec::new();
    let input: Vec<f32> = (0..400).map(|i| i as f32).collect();
    let progress = r.resample(&input, &mut out, 1000);
    assert_eq!(progress, Progress { consumed: 200, produced: 200 });
    assert_eq!(out.len(), 400);
    assert_eq!(&out[160..164], &[0.0, 1.0, 2.0, 3.0]);
    let progress = r.resample(&[], &mut out, 1000);
    assert_eq!(progress, Progress { consumed: 0, produced: 0 });
}

#[test]
fn a_tone_keeps_its_amplitude() {
    let mut r = Resampler::<_, _, f32, 1, 44100, 48000>::new(
        Source::padded(tone(1000.0, 44100.0, 8000)),
        windowed_sinc(44100, 48000),
        0.0,
    )
    .ok()
    .unwrap();
    let mut out = Vec::new();
    assert_eq!(r.extend(&mut out, 4000), 4000);
    let level = peak(&out[1000..3000]);
    assert!((level - 1.0).abs() < 0.01, "{}", level);

    let mut r = Resampler::<_, _, f32, 1, 48000, 16000>::new(
        Source::padded(tone(1000.0, 48000.0, 20000)),
        windowed_sinc(48000, 16000),
        0.0,
    )
    .ok()
    .unwrap();
    let mut out = Vec::new();
    assert_eq!(r.extend(&mut out, 3000), 3000);
    let level = peak(&out[1000..2500]);
    assert!((level - 1.0).abs() < 0.01, "{}", level);
}

#[test]
fn a_tone_above_the_new_nyquist_is_suppressed() {
    let mut low = Resampler::<_, _, f32, 1, 48000, 16000>::new(
        Source::padded(tone(2000.0, 48000.0, 20000)),
        windowed_sinc(48000, 16000),
        0.0,
    )
    .ok()
    .unwrap();
    let mut kept = Vec::new();
    assert_eq!(low.extend(&mut kept, 3000), 3000);
    let mut high = Resampler::<_, _, f32, 1, 48000, 16000>::new(
        Source::padded(tone(12000.0, 48000.0, 20000)),
        windowed_sinc(48000, 16000),
        0.0,
    )
    .ok()
    .unwrap();
    let mut aliased = Vec::new();
    assert_eq!(high.extend(&mut aliased, 3000), 3000);
    let reference = peak(&kept[1000..2500]);
    let leak = peak(&aliased[1000..2500]);
    // 40 dB is a factor of 100 in amplitude
    assert!(leak * 100.0 <= reference, "{} against {}", leak, reference);
}

fn pull_through<S: Stream<f32, 1, 48000>>(stream: &mut S, frames: usize) -> Vec<f32> {
    let mut out = Vec::new();
    let pulled = stream.extend(&mut out, frames);
    assert_eq!(out.len(), pulled);
    out
}

#[test]
fn a_resampler_is_a_stream_at_the_new_rate() {
    let input = noise(2000, 4);
    let mut direct = Resampler::<_, _, f32, 1, 44100, 48000>::new(
        Source::padded(input.clone()),
        windowed_sinc(44100, 48000),
        0.0,
    )
    .ok()
    .unwrap();
    let mut want = Vec::new();
    assert_eq!(direct.extend(&mut want, 300), 300);
    let mut generic = Resampler::<_, _, f32, 1, 44100, 48000>::new(
        Source::padded(input),
        windowed_sinc(44100, 48000),
        0.0,
    )
    .ok()
    .unwrap();
    assert_eq!(pull_through(&mut generic, 300), want);
}

#[test]
fn resamplers_can_be_chained() {
    let input = tone(1000.0, 44100.0, 30000);
    let up = Resampler::<_, _, f32, 1, 44100, 48000>::new(
        Source::padded(input.clone()),
        windowed_sinc(44100, 48000),
        0.0,
    )
    .ok()
    .unwrap();
    let mut back = Resampler::<_, _, f32, 1, 48000, 44100>::new(
        up,
        windowed_sinc(48000, 44100),
        0.0,
    )
    .ok()
    .unwrap();
    let mut out = Vec::new();
    assert_eq!(back.extend(&mut out, 4000), 4000);
    // the tone comes back, later by the delay of both filters
    let delay = 80.0 + 87.0 * 44100.0 / 48000.0;
    for i in 1000..4000 {
        let t = (i as f64 - delay) / 44100.0;
        let want = (2.0 * std::f64::consts::PI * 1000.0 * t).sin() as f32;
        assert!((out[i] - want).abs() < 0.01, "sample {}: {} for {}", i, out[i], want);
    }
}
