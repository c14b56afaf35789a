//! Interleaved frames and the lanes they are made of.
//!
//! A buffer of audio holds one sample per channel for the first frame, then
//! one per channel for the second, and so on.  Conversion works on each
//! channel by itself, so frames are taken apart into lanes before it and put
//! together again after it.

use vstd::prelude::*;

verus! {

/// The samples of channel `c`, frame by frame, out of a buffer of frames of
/// `channels` samples each.
pub open spec fn lane_of<T>(samples: Seq<T>, channels: nat, c: nat) -> Seq<T> {
    Seq::new(samples.len() / channels, |i: int| samples[i * channels + c])
}

/// Sample `c` of frame `i` in a buffer of frames of `channels` samples
/// each.
pub open spec fn frame_sample<T>(samples: Seq<T>, channels: nat, i: int, c: int) -> T {
    samples[i * channels + c]
}

/// `samples` holds `frames` frames, and sample `c` of frame `i` is sample
/// `i` of lane `c`.
pub open spec fn interleaves<T>(samples: Seq<T>, lanes: Seq<Seq<T>>, frames: nat) -> bool {
    &&& samples.len() == frames * lanes.len()
    &&& forall|i: int, c: int|
        0 <= i < frames && 0 <= c < lanes.len() ==> samples[i * lanes.len() + c]
            == #[trigger] lanes[c][i]
}

/// Sample `c` of frame `i` lies within the first `frames` frames.
pub proof fn lemma_frame_index(i: int, c: int, frames: int, channels: int)
    requires
        0 <= i < frames,
        0 <= c < channels,
    ensures
        0 <= i * channels,
        i * channels + c < frames * channels,
{
    assert((i + 1) * channels <= frames * channels) by (nonlinear_arith)
        requires
            i + 1 <= frames,
            channels > 0,
    ;
    assert((i + 1) * channels == i * channels + channels) by (nonlinear_arith);
    assert(0 <= i * channels) by (nonlinear_arith)
        requires
            0 <= i,
            0 < channels,
    ;
}

/// Each frame starts where the one before it ends.
pub proof fn lemma_next_frame(i: int, channels: int)
    ensures
        (i + 1) * channels == i * channels + channels,
{
    assert((i + 1) * channels == i * channels + channels) by (nonlinear_arith);
}

/// A buffer of whole frames holds as many samples as its frames times the
/// channels.
pub proof fn lemma_whole_frames(len: nat, channels: nat)
    requires
        channels > 0,
        len % channels == 0,
    ensures
        (len / channels) * channels == len,
{
    vstd::arithmetic::div_mod::lemma_fundamental_div_mod(len as int, channels as int);
    assert((len / channels) * channels == channels * (len / channels)) by (nonlinear_arith);
}

/// The lanes of two buffers laid end to end are their lanes laid end to
/// end, where the first holds whole frames.
pub proof fn lemma_lane_of_joined<T>(a: Seq<T>, b: Seq<T>, channels: nat, c: nat)
    requires
        channels > 0,
        c < channels,
        a.len() % channels == 0,
    ensures
        lane_of(a + b, channels, c) == lane_of(a, channels, c) + lane_of(b, channels, c),
{
    let fa = a.len() / channels;
    let fb = b.len() / channels;
    lemma_whole_frames(a.len(), channels);
    vstd::arithmetic::div_mod::lemma_hoist_over_denominator(b.len() as int, fa as int, channels);
    vstd::arithmetic::div_mod::lemma_fundamental_div_mod(b.len() as int, channels as int);
    vstd::arithmetic::div_mod::lemma_mod_bound(b.len() as int, channels as int);
    assert(fb * channels <= b.len()) by (nonlinear_arith)
        requires
            b.len() == channels * fb + b.len() % channels,
            b.len() % channels >= 0,
    ;
    let joined = lane_of(a + b, channels, c);
    let parts = lane_of(a, channels, c) + lane_of(b, channels, c);
    assert(joined.len() == fa + fb);
    assert forall|i: int| 0 <= i < joined.len() implies joined[i] == parts[i] by {
        if i < fa {
            lemma_frame_index(i, c as int, fa as int, channels as int);
        } else {
            lemma_frame_index(i - fa, c as int, fb as int, channels as int);
            assert((i - fa) * channels == i * channels - fa * channels) by (nonlinear_arith);
            lemma_frame_index(i, c as int, (fa + fb) as int, channels as int);
            assert((fa + fb) * channels == fa * channels + fb * channels) by (nonlinear_arith);
        }
    }
    assert(joined =~= parts);
}

/// Takes a buffer of whole frames apart into one lane per channel.
pub fn deinterleave<T: Copy>(samples: &[T], channels: usize) -> (lanes: Vec<Vec<T>>)
    requires
        channels > 0,
        samples@.len() % (channels as nat) == 0,
    ensures
        lanes@.len() == channels,
        forall|c: int|
            0 <= c < channels ==> (#[trigger] lanes@[c])@ == lane_of(
                samples@,
                channels as nat,
                c as nat,
            ),
{
    let frames: usize = samples.len() / channels;
    proof {
        lemma_whole_frames(samples@.len(), channels as nat);
    }
    let mut lanes: Vec<Vec<T>> = Vec::new();
    let mut c: usize = 0;
    while c < channels
        invariant
            c <= channels,
            frames == samples@.len() / (channels as nat),
            frames * channels == samples@.len(),
            samples@.len() <= usize::MAX,
            lanes@.len() == c,
            forall|k: int|
                0 <= k < c ==> (#[trigger] lanes@[k])@ == lane_of(
                    samples@,
                    channels as nat,
                    k as nat,
                ),
        decreases channels - c,
    {
        let mut lane: Vec<T> = Vec::new();
        let mut i: usize = 0;
        while i < frames
            invariant
                i <= frames,
                c < channels,
                frames * channels == samples@.len(),
                samples@.len() <= usize::MAX,
                lane@.len() == i,
                forall|k: int| 0 <= k < i ==> #[trigger] lane@[k] == samples@[k * channels + c],
            decreases frames - i,
        {
            proof {
                lemma_frame_index(i as int, c as int, frames as int, channels as int);
            }
            lane.push(samples[i * channels + c]);
            i += 1;
        }
        assert(lane@ =~= lane_of(samples@, channels as nat, c as nat));
        lanes.push(lane);
        c += 1;
    }
    lanes
}

/// Appends to `out` the first `frames` frames made of the given lanes.
pub fn interleave<T: Copy>(lanes: &Vec<Vec<T>>, frames: usize, out: &mut Vec<T>)
    requires
        forall|c: int| 0 <= c < lanes@.len() ==> (#[trigger] lanes@[c])@.len() >= frames,
    ensures
        final(out)@.len() == old(out)@.len() + frames * lanes@.len(),
        final(out)@.subrange(0, old(out)@.len() as int) == old(out)@,
        interleaves(
            final(out)@.subrange(old(out)@.len() as int, final(out)@.len() as int),
            Seq::new(lanes@.len(), |c: int| lanes@[c]@),
            frames as nat,
        ),
{
    let channels: usize = lanes.len();
    let ghost base = out@.len();
    let ghost before = out@;
    let mut i: usize = 0;
    while i < frames
        invariant
            i <= frames,
            channels == lanes@.len(),
            forall|c: int| 0 <= c < lanes@.len() ==> (#[trigger] lanes@[c])@.len() >= frames,
            out@.len() == base + i * channels,
            out@.subrange(0, base as int) == before,
            forall|a: int, c: int|
                0 <= a < i && 0 <= c < channels ==> out@[base + a * channels + c]
                    == #[trigger] lanes@[c]@[a],
        decreases frames - i,
    {
        let mut c: usize = 0;
        while c < channels
            invariant
                i < frames,
                c <= channels,
                channels == lanes@.len(),
                forall|c: int| 0 <= c < lanes@.len() ==> (#[trigger] lanes@[c])@.len() >= frames,
                out@.len() == base + i * channels + c,
                out@.subrange(0, base as int) == before,
                forall|a: int, k: int|
                    0 <= a < i && 0 <= k < channels ==> out@[base + a * channels + k]
                        == #[trigger] lanes@[k]@[a],
                forall|k: int|
                    0 <= k < c ==> out@[base + i * channels + k] == #[trigger] lanes@[k]@[i as int],
            decreases channels - c,
        {
            let ghost prev = out@;
            out.push(lanes[c][i]);
            proof {
                assert(out@.subrange(0, base as int) =~= prev.subrange(0, base as int));
                assert forall|a: int, k: int| 0 <= a < i && 0 <= k < channels implies out@[base
                    + a * channels + k] == #[trigger] lanes@[k]@[a] by {
                    lemma_frame_index(a, k, i as int, channels as int);
                    assert(out@[base + a * channels + k] == prev[base + a * channels + k]);
                }
            }
            c += 1;
        }
        proof {
            lemma_next_frame(i as int, channels as int);
        }
        i += 1;
    }
    proof {
        let tail = out@.subrange(base as int, out@.len() as int);
        let views = Seq::new(lanes@.len(), |c: int| lanes@[c]@);
        assert forall|a: int, c: int| 0 <= a < frames && 0 <= c < views.len() implies tail[a
            * views.len() + c] == #[trigger] views[c][a] by {
            lemma_frame_index(a, c, frames as int, channels as int);
            assert(tail[a * channels + c] == out@[base + a * channels + c]);
            assert(views[c][a] == lanes@[c]@[a]);
        }
    }
}

} // verus!
