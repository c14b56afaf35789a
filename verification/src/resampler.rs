//! A stream at one rate made from a stream at another.
//!
//! A [`Resampler`] wraps a source stream and is itself a stream, at the
//! destination rate.  Asked for frames, it works out how many source frames
//! they take, pulls those, runs each channel through its own
//! [`ChannelResampler`], and hands the outputs over as frames again.  All
//! channels move in step: they share one ratio, one filter and one read
//! position, and differ only in the samples they hold.

use vstd::prelude::*;

use crate::channel::{
    all_silence, kernel_accepts, kernel_is_function, kernel_keeps_silence, kernel_passes_centre,
    kernel_yields, lemma_outputs_continuous, lemma_outputs_of_one_sequence, lemma_silence_stays,
    lemma_unit_ratio_delays, ChannelResampler,
};
use crate::error::ConfigurationError;
use crate::filter::{
    cutoff_for, lemma_round_div_nearest, output_latency_for, round_div, taps_for, FilterSpec,
};
use crate::frames::{
    deinterleave, frame_sample, interleave, interleaves, lane_of, lemma_frame_index,
    lemma_lane_of_joined, lemma_whole_frames,
};
use crate::model::{ceil_div, lemma_primed_supplies, ChannelModel};
use crate::ratio::{lemma_equal_terms, lowest_terms, simplify};
use crate::stream::Stream;

verus! {

/// The samples that output `i` of channel `c` is computed from, where the
/// channels were in the states `before` and were given the frames `input`.
pub open spec fn window_at<T>(before: Seq<ChannelModel<T>>, input: Seq<T>, c: int, i: int) -> Seq<
    T,
> {
    before[c].window(before[c].history + lane_of(input, before.len(), c as nat), i as nat)
}

/// All channels are well formed, are set up for the same conversion, and
/// stand at the same read position with the same number of samples
/// retained.
pub open spec fn aligned<T>(models: Seq<ChannelModel<T>>, taps: nat, num: nat, den: nat) -> bool {
    forall|c: int|
        0 <= c < models.len() ==> {
            &&& (#[trigger] models[c]).wf()
            &&& models[c].taps == taps
            &&& models[c].num == num
            &&& models[c].den == den
            &&& models[c].skip == models[0].skip
            &&& models[c].frac == models[0].frac
            &&& models[c].consumed == models[0].consumed
            &&& models[c].history.len() == models[0].history.len()
        }
}

/// What channels in the states `before` do with the frames `input` when
/// asked for `frames` frames: they end in the states `after`, having
/// produced the `produced` frames `out`.
///
/// Each channel takes its lane of the input.  All produce the same number
/// of outputs, and sample `c` of output frame `i` is what the kernel
/// returns for the window and read position of output `i` of channel `c`.
pub open spec fn resampled<T, K: Fn(&[T], u32) -> T>(
    before: Seq<ChannelModel<T>>,
    kernel: &K,
    input: Seq<T>,
    frames: nat,
    after: Seq<ChannelModel<T>>,
    out: Seq<T>,
    produced: nat,
) -> bool {
    let channels = before.len();
    let pulled = input.len() / channels;
    &&& after.len() == channels
    &&& produced == before[0].produced(before[0].history.len() + pulled, frames)
    &&& out.len() == produced * channels
    &&& forall|c: int|
        0 <= c < channels ==> #[trigger] after[c] == before[c].after(
            lane_of(input, channels, c as nat),
            frames,
        )
    &&& forall|i: int, c: int|
        0 <= i < produced && 0 <= c < channels ==> kernel_yields(
            kernel,
            #[trigger] window_at(before, input, c, i),
            before[c].phase(i as nat),
            out[i * channels + c],
        )
}

/// The outputs of channel `c` among the `produced` frames `out` of
/// `channels` samples each.
pub open spec fn outputs_of<T>(out: Seq<T>, channels: nat, produced: nat, c: int) -> Seq<T> {
    Seq::new(produced, |i: int| out[i * channels + c])
}

/// What `lemma_resampled_continuity` says, for channel `c` alone.
proof fn lemma_channel_continuity<T, K: Fn(&[T], u32) -> T>(
    kernel: &K,
    before: Seq<ChannelModel<T>>,
    a: Seq<T>,
    b: Seq<T>,
    r1: nat,
    r2: nat,
    requested: nat,
    mid: Seq<ChannelModel<T>>,
    first: Seq<T>,
    made1: nat,
    after: Seq<ChannelModel<T>>,
    second: Seq<T>,
    made2: nat,
    joined_after: Seq<ChannelModel<T>>,
    joined: Seq<T>,
    made: nat,
    c: int,
)
    requires
        0 <= c < before.len(),
        aligned(before, before[0].taps, before[0].num, before[0].den),
        a.len() % before.len() == 0,
        kernel_is_function(kernel),
        resampled(before, kernel, a, r1, mid, first, made1),
        resampled(mid, kernel, b, r2, after, second, made2),
        resampled(before, kernel, a + b, requested, joined_after, joined, made),
        requested == made1 + made2 || (made1 == r1 && requested == r1 + r2),
    ensures
        made == made1 + made2,
        joined_after[c] == after[c],
        outputs_of(joined, before.len(), made, c) == outputs_of(first, before.len(), made1, c)
            + outputs_of(second, before.len(), made2, c),
{
    let ch = before.len();
    let m = before[c];
    let la = lane_of(a, ch, c as nat);
    let lb = lane_of(b, ch, c as nat);
    lemma_lane_of_joined(a, b, ch, c as nat);
    assert(before[0].wf());
    assert(m.wf());
    assert(mid[c] == m.after(la, r1));
    assert(mid[0] == before[0].after(lane_of(a, ch, 0), r1));
    assert(after[c] == mid[c].after(lb, r2));
    assert(joined_after[c] == m.after(la + lb, requested));
    let first_c = outputs_of(first, ch, made1, c);
    let second_c = outputs_of(second, ch, made2, c);
    let joined_c = outputs_of(joined, ch, made, c);
    assert forall|j: int| 0 <= j < first_c.len() implies kernel_yields(
        kernel,
        m.window(m.history + la, j as nat),
        m.phase(j as nat),
        #[trigger] first_c[j],
    ) by {
        assert(window_at(before, a, c, j) == m.window(m.history + la, j as nat));
    }
    assert forall|j: int| 0 <= j < second_c.len() implies kernel_yields(
        kernel,
        mid[c].window(mid[c].history + lb, j as nat),
        mid[c].phase(j as nat),
        #[trigger] second_c[j],
    ) by {
        assert(window_at(mid, b, c, j) == mid[c].window(mid[c].history + lb, j as nat));
    }
    assert forall|j: int| 0 <= j < joined_c.len() implies kernel_yields(
        kernel,
        m.window(m.history + (la + lb), j as nat),
        m.phase(j as nat),
        #[trigger] joined_c[j],
    ) by {
        assert(window_at(before, a + b, c, j) == m.window(m.history + (la + lb), j as nat));
    }
    lemma_outputs_continuous(kernel, m, la, lb, r1, r2, requested, first_c, second_c, joined_c);
    assert(joined_c.len() == first_c.len() + second_c.len());
}

/// Continuity of frames: with a kernel that returns one value only, what
/// two conversions in a row produce is what one conversion of the joined
/// input produces.
///
/// Let channels in the states `before` take the whole frames `a`, asked for
/// `r1` frames, and then the frames `b`, asked for `r2`.  Let the same
/// channels take `a + b` instead, asked for as many frames as the two
/// conversions produced together, or, where the first did not run short,
/// for `r1 + r2`.  The frames produced are those of the first conversion
/// followed by those of the second, and the channels end in the same
/// states.
pub proof fn lemma_resampled_continuity<T, K: Fn(&[T], u32) -> T>(
    kernel: &K,
    before: Seq<ChannelModel<T>>,
    a: Seq<T>,
    b: Seq<T>,
    r1: nat,
    r2: nat,
    requested: nat,
    mid: Seq<ChannelModel<T>>,
    first: Seq<T>,
    made1: nat,
    after: Seq<ChannelModel<T>>,
    second: Seq<T>,
    made2: nat,
    joined_after: Seq<ChannelModel<T>>,
    joined: Seq<T>,
    made: nat,
)
    requires
        before.len() > 0,
        aligned(before, before[0].taps, before[0].num, before[0].den),
        a.len() % before.len() == 0,
        kernel_is_function(kernel),
        resampled(before, kernel, a, r1, mid, first, made1),
        resampled(mid, kernel, b, r2, after, second, made2),
        resampled(before, kernel, a + b, requested, joined_after, joined, made),
        requested == made1 + made2 || (made1 == r1 && requested == r1 + r2),
    ensures
        made == made1 + made2,
        joined == first + second,
        joined_after == after,
{
    let ch = before.len();
    lemma_channel_continuity(
        kernel,
        before,
        a,
        b,
        r1,
        r2,
        requested,
        mid,
        first,
        made1,
        after,
        second,
        made2,
        joined_after,
        joined,
        made,
        0,
    );
    assert forall|c: int| 0 <= c < ch implies joined_after[c] == after[c] by {
        lemma_channel_continuity(
            kernel,
            before,
            a,
            b,
            r1,
            r2,
            requested,
            mid,
            first,
            made1,
            after,
            second,
            made2,
            joined_after,
            joined,
            made,
            c,
        );
    }
    assert(joined_after =~= after);
    assert(made1 * ch + made2 * ch == (made1 + made2) * ch) by (nonlinear_arith);
    assert forall|k: int| 0 <= k < joined.len() implies joined[k] == (first + second)[k] by {
        let i = k / ch as int;
        let c = k % ch as int;
        vstd::arithmetic::div_mod::lemma_fundamental_div_mod(k, ch as int);
        vstd::arithmetic::div_mod::lemma_mod_bound(k, ch as int);
        assert(k == i * ch + c) by (nonlinear_arith)
            requires
                k == ch * i + c,
        ;
        assert(0 <= i < made) by (nonlinear_arith)
            requires
                k == i * ch + c,
                0 <= c < ch,
                0 <= k < made * ch,
        ;
        lemma_channel_continuity(
            kernel,
            before,
            a,
            b,
            r1,
            r2,
            requested,
            mid,
            first,
            made1,
            after,
            second,
            made2,
            joined_after,
            joined,
            made,
            c,
        );
        let joined_c = outputs_of(joined, ch, made, c);
        let first_c = outputs_of(first, ch, made1, c);
        let second_c = outputs_of(second, ch, made2, c);
        assert(joined[k] == joined_c[i]);
        if i < made1 {
            lemma_frame_index(i, c, made1 as int, ch as int);
            assert(first_c[i] == first[k]);
        } else {
            lemma_frame_index(i - made1, c, made2 as int, ch as int);
            assert((i - made1) * ch == i * ch - made1 * ch) by (nonlinear_arith);
            assert(second_c[i - made1] == second[k - made1 * ch]);
        }
    }
    assert(joined =~= first + second);
}

/// What `lemma_resampled_of_one_sequence` says, for channel `c` alone.
proof fn lemma_channel_of_one_sequence<T, K: Fn(&[T], u32) -> T>(
    kernel: &K,
    before: Seq<ChannelModel<T>>,
    a: Seq<T>,
    b: Seq<T>,
    whole: Seq<T>,
    rest: Seq<T>,
    r1: nat,
    r2: nat,
    mid: Seq<ChannelModel<T>>,
    first: Seq<T>,
    after: Seq<ChannelModel<T>>,
    second: Seq<T>,
    whole_after: Seq<ChannelModel<T>>,
    joined: Seq<T>,
    c: int,
)
    requires
        0 <= c < before.len(),
        aligned(before, before[0].taps, before[0].num, before[0].den),
        a.len() % before.len() == 0,
        (a.len() + b.len()) % before.len() == 0,
        whole.len() % before.len() == 0,
        kernel_is_function(kernel),
        resampled(before, kernel, a, r1, mid, first, r1),
        resampled(mid, kernel, b, r2, after, second, r2),
        resampled(before, kernel, whole, r1 + r2, whole_after, joined, r1 + r2),
        a + b == whole + rest || whole == (a + b) + rest,
    ensures
        outputs_of(joined, before.len(), r1 + r2, c) == outputs_of(first, before.len(), r1, c)
            + outputs_of(second, before.len(), r2, c),
{
    let ch = before.len();
    let m = before[c];
    let la = lane_of(a, ch, c as nat);
    let lb = lane_of(b, ch, c as nat);
    let lw = lane_of(whole, ch, c as nat);
    let lr = lane_of(rest, ch, c as nat);
    lemma_lane_of_joined(a, b, ch, c as nat);
    if a + b == whole + rest {
        lemma_lane_of_joined(whole, rest, ch, c as nat);
    } else {
        assert((a + b).len() == a.len() + b.len());
        lemma_lane_of_joined(a + b, rest, ch, c as nat);
    }
    assert(la + lb == lw + lr || lw == (la + lb) + lr);
    assert(before[0].wf());
    assert(m.wf());
    assert(mid[c] == m.after(la, r1));
    assert(mid[0] == before[0].after(lane_of(a, ch, 0), r1));
    let first_c = outputs_of(first, ch, r1, c);
    let second_c = outputs_of(second, ch, r2, c);
    let joined_c = outputs_of(joined, ch, r1 + r2, c);
    assert forall|j: int| 0 <= j < first_c.len() implies kernel_yields(
        kernel,
        m.window(m.history + la, j as nat),
        m.phase(j as nat),
        #[trigger] first_c[j],
    ) by {
        assert(window_at(before, a, c, j) == m.window(m.history + la, j as nat));
    }
    assert forall|j: int| 0 <= j < second_c.len() implies kernel_yields(
        kernel,
        mid[c].window(mid[c].history + lb, j as nat),
        mid[c].phase(j as nat),
        #[trigger] second_c[j],
    ) by {
        assert(window_at(mid, b, c, j) == mid[c].window(mid[c].history + lb, j as nat));
    }
    assert forall|j: int| 0 <= j < joined_c.len() implies kernel_yields(
        kernel,
        m.window(m.history + lw, j as nat),
        m.phase(j as nat),
        #[trigger] joined_c[j],
    ) by {
        assert(window_at(before, whole, c, j) == m.window(m.history + lw, j as nat));
    }
    lemma_outputs_of_one_sequence(
        kernel,
        m,
        la,
        lb,
        lw,
        lr,
        r1,
        r2,
        first_c,
        second_c,
        joined_c,
    );
}

/// Continuity of frames over what was pulled: with a kernel that returns
/// one value only, conversions that are fed from one sequence of frames
/// produce the same frames however much of it each was handed.
///
/// Let channels in the states `before` take the whole frames `a` and
/// produce the `r1` frames they are asked for, and then take `b` and
/// produce the `r2` they are asked for.  Let the same channels take the
/// whole frames `whole` instead and produce `r1 + r2` frames, where `a + b`
/// and `whole` are the beginning of one sequence: one of them is the other
/// followed by `rest`.  The frames of the single conversion are those of
/// the first followed by those of the second.
pub proof fn lemma_resampled_of_one_sequence<T, K: Fn(&[T], u32) -> T>(
    kernel: &K,
    before: Seq<ChannelModel<T>>,
    a: Seq<T>,
    b: Seq<T>,
    whole: Seq<T>,
    rest: Seq<T>,
    r1: nat,
    r2: nat,
    mid: Seq<ChannelModel<T>>,
    first: Seq<T>,
    after: Seq<ChannelModel<T>>,
    second: Seq<T>,
    whole_after: Seq<ChannelModel<T>>,
    joined: Seq<T>,
)
    requires
        before.len() > 0,
        aligned(before, before[0].taps, before[0].num, before[0].den),
        a.len() % before.len() == 0,
        b.len() % before.len() == 0,
        whole.len() % before.len() == 0,
        kernel_is_function(kernel),
        resampled(before, kernel, a, r1, mid, first, r1),
        resampled(mid, kernel, b, r2, after, second, r2),
        resampled(before, kernel, whole, r1 + r2, whole_after, joined, r1 + r2),
        a + b == whole + rest || whole == (a + b) + rest,
    ensures
        joined == first + second,
{
    let ch = before.len();
    vstd::arithmetic::div_mod::lemma_add_mod_noop(a.len() as int, b.len() as int, ch as int);
    vstd::arithmetic::div_mod::lemma_small_mod(0, ch);
    assert(r1 * ch + r2 * ch == (r1 + r2) * ch) by (nonlinear_arith);
    assert forall|k: int| 0 <= k < joined.len() implies joined[k] == (first + second)[k] by {
        let i = k / ch as int;
        let c = k % ch as int;
        vstd::arithmetic::div_mod::lemma_fundamental_div_mod(k, ch as int);
        vstd::arithmetic::div_mod::lemma_mod_bound(k, ch as int);
        assert(k == i * ch + c) by (nonlinear_arith)
            requires
                k == ch * i + c,
        ;
        assert(0 <= i < r1 + r2) by (nonlinear_arith)
            requires
                k == i * ch + c,
                0 <= c < ch,
                0 <= k < (r1 + r2) * ch,
        ;
        lemma_channel_of_one_sequence(
            kernel,
            before,
            a,
            b,
            whole,
            rest,
            r1,
            r2,
            mid,
            first,
            after,
            second,
            whole_after,
            joined,
            c,
        );
        let joined_c = outputs_of(joined, ch, r1 + r2, c);
        let first_c = outputs_of(first, ch, r1, c);
        let second_c = outputs_of(second, ch, r2, c);
        assert(joined[k] == joined_c[i]);
        if i < r1 {
            lemma_frame_index(i, c, r1 as int, ch as int);
            assert(first_c[i] == first[k]);
        } else {
            lemma_frame_index(i - r1, c, r2 as int, ch as int);
            assert((i - r1) * ch == i * ch - r1 * ch) by (nonlinear_arith);
            assert(second_c[i - r1] == second[k - r1 * ch]);
        }
    }
    assert(joined =~= first + second);
}

/// What `lemma_resampled_unit_ratio` says, for channel `c` alone.
proof fn lemma_channel_unit_ratio<T, K: Fn(&[T], u32) -> T>(
    kernel: &K,
    before: Seq<ChannelModel<T>>,
    taps: nat,
    silence: T,
    input: Seq<T>,
    frames: nat,
    after: Seq<ChannelModel<T>>,
    out: Seq<T>,
    produced: nat,
    c: int,
)
    requires
        0 <= c < before.len(),
        taps % 2 == 1,
        forall|k: int|
            0 <= k < before.len() ==> #[trigger] before[k] == ChannelModel::fresh(
                taps,
                1,
                1,
                silence,
            ),
        kernel_passes_centre(kernel, taps),
        input.len() % before.len() == 0,
        resampled(before, kernel, input, frames, after, out, produced),
    ensures
        produced == if frames <= input.len() / before.len() {
            frames
        } else {
            input.len() / before.len()
        },
        forall|i: int|
            0 <= i < produced ==> #[trigger] frame_sample(out, before.len(), i, c) == if i < taps
                / 2 {
                silence
            } else {
                frame_sample(input, before.len(), i - taps / 2, c)
            },
{
    let ch = before.len();
    let m = before[c];
    let lane = lane_of(input, ch, c as nat);
    let out_c = outputs_of(out, ch, produced, c);
    assert(before[0] == m);
    assert forall|j: int| 0 <= j < out_c.len() implies kernel_yields(
        kernel,
        m.window(m.history + lane, j as nat),
        m.phase(j as nat),
        #[trigger] out_c[j],
    ) by {
        assert(window_at(before, input, c, j) == m.window(m.history + lane, j as nat));
    }
    lemma_unit_ratio_delays(kernel, taps, silence, lane, frames, out_c);
    assert forall|i: int| 0 <= i < produced implies #[trigger] frame_sample(out, ch, i, c) == if i
        < taps / 2 {
        silence
    } else {
        frame_sample(input, ch, i - taps / 2, c)
    } by {
        assert(out_c[i] == frame_sample(out, ch, i, c));
        if i >= taps / 2 {
            assert(lane[i - taps / 2] == frame_sample(input, ch, i - taps / 2, c));
        }
    }
}

/// At the ratio one to one a conversion delays its input by half the taps:
/// with a kernel that returns the centre of its window where the read
/// position falls on a sample, channels that have seen no input produce one
/// frame for each frame of input, and sample `c` of frame `i` is sample `c`
/// of the input frame `taps / 2` places earlier, or silence where there is
/// none.
pub proof fn lemma_resampled_unit_ratio<T, K: Fn(&[T], u32) -> T>(
    kernel: &K,
    before: Seq<ChannelModel<T>>,
    taps: nat,
    silence: T,
    input: Seq<T>,
    frames: nat,
    after: Seq<ChannelModel<T>>,
    out: Seq<T>,
    produced: nat,
)
    requires
        before.len() > 0,
        taps % 2 == 1,
        forall|c: int|
            0 <= c < before.len() ==> #[trigger] before[c] == ChannelModel::fresh(
                taps,
                1,
                1,
                silence,
            ),
        kernel_passes_centre(kernel, taps),
        input.len() % before.len() == 0,
        resampled(before, kernel, input, frames, after, out, produced),
    ensures
        produced == if frames <= input.len() / before.len() {
            frames
        } else {
            input.len() / before.len()
        },
        forall|i: int, c: int|
            0 <= i < produced && 0 <= c < before.len() ==> #[trigger] frame_sample(
                out,
                before.len(),
                i,
                c,
            ) == if i < taps / 2 {
                silence
            } else {
                frame_sample(input, before.len(), i - taps / 2, c)
            },
{
    lemma_channel_unit_ratio(kernel, before, taps, silence, input, frames, after, out, produced, 0);
    assert forall|i: int, c: int|
        0 <= i < produced && 0 <= c < before.len() implies #[trigger] frame_sample(
        out,
        before.len(),
        i,
        c,
    ) == if i < taps / 2 {
        silence
    } else {
        frame_sample(input, before.len(), i - taps / 2, c)
    } by {
        lemma_channel_unit_ratio(
            kernel,
            before,
            taps,
            silence,
            input,
            frames,
            after,
            out,
            produced,
            c,
        );
    }
}

/// Silence in, silence out: with a kernel that returns silence for a
/// window of silence, channels that hold nothing but silence and are handed
/// nothing but silence produce nothing but silence.
pub proof fn lemma_resampled_silence<T, K: Fn(&[T], u32) -> T>(
    kernel: &K,
    before: Seq<ChannelModel<T>>,
    silence: T,
    input: Seq<T>,
    frames: nat,
    after: Seq<ChannelModel<T>>,
    out: Seq<T>,
    produced: nat,
)
    requires
        before.len() > 0,
        aligned(before, before[0].taps, before[0].num, before[0].den),
        forall|c: int|
            0 <= c < before.len() ==> all_silence((#[trigger] before[c]).history, silence),
        all_silence(input, silence),
        input.len() % before.len() == 0,
        kernel_keeps_silence(kernel, before[0].taps, silence),
        resampled(before, kernel, input, frames, after, out, produced),
    ensures
        forall|i: int, c: int|
            0 <= i < produced && 0 <= c < before.len() ==> #[trigger] frame_sample(
                out,
                before.len(),
                i,
                c,
            ) == silence,
{
    let ch = before.len();
    assert(before[0].wf());
    assert forall|i: int, c: int| 0 <= i < produced && 0 <= c < ch implies #[trigger] frame_sample(
        out,
        ch,
        i,
        c,
    ) == silence by {
        let m = before[c];
        let lane = lane_of(input, ch, c as nat);
        let out_c = outputs_of(out, ch, produced, c);
        lemma_whole_frames(input.len(), ch);
        assert forall|k: int| 0 <= k < lane.len() implies lane[k] == silence by {
            lemma_frame_index(k, c, lane.len() as int, ch as int);
        }
        assert(all_silence(lane, silence));
        assert(all_silence(m.history, silence));
        assert(m.wf());
        assert forall|j: int| 0 <= j < out_c.len() implies kernel_yields(
            kernel,
            m.window(m.history + lane, j as nat),
            m.phase(j as nat),
            #[trigger] out_c[j],
        ) by {
            assert(window_at(before, input, c, j) == m.window(m.history + lane, j as nat));
        }
        lemma_silence_stays(kernel, m, silence, lane, frames, out_c);
        assert(out_c[i] == frame_sample(out, ch, i, c));
    }
}

/// Every channel holds the look-behind of a full window.
pub open spec fn all_primed<T>(models: Seq<ChannelModel<T>>) -> bool {
    forall|c: int| 0 <= c < models.len() ==> (#[trigger] models[c]).primed()
}

/// What channels in the states `before` do when asked for `frames` frames
/// and handed `pull` frames at most: there are whole frames, `pull` at
/// most, with which the channels did what `resampled` says.  Nothing is
/// said here of where the frames came from; `Resampler::extends_to` ties
/// them to the source.  Where the channels were primed and the
/// frames that came cover the steps of the read position, all `frames`
/// frames were produced and the channels are primed still.
pub open spec fn extended<T, K: Fn(&[T], u32) -> T>(
    before: Seq<ChannelModel<T>>,
    kernel: &K,
    pull: nat,
    frames: nat,
    after: Seq<ChannelModel<T>>,
    out: Seq<T>,
    produced: nat,
) -> bool {
    exists|input: Seq<T>|
        {
            &&& input.len() % before.len() == 0
            &&& input.len() / before.len() <= pull
            &&& #[trigger] resampled(before, kernel, input, frames, after, out, produced)
            &&& all_primed(before) && input.len() / before.len() >= ceil_div(
                frames * before[0].num,
                before[0].den,
            ) ==> produced == frames && all_primed(after)
        }
}

/// How far one call of [`Resampler::resample`] got.
#[derive(Debug, Clone, Copy, PartialEq, Eq, Structural)]
pub struct Progress {
    /// Source frames retired from the history of each channel.
    pub consumed: usize,
    /// Frames produced; fewer than requested where the input ran out.
    pub produced: usize,
}

/// A stream of `CH` channels at `HZ` frames per second, converted from a
/// source stream at `SR` frames per second.
///
/// `K` is the kernel that evaluates the filter: it is called once for each
/// output sample, with the window of source samples and the numerator of
/// the fractional read position.
pub struct Resampler<S, K, T, const CH: usize, const SR: u32, const HZ: u32> {
    /// Source stream.
    stream: S,
    /// Evaluates the filter on one window.
    kernel: K,
    /// Source samples per destination samples, in lowest terms.
    ratio: (u32, u32),
    /// The filter that the conversion uses.
    filter: FilterSpec,
    /// Conversion state, one per channel.
    channels: Vec<ChannelResampler<T>>,
    /// Delay of the filter in source frames.
    input_latency: u32,
    /// Delay of the filter in destination frames.
    output_latency: u64,
}

impl<S, K, T, const CH: usize, const SR: u32, const HZ: u32> View for Resampler<
    S,
    K,
    T,
    CH,
    SR,
    HZ,
> {
    type V = Seq<ChannelModel<T>>;

    closed spec fn view(&self) -> Seq<ChannelModel<T>> {
        Seq::new(self.channels@.len(), |c: int| self.channels@[c]@)
    }
}

impl<S, K, T, const CH: usize, const SR: u32, const HZ: u32> Resampler<S, K, T, CH, SR, HZ> where
    S: Stream<T, CH, SR>,
    K: Fn(&[T], u32) -> T,
    T: Copy,
 {
    /// Source samples per destination samples, in lowest terms.
    pub open spec fn spec_ratio() -> (nat, nat) {
        lowest_terms(SR as nat, HZ as nat)
    }

    /// Tap count of the filter for this conversion.
    pub open spec fn spec_taps() -> nat {
        taps_for(Self::spec_ratio().0, Self::spec_ratio().1)
    }

    /// Source frames that `frames` destination frames take: the delay of
    /// the filter, and the steps of the read position rounded up to whole
    /// frames.
    pub open spec fn spec_required(frames: nat) -> nat {
        Self::spec_taps() / 2 + ceil_div(frames * Self::spec_ratio().0, Self::spec_ratio().1)
    }

    /// Source frames that are pulled for `frames` destination frames: those
    /// that they take, or the largest count there is where they are more.
    pub open spec fn spec_pull(frames: nat) -> nat {
        if Self::spec_required(frames) <= usize::MAX {
            Self::spec_required(frames)
        } else {
            usize::MAX as nat
        }
    }

    /// The source stream.
    pub closed spec fn spec_stream(&self) -> S {
        self.stream
    }

    /// The kernel.
    pub closed spec fn spec_kernel(&self) -> K {
        self.kernel
    }

    /// What is kept beside the channels agrees with them.
    pub closed spec fn coherent(&self) -> bool {
        &&& self.ratio.0 == Self::spec_ratio().0
        &&& self.ratio.1 == Self::spec_ratio().1
        &&& self.ratio.0 > 0
        &&& self.ratio.1 > 0
        &&& self.filter.wf()
        &&& self.filter.taps == Self::spec_taps()
        &&& (self.filter.cutoff_num as nat, self.filter.cutoff_den as nat) == cutoff_for(
            Self::spec_ratio().0,
            Self::spec_ratio().1,
        )
        &&& self.input_latency == Self::spec_taps() / 2
        &&& self.output_latency == output_latency_for(
            Self::spec_taps() / 2,
            Self::spec_ratio().0,
            Self::spec_ratio().1,
        )
        &&& forall|c: int|
            0 <= c < self.channels@.len() ==> (#[trigger] self.channels@[c]).wf()
                && self.channels@[c].spec_filter() == self.filter
    }

    /// The resampler can be used: it is configured for rates and a channel
    /// count that are not zero, its source can be pulled from, its channels
    /// move in step, and its kernel takes every window they can hand it.
    pub open spec fn valid(&self) -> bool {
        &&& CH > 0
        &&& SR > 0
        &&& HZ > 0
        &&& self.spec_stream().wf()
        &&& self@.len() == CH
        &&& aligned(self@, Self::spec_taps(), Self::spec_ratio().0, Self::spec_ratio().1)
        &&& kernel_accepts(&self.spec_kernel(), Self::spec_taps(), Self::spec_ratio().1)
        &&& self.coherent()
    }

    /// Every channel holds the look-behind of a full window.  This holds
    /// from the start and as long as the source has never run short.
    pub open spec fn primed(&self) -> bool {
        all_primed(self@)
    }

    /// No channel has seen input: each is in the state it starts in, with
    /// a history of `silence`.
    pub open spec fn fresh(&self, silence: T) -> bool {
        forall|c: int|
            0 <= c < CH ==> #[trigger] self@[c] == ChannelModel::fresh(
                Self::spec_taps(),
                Self::spec_ratio().0,
                Self::spec_ratio().1,
                silence,
            )
    }

    /// Asked for `frames` frames, the resampler may pull the frames `input`
    /// from its source, append the `produced` frames `out` and be left in
    /// the state `after`.
    ///
    /// The input is whole frames, no more than were asked of the source and
    /// all of them where the source has them; it is what the source says
    /// it delivers, and the source is left as it says; and `out` is the
    /// conversion of the input, as `resampled` says.
    pub open spec fn pulls(
        &self,
        after: &Self,
        frames: nat,
        input: Seq<T>,
        out: Seq<T>,
        produced: nat,
    ) -> bool {
        &&& input.len() % (CH as nat) == 0
        &&& input.len() / (CH as nat) <= Self::spec_pull(frames)
        &&& self.spec_stream().supplies(Self::spec_pull(frames)) ==> input.len() / (CH as nat)
            == Self::spec_pull(frames)
        &&& self.spec_stream().delivers(&after.spec_stream(), input)
        &&& after.spec_kernel() == self.spec_kernel()
        &&& resampled(self@, &self.spec_kernel(), input, frames, after@, out, produced)
    }

    /// Asked for `frames` frames, the resampler may append the `produced`
    /// frames `out` and be left in the state `after`: there are frames that
    /// it may pull from its source to that end.
    pub open spec fn extends_to(
        &self,
        after: &Self,
        frames: nat,
        out: Seq<T>,
        produced: nat,
    ) -> bool {
        exists|input: Seq<T>| #[trigger] self.pulls(after, frames, input, out, produced)
    }

    /// Pulled from, the resampler may append the frames `out` and be left
    /// in the state `after`: asked for some number of frames, it extends
    /// to that.
    pub open spec fn converts_to(&self, after: &Self, out: Seq<T>) -> bool {
        exists|frames: nat, produced: nat| #[trigger] self.extends_to(after, frames, out, produced)
    }

    /// Asked for `frames` frames, the resampler gives them all: it is
    /// primed, and its source has the frames that they take.
    pub open spec fn gives(&self, frames: nat) -> bool {
        &&& self.primed()
        &&& Self::spec_required(frames) <= usize::MAX
        &&& self.spec_stream().supplies(Self::spec_required(frames))
    }

    /// Wraps `stream`, converting it with `kernel`.  The history of every
    /// channel starts out as `silence`.
    ///
    /// Fails where a rate or the channel count is zero.
    pub fn new(stream: S, kernel: K, silence: T) -> (r: Result<Self, ConfigurationError>)
        requires
            stream.wf(),
            SR > 0 && HZ > 0 && CH > 0 ==> kernel_accepts(
                &kernel,
                Self::spec_taps(),
                Self::spec_ratio().1,
            ),
        ensures
            r is Err <==> SR == 0 || HZ == 0 || CH == 0,
            SR == 0 || HZ == 0 ==> r == Err::<Self, ConfigurationError>(
                ConfigurationError::ZeroRate,
            ),
            SR > 0 && HZ > 0 && CH == 0 ==> r == Err::<Self, ConfigurationError>(
                ConfigurationError::ZeroChannels,
            ),
            r is Ok ==> {
                let resampler = r->Ok_0;
                &&& resampler.valid()
                &&& resampler.primed()
                &&& resampler.fresh(silence)
                &&& resampler.spec_stream() == stream
                &&& resampler.spec_kernel() == kernel
                &&& forall|c: int|
                    0 <= c < CH ==> #[trigger] resampler@[c] == ChannelModel::fresh(
                        Self::spec_taps(),
                        Self::spec_ratio().0,
                        Self::spec_ratio().1,
                        silence,
                    )
            },
    {
        let ratio = match simplify(SR, HZ) {
            Ok(ratio) => ratio,
            Err(e) => {
                return Err(e);
            },
        };
        if CH == 0 {
            return Err(ConfigurationError::ZeroChannels);
        }
        let num: u32 = ratio.0;
        let den: u32 = ratio.1;
        let filter = FilterSpec::build(num, den);
        let input_latency: u32 = filter.input_latency();
        let output_latency: u64 = filter.output_latency(num, den);
        let mut channels: Vec<ChannelResampler<T>> = Vec::new();
        let mut c: usize = 0;
        while c < CH
            invariant
                c <= CH,
                filter.wf(),
                num > 0,
                den > 0,
                channels@.len() == c,
                forall|k: int|
                    0 <= k < c ==> {
                        &&& (#[trigger] channels@[k]).wf()
                        &&& channels@[k].spec_filter() == filter
                        &&& channels@[k]@ == ChannelModel::fresh(
                            filter.taps as nat,
                            num as nat,
                            den as nat,
                            silence,
                        )
                    },
            decreases CH - c,
        {
            channels.push(ChannelResampler::new(filter, num, den, silence));
            c += 1;
        }
        let resampler = Resampler {
            stream,
            kernel,
            ratio,
            filter,
            channels,
            input_latency,
            output_latency,
        };
        assert(resampler.valid());
        Ok(resampler)
    }

    /// Source samples per destination samples, in lowest terms.
    pub fn ratio(&self) -> (ratio: (u32, u32))
        requires
            self.valid(),
        ensures
            ratio.0 == Self::spec_ratio().0,
            ratio.1 == Self::spec_ratio().1,
    {
        self.ratio
    }

    /// The filter that the conversion uses.
    pub fn filter(&self) -> (filter: FilterSpec)
        requires
            self.valid(),
        ensures
            filter.wf(),
            filter.taps == Self::spec_taps(),
            (filter.cutoff_num as nat, filter.cutoff_den as nat) == cutoff_for(
                Self::spec_ratio().0,
                Self::spec_ratio().1,
            ),
    {
        self.filter
    }

    /// The delay that the filter brings, in source frames: half its taps.
    pub fn input_latency(&self) -> (latency: u32)
        requires
            self.valid(),
        ensures
            latency == Self::spec_taps() / 2,
    {
        self.input_latency
    }

    /// The delay that the filter brings, in destination frames: the delay
    /// in source frames scaled by the ratio of the rates and rounded to the
    /// nearest frame.
    pub fn output_latency(&self) -> (latency: u64)
        requires
            self.valid(),
        ensures
            latency == output_latency_for(
                Self::spec_taps() / 2,
                Self::spec_ratio().0,
                Self::spec_ratio().1,
            ),
            2 * (latency * Self::spec_ratio().0 - (Self::spec_taps() / 2) * Self::spec_ratio().1)
                <= Self::spec_ratio().0,
            2 * ((Self::spec_taps() / 2) * Self::spec_ratio().1 - latency * Self::spec_ratio().0)
                < Self::spec_ratio().0,
    {
        proof {
            lemma_round_div_nearest(
                (Self::spec_taps() / 2) * Self::spec_ratio().1,
                Self::spec_ratio().0,
            );
        }
        self.output_latency
    }

    /// Source frames retired since the resampler was made, modulo 2^64.
    pub fn consumed_total(&self) -> (count: u64)
        requires
            self.valid(),
        ensures
            count == self@[0].consumed,
    {
        self.channels[0].consumed_total()
    }

    /// Source frames retained for the frames still to come.
    pub fn retained(&self) -> (count: usize)
        requires
            self.valid(),
        ensures
            count == self@[0].history.len(),
    {
        self.channels[0].retained()
    }

    /// Source frames that `frames` destination frames take: the delay of
    /// the filter, and the steps of the read position rounded up to whole
    /// frames.  `None` where that number is beyond what a length can be.
    pub fn required_input_frames(&self, frames: usize) -> (required: Option<usize>)
        requires
            self.valid(),
        ensures
            required is Some <==> Self::spec_required(frames as nat) <= usize::MAX,
            required is Some ==> required->0 == Self::spec_required(frames as nat),
    {
        let num: u128 = self.ratio.0 as u128;
        let den: u128 = self.ratio.1 as u128;
        assert(frames * num <= 0xffff_ffff_ffff_ffff * 0xffff_ffff) by (nonlinear_arith)
            requires
                frames <= 0xffff_ffff_ffff_ffff,
                num <= 0xffff_ffff,
        ;
        let steps: u128 = (frames as u128 * num + den - 1) / den;
        let required: u128 = self.input_latency as u128 + steps;
        if required <= usize::MAX as u128 {
            Some(required as usize)
        } else {
            None
        }
    }

    /// Source frames that are pulled for `frames` destination frames: those
    /// that they take, or the largest count there is where they are more.
    pub fn pull_size(&self, frames: usize) -> (pull: usize)
        requires
            self.valid(),
        ensures
            pull == Self::spec_pull(frames as nat),
    {
        match self.required_input_frames(frames) {
            Some(required) => required,
            None => usize::MAX,
        }
    }

    /// Converts the source frames `input` and appends the result to
    /// `buffer`, up to `frames` frames of it.
    ///
    /// Every channel takes its lane of the input and produces outputs until
    /// `frames` are done or the samples at hand support no more.  The
    /// channels move in step, so all produce the same number.  A resampler
    /// that is primed and is given the frames that `frames` outputs take
    /// produces them all and stays primed.
    pub fn resample(&mut self, input: &[T], buffer: &mut Vec<T>, frames: usize) -> (r: Progress)
        requires
            old(self).valid(),
            input@.len() % (CH as nat) == 0,
        ensures
            final(self).valid(),
            final(self).spec_stream() == old(self).spec_stream(),
            final(self).spec_kernel() == old(self).spec_kernel(),
            r.produced <= frames,
            r.consumed == old(self)@[0].retired(
                old(self)@[0].history.len() + input@.len() / (CH as nat),
                frames as nat,
            ),
            final(buffer)@.len() == old(buffer)@.len() + r.produced * CH,
            final(buffer)@.subrange(0, old(buffer)@.len() as int) == old(buffer)@,
            resampled(
                old(self)@,
                &old(self).spec_kernel(),
                input@,
                frames as nat,
                final(self)@,
                final(buffer)@.subrange(old(buffer)@.len() as int, final(buffer)@.len() as int),
                r.produced as nat,
            ),
            old(self).primed() && input@.len() / (CH as nat) >= ceil_div(
                frames as nat * Self::spec_ratio().0,
                Self::spec_ratio().1,
            ) ==> r.produced == frames && final(self).primed(),
    {
        let ghost before = self@;
        let ghost pulled = input@.len() / (CH as nat);
        let ghost count = before[0].produced(before[0].history.len() + pulled, frames as nat);
        let ghost gone = before[0].retired(before[0].history.len() + pulled, frames as nat);
        let lanes = deinterleave(input, CH);
        let mut outputs: Vec<Vec<T>> = Vec::new();
        let mut consumed: usize = 0;
        let mut produced: usize = 0;
        let mut c: usize = 0;
        while c < CH
            invariant
                c <= CH,
                old(self).valid(),
                before == old(self)@,
                pulled == input@.len() / (CH as nat),
                count == before[0].produced(before[0].history.len() + pulled, frames as nat),
                gone == before[0].retired(before[0].history.len() + pulled, frames as nat),
                self.stream == old(self).stream,
                self.kernel == old(self).kernel,
                self.ratio == old(self).ratio,
                self.filter == old(self).filter,
                self.input_latency == old(self).input_latency,
                self.output_latency == old(self).output_latency,
                self.channels@.len() == CH,
                lanes@.len() == CH,
                forall|k: int|
                    0 <= k < CH ==> (#[trigger] lanes@[k])@ == lane_of(
                        input@,
                        CH as nat,
                        k as nat,
                    ),
                forall|k: int|
                    0 <= k < CH ==> (#[trigger] self.channels@[k]).wf()
                        && self.channels@[k].spec_filter() == self.filter,
                forall|k: int|
                    0 <= k < c ==> (#[trigger] self.channels@[k])@ == before[k].after(
                        lane_of(input@, CH as nat, k as nat),
                        frames as nat,
                    ),
                forall|k: int| c <= k < CH ==> (#[trigger] self.channels@[k])@ == before[k],
                outputs@.len() == c,
                forall|k: int| 0 <= k < c ==> (#[trigger] outputs@[k])@.len() == count,
                forall|i: int, k: int|
                    0 <= i < count && 0 <= k < c ==> kernel_yields(
                        &self.kernel,
                        #[trigger] window_at(before, input@, k, i),
                        before[k].phase(i as nat),
                        outputs@[k]@[i],
                    ),
                c > 0 ==> produced == count && consumed == gone,
            decreases CH - c,
        {
            let r = self.channels[c].process(lanes[c].as_slice(), frames, &self.kernel);
            consumed = r.consumed;
            produced = r.produced;
            outputs.push(r.output);
            c += 1;
        }
        let ghost base = buffer@.len();
        interleave(&outputs, produced, buffer);
        proof {
            let after = self@;
            let out = buffer@.subrange(base as int, buffer@.len() as int);
            let views = Seq::new(outputs@.len(), |k: int| outputs@[k]@);
            let num = Self::spec_ratio().0;
            let den = Self::spec_ratio().1;
            assert(interleaves(out, views, produced as nat));
            assert forall|k: int| 0 <= k < CH implies #[trigger] after[k] == before[k].after(
                lane_of(input@, CH as nat, k as nat),
                frames as nat,
            ) by {
                assert(after[k] == self.channels@[k]@);
            }
            assert forall|i: int, k: int| 0 <= i < produced && 0 <= k < CH implies kernel_yields(
                &self.kernel,
                #[trigger] window_at(before, input@, k, i),
                before[k].phase(i as nat),
                out[i * CH + k],
            ) by {
                assert(out[i * views.len() + k] == views[k][i]);
            }
            assert forall|k: int| 0 <= k < CH implies {
                &&& (#[trigger] after[k]).wf()
                &&& after[k].taps == Self::spec_taps()
                &&& after[k].num == num
                &&& after[k].den == den
                &&& after[k].skip == after[0].skip
                &&& after[k].frac == after[0].frac
                &&& after[k].consumed == after[0].consumed
                &&& after[k].history.len() == after[0].history.len()
            } by {
                assert(before[k].wf() && before[0].wf());
                assert(self.channels@[k].wf());
                assert(after[k] == before[k].after(
                    lane_of(input@, CH as nat, k as nat),
                    frames as nat,
                ));
                assert(after[0] == before[0].after(lane_of(input@, CH as nat, 0), frames as nat));
            }
            if old(self).primed() && pulled >= ceil_div(frames as nat * num, den) {
                assert forall|k: int| 0 <= k < CH implies (#[trigger] after[k]).primed() by {
                    assert(before[k].primed());
                    lemma_primed_supplies(
                        before[k],
                        lane_of(input@, CH as nat, k as nat),
                        frames as nat,
                    );
                }
                assert(before[0].primed());
                lemma_primed_supplies(before[0], lane_of(input@, CH as nat, 0), frames as nat);
            }
        }
        Progress { consumed, produced }
    }

    /// Appends up to `frames` converted frames to `buffer` and returns how
    /// many were appended.
    ///
    /// The source is asked for the frames that `frames` outputs take, and
    /// what it delivers is converted as [`Resampler::resample`] says: the
    /// frames converted are frames that the source says it delivers, in the
    /// state that it is left in (`extends_to`).  A resampler that is
    /// primed, and whose source has the frames it is asked for, appends all
    /// `frames` frames and stays primed.
    pub fn extend(&mut self, buffer: &mut Vec<T>, frames: usize) -> (produced: usize)
        requires
            old(self).valid(),
        ensures
            final(self).valid(),
            final(self).spec_kernel() == old(self).spec_kernel(),
            produced <= frames,
            final(buffer)@.len() == old(buffer)@.len() + produced * CH,
            final(buffer)@.subrange(0, old(buffer)@.len() as int) == old(buffer)@,
            extended(
                old(self)@,
                &old(self).spec_kernel(),
                Self::spec_pull(frames as nat),
                frames as nat,
                final(self)@,
                final(buffer)@.subrange(old(buffer)@.len() as int, final(buffer)@.len() as int),
                produced as nat,
            ),
            old(self).extends_to(
                final(self),
                frames as nat,
                final(buffer)@.subrange(old(buffer)@.len() as int, final(buffer)@.len() as int),
                produced as nat,
            ),
            old(self).gives(frames as nat) ==> produced == frames && final(self).primed(),
    {
        let ghost before = self@;
        let ghost base = buffer@.len();
        let pull: usize = self.pull_size(frames);
        let mut convert: Vec<T> = Vec::new();
        let pulled: usize = self.stream.extend(&mut convert, pull);
        proof {
            vstd::arithmetic::div_mod::lemma_mod_multiples_basic(pulled as int, CH as int);
            vstd::arithmetic::div_mod::lemma_div_by_multiple(pulled as int, CH as int);
        }
        assert(convert@.subrange(0, convert@.len() as int) =~= convert@);
        let r = self.resample(convert.as_slice(), buffer, frames);
        proof {
            let out = buffer@.subrange(base as int, buffer@.len() as int);
            assert(resampled(
                before,
                &self.kernel,
                convert@,
                frames as nat,
                self@,
                out,
                r.produced as nat,
            ));
            assert(old(self).pulls(&*self, frames as nat, convert@, out, r.produced as nat));
        }
        r.produced
    }

    /// Identity at equal rates: a resampler between equal rates that has
    /// seen no input delays what it pulls by its output latency.
    ///
    /// Let the kernel return the centre of its window where the read
    /// position falls on a sample, and let the resampler pull the frames
    /// `input` and append the frames `out`.  The output latency is the
    /// input latency.  One frame is appended for each frame pulled, up to
    /// the number asked for, and sample `c` of frame `i` is sample `c` of
    /// the input frame that lies the output latency earlier, or silence
    /// where there is none.
    pub proof fn lemma_equal_rates_delay(
        &self,
        after: &Self,
        silence: T,
        frames: nat,
        input: Seq<T>,
        out: Seq<T>,
        produced: nat,
    )
        requires
            SR == HZ,
            self.valid(),
            self.fresh(silence),
            kernel_passes_centre(&self.spec_kernel(), Self::spec_taps()),
            self.pulls(after, frames, input, out, produced),
        ensures
            Self::spec_ratio() == (1nat, 1nat),
            output_latency_for(Self::spec_taps() / 2, 1, 1) == Self::spec_taps() / 2,
            produced == if frames <= input.len() / (CH as nat) {
                frames
            } else {
                input.len() / (CH as nat)
            },
            forall|i: int, c: int|
                0 <= i < produced && 0 <= c < CH ==> #[trigger] frame_sample(out, CH as nat, i, c)
                    == if i < output_latency_for(Self::spec_taps() / 2, 1, 1) {
                    silence
                } else {
                    frame_sample(
                        input,
                        CH as nat,
                        i - output_latency_for(Self::spec_taps() / 2, 1, 1),
                        c,
                    )
                },
    {
        lemma_equal_terms(SR as nat);
        let half = Self::spec_taps() / 2;
        assert(half * 1 == half) by (nonlinear_arith);
        assert(round_div(half, 1) == half);
        assert(self@[0].wf());
        lemma_resampled_unit_ratio(
            &self.spec_kernel(),
            self@,
            Self::spec_taps(),
            silence,
            input,
            frames,
            after@,
            out,
            produced,
        );
    }

    /// Silence in, silence out: with a kernel that returns silence for a
    /// window of silence, a resampler that has seen no input and pulls
    /// nothing but silence appends nothing but silence.
    pub proof fn lemma_silence_stays_silence(
        &self,
        after: &Self,
        silence: T,
        frames: nat,
        input: Seq<T>,
        out: Seq<T>,
        produced: nat,
    )
        requires
            self.valid(),
            self.fresh(silence),
            all_silence(input, silence),
            kernel_keeps_silence(&self.spec_kernel(), Self::spec_taps(), silence),
            self.pulls(after, frames, input, out, produced),
        ensures
            forall|i: int, c: int|
                0 <= i < produced && 0 <= c < CH ==> #[trigger] frame_sample(out, CH as nat, i, c)
                    == silence,
    {
        assert(self@[0].wf());
        assert forall|c: int| 0 <= c < self@.len() implies all_silence(
            (#[trigger] self@[c]).history,
            silence,
        ) by {
            assert(self@[c] == ChannelModel::fresh(
                Self::spec_taps(),
                Self::spec_ratio().0,
                Self::spec_ratio().1,
                silence,
            ));
        }
        lemma_resampled_silence(
            &self.spec_kernel(),
            self@,
            silence,
            input,
            frames,
            after@,
            out,
            produced,
        );
    }

    /// Continuity of `extend`: with a kernel that returns one value only,
    /// two resamplers in the same state, fed from one sequence of frames,
    /// append the same frames whether they are asked twice or once.
    ///
    /// Let this resampler pull `first_in` and append the `n1` frames
    /// `first` that it is asked for, and then pull `second_in` and append
    /// the `n2` frames `second`.  Let its twin pull `whole_in` and append
    /// `n1 + n2` frames, `joined`.  Let what the two pulled be the
    /// beginning of one sequence: of `first_in + second_in` and `whole_in`,
    /// one is the other followed by `rest`.  Then `joined` is `first`
    /// followed by `second`.
    pub proof fn lemma_extend_continuity(
        &self,
        mid: &Self,
        after: &Self,
        twin: &Self,
        twin_after: &Self,
        n1: nat,
        n2: nat,
        first_in: Seq<T>,
        second_in: Seq<T>,
        whole_in: Seq<T>,
        rest: Seq<T>,
        first: Seq<T>,
        second: Seq<T>,
        joined: Seq<T>,
    )
        requires
            self.valid(),
            twin@ == self@,
            twin.spec_kernel() == self.spec_kernel(),
            kernel_is_function(&self.spec_kernel()),
            self.pulls(mid, n1, first_in, first, n1),
            mid.pulls(after, n2, second_in, second, n2),
            twin.pulls(twin_after, n1 + n2, whole_in, joined, n1 + n2),
            first_in + second_in == whole_in + rest || whole_in == (first_in + second_in) + rest,
        ensures
            joined == first + second,
    {
        assert(self@[0].wf());
        lemma_resampled_of_one_sequence(
            &self.spec_kernel(),
            self@,
            first_in,
            second_in,
            whole_in,
            rest,
            n1,
            n2,
            mid@,
            first,
            after@,
            second,
            twin_after@,
            joined,
        );
    }

    /// Seen as a stream, a resampler can be pulled from exactly when it is
    /// valid, has frames to give exactly when `gives` says so, and delivers
    /// what `converts_to` says.
    pub proof fn lemma_as_stream(&self, frames: nat)
        ensures
            self.wf() == self.valid(),
            self.supplies(frames) == self.gives(frames),
            forall|after: &Self, out: Seq<T>|
                #[trigger] self.delivers(after, out) == self.converts_to(after, out),
    {
    }
}

impl<S, K, T, const CH: usize, const SR: u32, const HZ: u32> Stream<T, CH, HZ> for Resampler<
    S,
    K,
    T,
    CH,
    SR,
    HZ,
> where S: Stream<T, CH, SR>, K: Fn(&[T], u32) -> T, T: Copy {
    /// A resampler can be pulled from when it is valid.
    open spec fn wf(&self) -> bool {
        self.valid()
    }

    /// A resampler has frames to give when it is primed and its source has
    /// the frames that they take.
    open spec fn supplies(&self, frames: nat) -> bool {
        self.gives(frames)
    }

    /// A resampler delivers the conversion of what its source delivers.
    open spec fn delivers(&self, after: &Self, appended: Seq<T>) -> bool {
        self.converts_to(after, appended)
    }

    /// Appends up to `frames` converted frames to `buffer`, as
    /// [`Resampler::extend`] does.
    fn extend(&mut self, buffer: &mut Vec<T>, frames: usize) -> (produced: usize)
        ensures
            final(self).valid(),
            final(self).spec_kernel() == old(self).spec_kernel(),
            extended(
                old(self)@,
                &old(self).spec_kernel(),
                Self::spec_pull(frames as nat),
                frames as nat,
                final(self)@,
                final(buffer)@.subrange(old(buffer)@.len() as int, final(buffer)@.len() as int),
                produced as nat,
            ),
            old(self).extends_to(
                final(self),
                frames as nat,
                final(buffer)@.subrange(old(buffer)@.len() as int, final(buffer)@.len() as int),
                produced as nat,
            ),
            old(self).gives(frames as nat) ==> produced == frames && final(self).primed(),
    {
        let ghost base = buffer@.len();
        let produced = Resampler::extend(self, buffer, frames);
        assert(old(self).extends_to(
            &*self,
            frames as nat,
            buffer@.subrange(base as int, buffer@.len() as int),
            produced as nat,
        ));
        produced
    }
}

} // verus!
