//! The conversion engine of one channel.
//!
//! A [`ChannelResampler`] keeps the samples that outputs still to come are
//! computed from, and the exact read position.  Each call takes new input,
//! produces as many outputs as were asked for and as the samples at hand
//! support, and retires what no later output can need.
//!
//! The engine does not evaluate the filter itself.  For each output it hands
//! the window of samples and the fractional read position to a kernel, which
//! weighs the samples and returns their sum.  What is proved here holds for
//! every kernel: which windows it is called on, in which order, and what is
//! retained.

use vstd::prelude::*;
use vstd::slice::slice_subrange;

use crate::filter::FilterSpec;
use crate::model::{
    counter_modulus, lemma_advance_splits, lemma_fits_iff_available, lemma_process_continuity,
    lemma_step_bound, ChannelModel,
};

verus! {

/// The kernel may be called on every window of `taps` samples at every read
/// position below `den`.
pub open spec fn kernel_accepts<T, K: Fn(&[T], u32) -> T>(kernel: &K, taps: nat, den: nat) -> bool {
    forall|w: &[T], phase: u32|
        w@.len() == taps && phase < den ==> #[trigger] kernel.requires((w, phase))
}

/// `out` is a value that the kernel may return for `window` at the read
/// position `phase`.
pub open spec fn kernel_yields<T, K: Fn(&[T], u32) -> T>(
    kernel: &K,
    window: Seq<T>,
    phase: nat,
    out: T,
) -> bool {
    exists|w: &[T]| w@ == window && #[trigger] kernel.ensures((w, phase as u32), out)
}

/// The kernel returns one value only for each window and read position.
pub open spec fn kernel_is_function<T, K: Fn(&[T], u32) -> T>(kernel: &K) -> bool {
    forall|window: Seq<T>, phase: nat, first: T, second: T|
        #![trigger
            kernel_yields(kernel, window, phase, first),
            kernel_yields(kernel, window, phase, second),
        ]
        kernel_yields(kernel, window, phase, first) && kernel_yields(kernel, window, phase, second)
            ==> first == second
}

/// Where the read position falls on a sample, the kernel returns the sample
/// at the centre of the window.
pub open spec fn kernel_passes_centre<T, K: Fn(&[T], u32) -> T>(kernel: &K, taps: nat) -> bool {
    forall|window: Seq<T>, out: T|
        window.len() == taps && #[trigger] kernel_yields(kernel, window, 0, out) ==> out
            == window[taps as int / 2]
}

/// Every sample is `silence`.
pub open spec fn all_silence<T>(samples: Seq<T>, silence: T) -> bool {
    forall|k: int| 0 <= k < samples.len() ==> #[trigger] samples[k] == silence
}

/// For a window of `taps` samples that holds nothing but silence the
/// kernel returns silence, wherever the read position falls.
pub open spec fn kernel_keeps_silence<T, K: Fn(&[T], u32) -> T>(
    kernel: &K,
    taps: nat,
    silence: T,
) -> bool {
    forall|window: Seq<T>, phase: nat, out: T|
        window.len() == taps && all_silence(window, silence) && #[trigger] kernel_yields(
            kernel,
            window,
            phase,
            out,
        ) ==> out == silence
}

/// `out` is what a channel in the state `m` may produce when it is given
/// `input` and asked for `requested` outputs: as many outputs as the samples
/// support, each a value that the kernel may return for the window and the
/// read position of its place.
pub open spec fn process_yields<T, K: Fn(&[T], u32) -> T>(
    kernel: &K,
    m: ChannelModel<T>,
    input: Seq<T>,
    requested: nat,
    out: Seq<T>,
) -> bool {
    &&& out.len() == m.produced(m.history.len() + input.len(), requested)
    &&& forall|j: int|
        0 <= j < out.len() ==> kernel_yields(
            kernel,
            m.window(m.history + input, j as nat),
            m.phase(j as nat),
            #[trigger] out[j],
        )
}

/// What one call of [`ChannelResampler::process`] did.
pub struct Processed<T> {
    /// Samples retired from the history.
    pub consumed: usize,
    /// Outputs produced; fewer than requested where the input ran out.
    pub produced: usize,
    /// The outputs, in order.
    pub output: Vec<T>,
}

/// The conversion state of one channel.
pub struct ChannelResampler<T> {
    filter: FilterSpec,
    num: u32,
    den: u32,
    history: Vec<T>,
    skip: u32,
    frac: u32,
    consumed: u64,
}

impl<T> View for ChannelResampler<T> {
    type V = ChannelModel<T>;

    closed spec fn view(&self) -> ChannelModel<T> {
        ChannelModel {
            taps: self.filter.taps as nat,
            num: self.num as nat,
            den: self.den as nat,
            history: self.history@,
            skip: self.skip as nat,
            frac: self.frac as nat,
            consumed: self.consumed as nat,
        }
    }
}

impl<T: Copy> ChannelResampler<T> {
    /// The filter that this channel was made for.
    pub closed spec fn spec_filter(&self) -> FilterSpec {
        self.filter
    }

    /// The state is well formed, and it is the state of a channel with a
    /// well-formed filter.
    pub open spec fn wf(&self) -> bool {
        &&& self@.wf()
        &&& self.spec_filter().wf()
        &&& self@.taps == self.spec_filter().taps
        &&& self@.num <= u32::MAX
        &&& self@.den <= u32::MAX
    }

    /// A channel that has seen no input, for a conversion that reads `num`
    /// input samples for every `den` output samples.  Its history is
    /// silence.
    pub fn new(filter: FilterSpec, num: u32, den: u32, silence: T) -> (channel: Self)
        requires
            filter.wf(),
            num > 0,
            den > 0,
        ensures
            channel.wf(),
            channel.spec_filter() == filter,
            channel@ == ChannelModel::fresh(filter.taps as nat, num as nat, den as nat, silence),
            channel@.primed(),
    {
        let mut history: Vec<T> = Vec::new();
        let mut i: u32 = 1;
        while i < filter.taps
            invariant
                1 <= i <= filter.taps || filter.taps == 0,
                filter.taps % 2 == 1,
                history@.len() == i - 1,
                forall|k: int| 0 <= k < history@.len() ==> history@[k] == silence,
            decreases filter.taps - i,
        {
            history.push(silence);
            i += 1;
        }
        let channel = ChannelResampler { filter, num, den, history, skip: 0, frac: 0, consumed: 0 };
        assert(channel@.history =~= ChannelModel::fresh(
            filter.taps as nat,
            num as nat,
            den as nat,
            silence,
        ).history);
        channel
    }

    /// The filter that this channel was made for.
    pub fn filter(&self) -> (filter: FilterSpec)
        ensures
            filter == self.spec_filter(),
    {
        self.filter
    }

    /// Samples retired since the channel was made, modulo 2^64.
    pub fn consumed_total(&self) -> (count: u64)
        ensures
            count == self@.consumed,
    {
        self.consumed
    }

    /// Samples retained for the outputs still to come.
    pub fn retained(&self) -> (count: usize)
        ensures
            count == self@.history.len(),
    {
        self.history.len()
    }

    /// Numerator of the fractional read position; the denominator is the
    /// output term of the ratio.
    pub fn phase(&self) -> (frac: u32)
        ensures
            frac == self@.frac,
    {
        self.frac
    }

    /// Takes `input`, produces up to `requested` outputs and retires the
    /// samples that no later output needs.
    ///
    /// The input is appended to the history.  Output `j` is what `kernel`
    /// returns for the window that starts `position(j)` samples into the
    /// history, at the read position `phase(j)`.  Outputs are produced in
    /// order until `requested` are done or the next window would reach
    /// beyond the samples at hand; the counts returned say which.
    pub fn process<K: Fn(&[T], u32) -> T>(
        &mut self,
        input: &[T],
        requested: usize,
        kernel: &K,
    ) -> (r: Processed<T>)
        requires
            old(self).wf(),
            kernel_accepts(kernel, old(self)@.taps, old(self)@.den),
        ensures
            final(self).wf(),
            final(self).spec_filter() == old(self).spec_filter(),
            final(self)@ == old(self)@.after(input@, requested as nat),
            r.produced == old(self)@.produced(
                old(self)@.history.len() + input@.len(),
                requested as nat,
            ),
            r.consumed == old(self)@.retired(
                old(self)@.history.len() + input@.len(),
                requested as nat,
            ),
            r.output@.len() == r.produced,
            process_yields(kernel, old(self)@, input@, requested as nat, r.output@),
    {
        let ghost m = self@;
        let ghost buf = m.history + input@;
        let mut i: usize = 0;
        while i < input.len()
            invariant
                i <= input@.len(),
                self.history@ == m.history + input@.subrange(0, i as int),
                self.filter == old(self).filter,
                self.num == old(self).num,
                self.den == old(self).den,
                self.skip == old(self).skip,
                self.frac == old(self).frac,
                self.consumed == old(self).consumed,
            decreases input@.len() - i,
        {
            self.history.push(input[i]);
            i += 1;
            assert(self.history@ =~= m.history + input@.subrange(0, i as int));
        }
        assert(self.history@ =~= buf);
        let total: usize = self.history.len();
        let taps: usize = self.filter.taps as usize;
        let mut pos: usize = if self.skip as usize <= total {
            self.skip as usize
        } else {
            total
        };
        let mut over: u32 = (self.skip as usize - pos) as u32;
        let mut frac: u32 = self.frac;
        let mut produced: usize = 0;
        let mut output: Vec<T> = Vec::new();
        assert(m.position(0) == m.skip && m.phase(0) == m.frac) by {
            vstd::arithmetic::div_mod::lemma_small_mod(m.frac, m.den);
            vstd::arithmetic::div_mod::lemma_basic_div(m.frac as int, m.den as int);
        }
        while produced < requested && over == 0 && total - pos >= taps
            invariant
                m == old(self)@,
                m.wf(),
                kernel_accepts(kernel, m.taps, m.den),
                self.history@ == buf,
                self.filter == old(self).filter,
                self.num == old(self).num,
                self.den == old(self).den,
                self.skip == old(self).skip,
                self.frac == old(self).frac,
                self.consumed == old(self).consumed,
                total == buf.len(),
                taps == m.taps,
                pos <= total,
                over > 0 ==> pos == total,
                pos + over == m.position(produced as nat),
                frac == m.phase(produced as nat),
                produced <= requested,
                produced > 0 ==> m.fits((produced - 1) as nat, total as nat),
                output@.len() == produced,
                forall|j: int|
                    0 <= j < produced ==> kernel_yields(
                        kernel,
                        m.window(buf, j as nat),
                        m.phase(j as nat),
                        #[trigger] output@[j],
                    ),
            decreases requested - produced,
        {
            let window = slice_subrange(self.history.as_slice(), pos, pos + taps);
            let out = kernel(window, frac);
            output.push(out);
            proof {
                assert(window@ == m.window(buf, produced as nat));
                assert(kernel.ensures((window, m.phase(produced as nat) as u32), out));
                lemma_advance_splits(m.frac, produced as nat, 1, m.num, m.den);
                lemma_step_bound(frac as nat, m.num, m.den);
            }
            let reach: u64 = frac as u64 + self.num as u64;
            let step: u64 = reach / (self.den as u64);
            frac = (reach % (self.den as u64)) as u32;
            let room: usize = total - pos;
            if step <= room as u64 {
                pos = pos + step as usize;
            } else {
                over = (step - room as u64) as u32;
                pos = total;
            }
            produced += 1;
        }
        proof {
            lemma_fits_iff_available(m, produced as nat, total as nat);
            if produced > 0 {
                lemma_fits_iff_available(m, (produced - 1) as nat, total as nat);
            }
        }
        let rest = self.history.split_off(pos);
        self.history = rest;
        self.skip = over;
        self.frac = frac;
        self.consumed = self.consumed.wrapping_add(pos as u64);
        proof {
            let gone = pos as nat;
            let sum = m.consumed + gone;
            if sum < counter_modulus() {
                vstd::arithmetic::div_mod::lemma_small_mod(sum, counter_modulus());
            } else {
                vstd::arithmetic::div_mod::lemma_small_mod(
                    (sum - counter_modulus()) as nat,
                    counter_modulus(),
                );
                vstd::arithmetic::div_mod::lemma_mod_sub_multiples_vanish(
                    sum as int,
                    counter_modulus() as int,
                );
            }
            vstd::arithmetic::div_mod::lemma_mod_bound(
                m.phase(produced as nat) as int,
                m.den as int,
            );
            assert(self@ == m.after(input@, requested as nat));
        }
        Processed { consumed: pos, produced, output }
    }
}

/// Continuity of the outputs: with a kernel that returns one value only,
/// what two calls in a row produce is what one call on the joined input
/// produces.
///
/// Let a first call take `a` and be asked for `r1` outputs, and a second
/// take `b` and be asked for `r2`.  Let a single call take `a + b` and be
/// asked for as many outputs as the two produced together, or, where the
/// first did not run short, for `r1 + r2`.  Its outputs are those of the
/// first call followed by those of the second.
pub proof fn lemma_outputs_continuous<T, K: Fn(&[T], u32) -> T>(
    kernel: &K,
    m: ChannelModel<T>,
    a: Seq<T>,
    b: Seq<T>,
    r1: nat,
    r2: nat,
    requested: nat,
    first: Seq<T>,
    second: Seq<T>,
    joined: Seq<T>,
)
    requires
        m.wf(),
        kernel_is_function(kernel),
        process_yields(kernel, m, a, r1, first),
        process_yields(kernel, m.after(a, r1), b, r2, second),
        process_yields(kernel, m, a + b, requested, joined),
        requested == first.len() + second.len() || (first.len() == r1 && requested == r1 + r2),
    ensures
        joined == first + second,
        m.after(a + b, requested) == m.after(a, r1).after(b, r2),
{
    lemma_process_continuity(m, a, b, r1, r2);
    let m1 = m.after(a, r1);
    let whole = m.history + (a + b);
    let made1 = first.len();
    assert(joined.len() == first.len() + second.len());
    assert forall|j: int| 0 <= j < joined.len() implies joined[j] == (first + second)[j] by {
        let window = m.window(whole, j as nat);
        let phase = m.phase(j as nat);
        assert(kernel_yields(kernel, window, phase, joined[j]));
        if j < made1 {
            assert(m.window(whole, j as nat) == m.window(m.history + a, j as nat));
            assert(kernel_yields(kernel, window, phase, first[j]));
        } else {
            let k = (j - made1) as nat;
            assert(m1.window(m1.history + b, k) == m.window(whole, made1 + k));
            assert(m1.phase(k) == m.phase(made1 + k));
            assert(kernel_yields(kernel, window, phase, second[k as int]));
        }
    }
    assert(joined =~= first + second);
}

/// Continuity over what was pulled: with a kernel that returns one value
/// only, calls that are fed from one sequence of samples produce the same
/// outputs however much of it each was handed.
///
/// Let a first call take `a` and produce the `r1` outputs it is asked for,
/// and a second take `b` and produce the `r2` it is asked for.  Let a single
/// call take `whole` and produce `r1 + r2`, where `a + b` and `whole` are
/// the beginning of one sequence: one of them is the other followed by
/// `rest`.  The outputs of the single call are those of the first call
/// followed by those of the second.
pub proof fn lemma_outputs_of_one_sequence<T, K: Fn(&[T], u32) -> T>(
    kernel: &K,
    m: ChannelModel<T>,
    a: Seq<T>,
    b: Seq<T>,
    whole: Seq<T>,
    rest: Seq<T>,
    r1: nat,
    r2: nat,
    first: Seq<T>,
    second: Seq<T>,
    joined: Seq<T>,
)
    requires
        m.wf(),
        kernel_is_function(kernel),
        process_yields(kernel, m, a, r1, first),
        first.len() == r1,
        process_yields(kernel, m.after(a, r1), b, r2, second),
        second.len() == r2,
        process_yields(kernel, m, whole, r1 + r2, joined),
        joined.len() == r1 + r2,
        a + b == whole + rest || whole == (a + b) + rest,
    ensures
        joined == first + second,
{
    lemma_process_continuity(m, a, b, r1, r2);
    let m1 = m.after(a, r1);
    let fed = m.history + (a + b);
    let got = m.history + whole;
    assert(fed.len() == m.history.len() + a.len() + b.len());
    assert(got.len() == m.history.len() + whole.len());
    if a + b == whole + rest {
        assert(fed =~= got + rest);
    } else {
        assert(got =~= fed + rest);
    }
    assert forall|j: int| 0 <= j < joined.len() implies joined[j] == (first + second)[j] by {
        let phase = m.phase(j as nat);
        lemma_fits_iff_available(m, j as nat, fed.len());
        lemma_fits_iff_available(m, j as nat, got.len());
        assert(m.window(got, j as nat) =~= m.window(fed, j as nat));
        let window = m.window(fed, j as nat);
        assert(kernel_yields(kernel, window, phase, joined[j]));
        if j < r1 {
            assert(m.window(fed, j as nat) == m.window(m.history + a, j as nat));
            assert(kernel_yields(kernel, window, phase, first[j]));
        } else {
            let k = (j - r1) as nat;
            assert(m1.window(m1.history + b, k) == m.window(fed, r1 + k));
            assert(m1.phase(k) == m.phase(r1 + k));
            assert(kernel_yields(kernel, window, phase, second[k as int]));
        }
    }
    assert(joined =~= first + second);
}

/// Silence in, silence out: with a kernel that returns silence for a
/// window of silence, a channel that holds nothing but silence and is given
/// nothing but silence produces nothing but silence.
pub proof fn lemma_silence_stays<T, K: Fn(&[T], u32) -> T>(
    kernel: &K,
    m: ChannelModel<T>,
    silence: T,
    input: Seq<T>,
    requested: nat,
    out: Seq<T>,
)
    requires
        m.wf(),
        all_silence(m.history, silence),
        all_silence(input, silence),
        kernel_keeps_silence(kernel, m.taps, silence),
        process_yields(kernel, m, input, requested, out),
    ensures
        all_silence(out, silence),
{
    let buf = m.history + input;
    assert forall|j: int| 0 <= j < out.len() implies #[trigger] out[j] == silence by {
        lemma_fits_iff_available(m, j as nat, buf.len());
        let window = m.window(buf, j as nat);
        assert(all_silence(window, silence));
        assert(kernel_yields(kernel, window, m.phase(j as nat), out[j]));
    }
}

/// At the ratio one to one a channel delays its input by half the taps:
/// with a kernel that returns the centre of its window where the read
/// position falls on a sample, a channel that has seen no input produces
/// one output for each input sample, and output `j` is the input sample
/// `taps / 2` places earlier, or silence where there is none.
pub proof fn lemma_unit_ratio_delays<T, K: Fn(&[T], u32) -> T>(
    kernel: &K,
    taps: nat,
    silence: T,
    input: Seq<T>,
    requested: nat,
    out: Seq<T>,
)
    requires
        taps % 2 == 1,
        kernel_passes_centre(kernel, taps),
        process_yields(kernel, ChannelModel::fresh(taps, 1, 1, silence), input, requested, out),
    ensures
        out.len() == if requested <= input.len() {
            requested
        } else {
            input.len()
        },
        forall|j: int|
            0 <= j < out.len() ==> #[trigger] out[j] == if j < taps / 2 {
                silence
            } else {
                input[j - taps / 2]
            },
{
    let m = ChannelModel::fresh(taps, 1, 1, silence);
    let buf = m.history + input;
    assert forall|j: int| 0 <= j < out.len() implies #[trigger] out[j] == if j < taps / 2 {
        silence
    } else {
        input[j - taps / 2]
    } by {
        lemma_fits_iff_available(m, j as nat, buf.len());
        let window = m.window(buf, j as nat);
        assert(m.position(j as nat) == j);
        assert(m.phase(j as nat) == 0);
        assert(kernel_yields(kernel, window, 0, out[j]));
        assert(window[taps as int / 2] == buf[j + taps / 2]);
    }
}

} // verus!
