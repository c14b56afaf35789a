//! The mathematical model of one channel's conversion state.
//!
//! A conversion reads `num` input samples for every `den` output samples.
//! The read position therefore moves in steps of `num / den`, which is kept
//! exactly: a whole sample index and a numerator below `den`.  Everything a
//! channel remembers between calls is the samples it may still need and that
//! position; this module says, in closed form, which outputs a given amount
//! of input supports, which samples each output is computed from, and what
//! is left for the next call.

use vstd::arithmetic::div_mod::*;
use vstd::prelude::*;

verus! {

/// Counters of consumed samples wrap at this value.
pub open spec fn counter_modulus() -> nat {
    0x1_0000_0000_0000_0000
}

/// `a / b` rounded up.
pub open spec fn ceil_div(a: nat, b: nat) -> nat {
    ((a + b - 1) / (b as int)) as nat
}

/// The state of one channel between two calls.
pub struct ChannelModel<T> {
    /// Number of filter taps; the window of one output spans this many
    /// consecutive samples.
    pub taps: nat,
    /// Input samples read per `den` output samples.
    pub num: nat,
    /// Output samples written per `num` input samples.
    pub den: nat,
    /// The samples retained, oldest first.
    pub history: Seq<T>,
    /// Samples still to pass over before the next window starts, where the
    /// read position lies beyond everything retained.
    pub skip: nat,
    /// Numerator of the fractional part of the read position.
    pub frac: nat,
    /// Samples retired so far, counted modulo `counter_modulus()`.
    pub consumed: nat,
}

impl<T> ChannelModel<T> {
    /// The state before any input: a history of silence one sample short of
    /// a full window, read from its start.
    pub open spec fn fresh(taps: nat, num: nat, den: nat, silence: T) -> Self {
        ChannelModel {
            taps,
            num,
            den,
            history: Seq::new((taps - 1) as nat, |i: int| silence),
            skip: 0,
            frac: 0,
            consumed: 0,
        }
    }

    pub open spec fn wf(self) -> bool {
        &&& self.taps % 2 == 1
        &&& self.num > 0
        &&& self.den > 0
        &&& self.frac < self.den
        &&& self.skip > 0 ==> self.history.len() == 0
        &&& self.consumed < counter_modulus()
    }

    /// Index, among the samples retained and those still to come, at which
    /// the window of the `j`-th next output starts.
    pub open spec fn position(self, j: nat) -> nat {
        self.skip + (self.frac + j * self.num) / self.den
    }

    /// Numerator of the fractional read position of the `j`-th next output.
    pub open spec fn phase(self, j: nat) -> nat {
        (self.frac + j * self.num) % self.den
    }

    /// The window of the `j`-th next output lies within the first `len`
    /// samples.
    pub open spec fn fits(self, j: nat, len: nat) -> bool {
        self.position(j) + self.taps <= len
    }

    /// The samples that the `j`-th next output is computed from, taken out
    /// of `buf`, which is the history followed by the new input.
    pub open spec fn window(self, buf: Seq<T>, j: nat) -> Seq<T> {
        buf.subrange(self.position(j) as int, (self.position(j) + self.taps) as int)
    }

    /// How many outputs `len` samples support.
    pub open spec fn available(self, len: nat) -> nat {
        if self.skip + self.taps > len {
            0
        } else {
            (((len - self.taps - self.skip + 1) * self.den - 1 - self.frac) / (self.num as int)
                + 1) as nat
        }
    }

    /// How many outputs a call produces that has `len` samples at hand and
    /// is asked for `requested`.
    pub open spec fn produced(self, len: nat, requested: nat) -> nat {
        if requested <= self.available(len) {
            requested
        } else {
            self.available(len)
        }
    }

    /// How many of the `len` samples at hand such a call retires: those
    /// before the window of the output that comes next.
    pub open spec fn retired(self, len: nat, requested: nat) -> nat {
        let next = self.position(self.produced(len, requested));
        if next <= len {
            next
        } else {
            len
        }
    }

    /// The state after a call that was given `input` and asked for
    /// `requested` outputs.
    pub open spec fn after(self, input: Seq<T>, requested: nat) -> Self {
        let buf = self.history + input;
        let n = self.produced(buf.len(), requested);
        let gone = self.retired(buf.len(), requested);
        ChannelModel {
            taps: self.taps,
            num: self.num,
            den: self.den,
            history: buf.subrange(gone as int, buf.len() as int),
            skip: (self.position(n) - gone) as nat,
            frac: self.phase(n),
            consumed: (self.consumed + gone) % counter_modulus(),
        }
    }

    /// The channel holds the look-behind of a full window, and, where the
    /// read position lies between two samples, the sample after it.  This
    /// holds from the start and as long as no call has run short of input.
    pub open spec fn primed(self) -> bool {
        &&& self.skip == 0
        &&& self.history.len() >= self.taps - 1 + if self.frac > 0 {
            1nat
        } else {
            0nat
        }
    }
}

/// Advancing in two stages reaches the same position as advancing at once:
/// the whole samples add up and the fraction carries over.
pub proof fn lemma_advance_splits(frac: nat, i: nat, j: nat, num: nat, den: nat)
    requires
        den > 0,
    ensures
        (frac + (i + j) * num) / den == (frac + i * num) / den + ((frac + i * num) % den + j
            * num) / den,
        (frac + (i + j) * num) % den == ((frac + i * num) % den + j * num) % den,
{
    let x = frac + i * num;
    let y = j * num;
    let q = x / den;
    let r = x % den;
    let q2 = (r + y) / den;
    let r2 = (r + y) % den;
    lemma_fundamental_div_mod(x as int, den as int);
    lemma_fundamental_div_mod((r + y) as int, den as int);
    lemma_mod_bound((r + y) as int, den as int);
    assert((i + j) * num == i * num + j * num) by (nonlinear_arith);
    assert(x + y == (q + q2) * den + r2) by (nonlinear_arith)
        requires
            x == den * q + r,
            r + y == den * q2 + r2,
    ;
    lemma_fundamental_div_mod_converse((x + y) as int, den as int, (q + q2) as int, r2 as int);
}

/// One step of the read position passes no more whole samples than the
/// input term of the ratio.
pub proof fn lemma_step_bound(frac: nat, num: nat, den: nat)
    requires
        num > 0,
        den > 0,
        frac < den,
    ensures
        (frac + num) / den <= num,
{
    let q = (frac + num) / den;
    lemma_fundamental_div_mod((frac + num) as int, den as int);
    lemma_mod_bound((frac + num) as int, den as int);
    assert(q <= num) by (nonlinear_arith)
        requires
            den * q <= frac + num,
            frac < den,
            num > 0,
            den > 0,
            q >= 0,
    ;
}

/// Later outputs never start before earlier ones.
pub proof fn lemma_position_monotone<T>(m: ChannelModel<T>, i: nat, j: nat)
    requires
        m.wf(),
        i <= j,
    ensures
        m.position(i) <= m.position(j),
{
    assert(m.frac + i * m.num <= m.frac + j * m.num) by (nonlinear_arith)
        requires
            i <= j,
    ;
    lemma_div_is_ordered((m.frac + i * m.num) as int, (m.frac + j * m.num) as int, m.den as int);
}

/// The outputs that `len` samples support are exactly the first
/// `available(len)`.
pub proof fn lemma_fits_iff_available<T>(m: ChannelModel<T>, j: nat, len: nat)
    requires
        m.wf(),
    ensures
        m.fits(j, len) <==> j < m.available(len),
{
    let y = m.frac + j * m.num;
    let den = m.den as int;
    let num = m.num as int;
    if m.skip + m.taps > len {
    } else {
        let room = len - m.taps - m.skip;
        let x = (room + 1) * den - 1 - m.frac;
        assert(x >= 0) by (nonlinear_arith)
            requires
                x == (room + 1) * den - 1 - m.frac,
                room >= 0,
                m.frac < den,
        ;
        lemma_fundamental_div_mod(y as int, den);
        lemma_mod_bound(y as int, den);
        lemma_fundamental_div_mod(x, num);
        lemma_mod_bound(x, num);
        let yq = y as int / den;
        let xq = x / num;
        if yq <= room {
            // y < (room + 1) * den, so j * num <= x
            assert(y < (room + 1) * den) by (nonlinear_arith)
                requires
                    y == den * yq + y as int % den,
                    y as int % den < den,
                    yq <= room,
                    den > 0,
            ;
            assert(j <= xq) by (nonlinear_arith)
                requires
                    j * num <= x,
                    x == num * xq + x % num,
                    0 <= x % num < num,
            ;
        } else {
            assert(y >= (room + 1) * den) by (nonlinear_arith)
                requires
                    y == den * yq + y as int % den,
                    y as int % den >= 0,
                    yq >= room + 1,
                    den > 0,
            ;
            assert(j > xq) by (nonlinear_arith)
                requires
                    j * num > x,
                    x == num * xq + x % num,
                    0 <= x % num < num,
                    j >= 0,
            ;
        }
    }
}

/// More samples never support fewer outputs.
pub proof fn lemma_available_monotone<T>(m: ChannelModel<T>, len1: nat, len2: nat)
    requires
        m.wf(),
        len1 <= len2,
    ensures
        m.available(len1) <= m.available(len2),
{
    let a = m.available(len1);
    if a > 0 {
        lemma_fits_iff_available(m, (a - 1) as nat, len1);
        lemma_fits_iff_available(m, (a - 1) as nat, len2);
    }
}

/// A call leaves a well-formed state, and a read position that lies at most
/// one step beyond the samples it had.
pub proof fn lemma_after_wf<T>(m: ChannelModel<T>, input: Seq<T>, requested: nat)
    requires
        m.wf(),
    ensures
        m.after(input, requested).wf(),
        m.after(input, requested).skip <= if m.skip > m.num {
            m.skip
        } else {
            m.num
        },
{
    let buf = m.history + input;
    let len = buf.len();
    let n = m.produced(len, requested);
    lemma_mod_bound((m.frac + n * m.num) as int, m.den as int);
    lemma_mod_bound((m.consumed + m.retired(len, requested)) as int, counter_modulus() as int);
    if n == 0 {
        lemma_small_mod(m.frac, m.den);
        lemma_basic_div(m.frac as int, m.den as int);
        assert(m.position(0) == m.skip);
    } else {
        let last = (n - 1) as nat;
        lemma_fits_iff_available(m, last, len);
        lemma_advance_splits(m.frac, last, 1, m.num, m.den);
        lemma_mod_bound((m.frac + last * m.num) as int, m.den as int);
        lemma_step_bound(m.phase(last), m.num, m.den);
    }
}

/// The read positions of a second call are those that the first would have
/// gone on to: output `j` of the second call stands where the first call,
/// having produced its outputs, would have produced its `j`-th more,
/// counted from the samples that the first retired.
proof fn lemma_second_call_positions<T>(m: ChannelModel<T>, a: Seq<T>, r1: nat, j: nat)
    requires
        m.wf(),
    ensures
        m.after(a, r1).position(j) + m.retired(m.history.len() + a.len(), r1) == m.position(
            m.produced(m.history.len() + a.len(), r1) + j,
        ),
        m.after(a, r1).phase(j) == m.phase(m.produced(m.history.len() + a.len(), r1) + j),
{
    let made1 = m.produced(m.history.len() + a.len(), r1);
    assert((m.history + a).len() == m.history.len() + a.len());
    lemma_advance_splits(m.frac, made1, j, m.num, m.den);
}

/// What the samples of both calls support is what the first call produced
/// and what the samples of the second support.
proof fn lemma_second_call_available<T>(m: ChannelModel<T>, a: Seq<T>, b: Seq<T>, r1: nat)
    requires
        m.wf(),
    ensures
        m.available(m.history.len() + a.len() + b.len()) == m.produced(
            m.history.len() + a.len(),
            r1,
        ) + m.after(a, r1).available(m.after(a, r1).history.len() + b.len()),
{
    let len1 = m.history.len() + a.len();
    let len = len1 + b.len();
    let made1 = m.produced(len1, r1);
    let d1 = m.retired(len1, r1);
    let m1 = m.after(a, r1);
    let len2 = m1.history.len() + b.len();
    let all = m.available(len);
    let rest = m1.available(len2);
    assert((m.history + a).len() == len1);
    assert(len2 + d1 == len);
    lemma_after_wf(m, a, r1);
    lemma_available_monotone(m, len1, len);
    lemma_fits_iff_available(m1, rest, len2);
    lemma_fits_iff_available(m, made1 + rest, len);
    lemma_second_call_positions(m, a, r1, rest);
    if rest > 0 {
        let last = (rest - 1) as nat;
        lemma_fits_iff_available(m1, last, len2);
        lemma_fits_iff_available(m, made1 + last, len);
        lemma_second_call_positions(m, a, r1, last);
    }
}

/// Two calls in a row produce together what one call on the joined input
/// produces when it is asked for as much, and, where the first call did not
/// run short, when it is asked for what the two were asked for together.
proof fn lemma_second_call_produced<T>(m: ChannelModel<T>, a: Seq<T>, b: Seq<T>, r1: nat, r2: nat)
    requires
        m.wf(),
    ensures
        ({
            let len1 = m.history.len() + a.len();
            let made1 = m.produced(len1, r1);
            let m1 = m.after(a, r1);
            let made2 = m1.produced(m1.history.len() + b.len(), r2);
            &&& m.produced(len1 + b.len(), made1 + made2) == made1 + made2
            &&& made1 == r1 ==> m.produced(len1 + b.len(), r1 + r2) == made1 + made2
        }),
{
    lemma_second_call_available(m, a, b, r1);
}

/// One call on the joined input, asked for what two calls in a row
/// produced together, leaves the state that they leave.
proof fn lemma_second_call_state<T>(m: ChannelModel<T>, a: Seq<T>, b: Seq<T>, r1: nat, r2: nat)
    requires
        m.wf(),
    ensures
        ({
            let made1 = m.produced(m.history.len() + a.len(), r1);
            let m1 = m.after(a, r1);
            let made2 = m1.produced(m1.history.len() + b.len(), r2);
            m.after(a + b, made1 + made2) == m1.after(b, r2)
        }),
{
    let len1 = m.history.len() + a.len();
    let len = len1 + b.len();
    let made1 = m.produced(len1, r1);
    let d1 = m.retired(len1, r1);
    let m1 = m.after(a, r1);
    let len2 = m1.history.len() + b.len();
    let made2 = m1.produced(len2, r2);
    let d2 = m1.retired(len2, r2);
    let m2 = m1.after(b, r2);
    let joined = m.history + (a + b);
    let whole = m.after(a + b, made1 + made2);
    assert((m.history + a).len() == len1);
    assert((m1.history + b).len() == len2);
    assert(joined.len() == len);
    assert(len2 + d1 == len);
    lemma_second_call_produced(m, a, b, r1, r2);
    lemma_second_call_positions(m, a, r1, made2);
    lemma_position_monotone(m, made1, made1 + made2);
    let gone = m.retired(len, made1 + made2);
    assert(gone == d1 + d2);
    assert(m1.history + b =~= joined.subrange(d1 as int, len as int));
    assert(m2.history =~= whole.history);
    assert(m2.consumed == whole.consumed) by {
        lemma_add_mod_noop((m.consumed + d1) as int, d2 as int, counter_modulus() as int);
        lemma_mod_twice((m.consumed + d1) as int, counter_modulus() as int);
        lemma_add_mod_noop(m1.consumed as int, d2 as int, counter_modulus() as int);
    }
    assert(m2.skip == whole.skip);
    assert(m2.frac == whole.frac);
}

/// Continuity: what two calls in a row produce, one call on the joined
/// input produces too.
///
/// Let a first call take `a` and be asked for `r1` outputs, and a second
/// take `b` and be asked for `r2`.  A single call that takes `a + b` and is
/// asked for as many outputs as the two produced together produces exactly
/// those: each from the same window at the same read position, and it
/// leaves the same state.  Where the first call did not run short, the
/// single call may as well be asked for `r1 + r2`.
pub proof fn lemma_process_continuity<T>(
    m: ChannelModel<T>,
    a: Seq<T>,
    b: Seq<T>,
    r1: nat,
    r2: nat,
)
    requires
        m.wf(),
    ensures
        ({
            let first = m.history + a;
            let made1 = m.produced(first.len(), r1);
            let m1 = m.after(a, r1);
            let second = m1.history + b;
            let made2 = m1.produced(second.len(), r2);
            let m2 = m1.after(b, r2);
            let joined = m.history + (a + b);
            &&& m.produced(joined.len(), made1 + made2) == made1 + made2
            &&& m.after(a + b, made1 + made2) == m2
            &&& made1 == r1 ==> m.produced(joined.len(), r1 + r2) == made1 + made2
            &&& forall|j: nat|
                j < made1 ==> #[trigger] m.window(joined, j) == m.window(first, j)
            &&& forall|j: nat|
                j < made2 ==> #[trigger] m1.window(second, j) == m.window(joined, made1 + j)
                    && m1.phase(j) == m.phase(made1 + j)
        }),
{
    let first = m.history + a;
    let made1 = m.produced(first.len(), r1);
    let d1 = m.retired(first.len(), r1);
    let m1 = m.after(a, r1);
    let second = m1.history + b;
    let made2 = m1.produced(second.len(), r2);
    let joined = m.history + (a + b);
    assert(first.len() == m.history.len() + a.len());
    assert(second.len() == m1.history.len() + b.len());
    assert(joined.len() == m.history.len() + a.len() + b.len());
    lemma_after_wf(m, a, r1);
    lemma_second_call_produced(m, a, b, r1, r2);
    lemma_second_call_state(m, a, b, r1, r2);
    assert forall|j: nat| j < made1 implies #[trigger] m.window(joined, j) == m.window(
        first,
        j,
    ) by {
        lemma_fits_iff_available(m, j, first.len());
        assert(m.window(joined, j) =~= m.window(first, j));
    }
    assert forall|j: nat| j < made2 implies #[trigger] m1.window(second, j) == m.window(
        joined,
        made1 + j,
    ) && m1.phase(j) == m.phase(made1 + j) by {
        lemma_fits_iff_available(m1, j, second.len());
        lemma_second_call_positions(m, a, r1, j);
        assert(second =~= joined.subrange(d1 as int, joined.len() as int));
        assert(m1.window(second, j) =~= m.window(joined, made1 + j));
    }
}

/// The smallest whole number of samples that covers `r` steps of
/// `num / den` exceeds the whole samples in those steps by one exactly when
/// a fraction is left.
proof fn lemma_ceil_div(a: nat, den: nat)
    requires
        den > 0,
    ensures
        ceil_div(a, den) == a / den + if a % den > 0 {
            1nat
        } else {
            0nat
        },
{
    let q = a / den;
    let r = a % den;
    lemma_fundamental_div_mod(a as int, den as int);
    lemma_mod_bound(a as int, den as int);
    if r > 0 {
        assert(a + den - 1 == (q + 1) * den + (r - 1)) by (nonlinear_arith)
            requires
                a == den * q + r,
        ;
        lemma_fundamental_div_mod_converse(
            (a + den - 1) as int,
            den as int,
            (q + 1) as int,
            (r - 1) as int,
        );
    } else {
        assert(a + den - 1 == q * den + (den - 1)) by (nonlinear_arith)
            requires
                a == den * q + r,
                r == 0,
        ;
        lemma_fundamental_div_mod_converse(
            (a + den - 1) as int,
            den as int,
            q as int,
            (den - 1) as int,
        );
    }
}

/// A primed channel that is given the input of `requested` steps, rounded
/// up to whole samples, produces all `requested` outputs and stays primed.
pub proof fn lemma_primed_supplies<T>(m: ChannelModel<T>, input: Seq<T>, requested: nat)
    requires
        m.wf(),
        m.primed(),
        input.len() >= ceil_div(requested * m.num, m.den),
    ensures
        m.produced(m.history.len() + input.len(), requested) == requested,
        m.retired(m.history.len() + input.len(), requested) == m.position(requested),
        m.after(input, requested).primed(),
{
    let len = m.history.len() + input.len();
    let den = m.den as int;
    let total = requested * m.num;
    let need = ceil_div(total, m.den);
    lemma_ceil_div(total, m.den);
    if requested > 0 {
        let last = (requested - 1) as nat;
        let before = m.frac + last * m.num;
        assert(last * m.num + m.num == total) by (nonlinear_arith)
            requires
                last + 1 == requested,
                total == requested * m.num,
        ;
        if m.frac == 0 {
            // one more than the whole samples in the steps before the last
            lemma_div_is_ordered(before + den, total + den - 1, den);
            lemma_div_plus_one(before as int, den);
        } else {
            lemma_div_is_ordered(before as int, total + den - 1, den);
        }
        assert(m.fits(last, len));
        lemma_fits_iff_available(m, last, len);
    }
    assert(m.produced(len, requested) == requested);
    // what is left covers the look-behind of the next window
    let next = m.position(requested);
    let left = m.phase(requested);
    lemma_div_is_ordered((m.frac + total) as int, total + den - 1, den);
    assert(next + if left > 0 {
        1nat
    } else {
        0nat
    } <= need + if m.frac > 0 {
        1nat
    } else {
        0nat
    });
    assert((m.history + input).len() == len);
}

} // verus!
