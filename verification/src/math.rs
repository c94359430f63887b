//! A fixed-window moving average over integer samples. The window is a ring
//! of `N` slots; the average is the truncating integer mean of the stored
//! samples and is available once the ring has been filled.

use vstd::arithmetic::div_mod::{lemma_mod_self_0, lemma_small_mod};
use vstd::pervasive::VecAdditionalExecFns;
use vstd::prelude::*;

verus! {

/// Fractional-part helper for analog values; implemented by the hardware
/// glue for its floating-point sample type.
pub trait F32Ext: Sized {
    fn gl_fract(&self) -> Self;
}

/// Sample types a `MovingAverage` can hold: integers that embed into the
/// mathematical integers within a fixed range small enough that any window
/// sum stays representable.
pub trait Sample: Sized + Copy {
    spec fn as_math(self) -> int;

    spec fn min_val() -> int;

    spec fn max_val() -> int;

    proof fn in_range(self)
        ensures
            Self::min_val() <= self.as_math() <= Self::max_val(),
            -0x8000_0000 <= Self::min_val() <= 0,
            0 <= Self::max_val() <= 0xffff_ffff,
    ;

    fn widen(self) -> (r: i128)
        ensures
            r as int == self.as_math(),
    ;

    fn narrow(v: i128) -> (r: Self)
        requires
            Self::min_val() <= v as int <= Self::max_val(),
        ensures
            r.as_math() == v as int,
    ;
}

impl Sample for u8 {
    open spec fn as_math(self) -> int {
        self as int
    }

    open spec fn min_val() -> int {
        0
    }

    open spec fn max_val() -> int {
        u8::MAX as int
    }

    proof fn in_range(self) {
    }

    fn widen(self) -> (r: i128) {
        self as i128
    }

    fn narrow(v: i128) -> (r: Self) {
        v as u8
    }
}

impl Sample for u16 {
    open spec fn as_math(self) -> int {
        self as int
    }

    open spec fn min_val() -> int {
        0
    }

    open spec fn max_val() -> int {
        u16::MAX as int
    }

    proof fn in_range(self) {
    }

    fn widen(self) -> (r: i128) {
        self as i128
    }

    fn narrow(v: i128) -> (r: Self) {
        v as u16
    }
}

impl Sample for u32 {
    open spec fn as_math(self) -> int {
        self as int
    }

    open spec fn min_val() -> int {
        0
    }

    open spec fn max_val() -> int {
        u32::MAX as int
    }

    proof fn in_range(self) {
    }

    fn widen(self) -> (r: i128) {
        self as i128
    }

    fn narrow(v: i128) -> (r: Self) {
        v as u32
    }
}

impl Sample for i8 {
    open spec fn as_math(self) -> int {
        self as int
    }

    open spec fn min_val() -> int {
        i8::MIN as int
    }

    open spec fn max_val() -> int {
        i8::MAX as int
    }

    proof fn in_range(self) {
    }

    fn widen(self) -> (r: i128) {
        self as i128
    }

    fn narrow(v: i128) -> (r: Self) {
        v as i8
    }
}

impl Sample for i16 {
    open spec fn as_math(self) -> int {
        self as int
    }

    open spec fn min_val() -> int {
        i16::MIN as int
    }

    open spec fn max_val() -> int {
        i16::MAX as int
    }

    proof fn in_range(self) {
    }

    fn widen(self) -> (r: i128) {
        self as i128
    }

    fn narrow(v: i128) -> (r: Self) {
        v as i16
    }
}

impl Sample for i32 {
    open spec fn as_math(self) -> int {
        self as int
    }

    open spec fn min_val() -> int {
        i32::MIN as int
    }

    open spec fn max_val() -> int {
        i32::MAX as int
    }

    proof fn in_range(self) {
    }

    fn widen(self) -> (r: i128) {
        self as i128
    }

    fn narrow(v: i128) -> (r: Self) {
        v as i32
    }
}

/// Sum of a sequence of integers.
pub open spec fn seq_sum(s: Seq<int>) -> int
    decreases s.len(),
{
    if s.len() == 0 {
        0
    } else {
        seq_sum(s.drop_last()) + s.last()
    }
}

/// Integer division truncating towards zero, as the machine division of the
/// sample types does.
pub open spec fn trunc_div(a: int, b: int) -> int {
    if a >= 0 {
        a / b
    } else {
        -((-a) / b)
    }
}

proof fn lemma_seq_sum_bounds(s: Seq<int>, lo: int, hi: int)
    requires
        forall|k: int| 0 <= k < s.len() ==> lo <= #[trigger] s[k] <= hi,
    ensures
        s.len() * lo <= seq_sum(s) <= s.len() * hi,
    decreases s.len(),
{
    if s.len() > 0 {
        assert(forall|k: int| 0 <= k < s.len() - 1 ==> #[trigger] s.drop_last()[k] == s[k]);
        lemma_seq_sum_bounds(s.drop_last(), lo, hi);
        assert((s.len() - 1) * lo + lo == s.len() * lo) by (nonlinear_arith);
        assert((s.len() - 1) * hi + hi == s.len() * hi) by (nonlinear_arith);
    }
}

/// A ring of the last `N` samples pushed. Until `N` samples have arrived the
/// ring only fills; afterwards each push overwrites the oldest slot.
pub struct MovingAverage<T, const N: usize> {
    vals: Vec<T>,
    idx: usize,
    valid: bool,
}

/// Construction niche for types that have a sensible empty window.
pub trait Construct: Sized {
    fn construct() -> Self;
}

impl<T: Sample, const N: usize> MovingAverage<T, N> {
    /// The slots hold at most `N` samples; while filling, the write index
    /// trails the fill level; once primed, the window is exactly full.
    pub closed spec fn wf(self) -> bool {
        &&& self.vals@.len() <= N
        &&& (self.valid ==> self.vals@.len() == N && self.idx < N)
        &&& (!self.valid && N > 0 ==> self.idx == self.vals@.len() && self.vals@.len() < N)
        &&& (N == 0 ==> !self.valid && self.vals@.len() == 0 && self.idx == 0)
    }

    /// The stored samples, as mathematical integers, in slot order.
    pub closed spec fn samples(self) -> Seq<int> {
        self.vals@.map(|k: int, v: T| v.as_math())
    }

    /// Whether the window has been filled once, so that an average exists.
    pub closed spec fn primed(self) -> bool {
        self.valid
    }

    /// The slot the next push writes.
    pub closed spec fn next_slot(self) -> int {
        self.idx as int
    }

    /// An empty window.
    pub fn new() -> (r: Self)
        ensures
            r.wf(),
            !r.primed(),
            r.samples().len() == 0,
            r.next_slot() == 0,
    {
        MovingAverage { vals: Vec::new(), idx: 0, valid: false }
    }

    /// The truncating mean of the window, once it has been filled.
    pub fn avg(&self) -> (r: Option<T>)
        requires
            self.wf(),
        ensures
            match r {
                Some(t) => self.primed() && t.as_math() == trunc_div(
                    seq_sum(self.samples()),
                    N as int,
                ),
                None => !self.primed(),
            },
    {
        if !self.valid {
            return None;
        }
        let ghost samples = self.samples();
        proof {
            assert forall|k: int| 0 <= k < samples.len() implies T::min_val() <= #[trigger] samples[k]
                <= T::max_val() by {
                self.vals@[k].in_range();
            }
            lemma_seq_sum_bounds(samples, T::min_val(), T::max_val());
            self.vals@[0].in_range();
        }
        let mut sum: i128 = 0;
        let mut k: usize = 0;
        let len: usize = self.vals.len();
        while k < len
            invariant
                k <= len,
                len == self.vals@.len(),
                samples == self.samples(),
                self.wf(),
                sum as int == seq_sum(samples.take(k as int)),
                -(k as int) * 0x1_0000_0000 <= sum as int <= (k as int) * 0x1_0000_0000,
            decreases len - k,
        {
            let v: T = self.vals[k];
            proof {
                v.in_range();
                assert(samples.take(k + 1).drop_last() =~= samples.take(k as int));
                assert(samples.take(k + 1).last() == samples[k as int]);
                assert(samples[k as int] == self.vals@[k as int].as_math());
            }
            sum = sum + v.widen();
            k = k + 1;
        }
        proof {
            assert(samples.take(len as int) =~= samples);
            assert(len == N && N >= 1);
            assert((len as int) * 0x1_0000_0000 < i128::MAX) by (nonlinear_arith)
                requires
                    0 <= len <= usize::MAX,
            ;
        }
        let n: u128 = N as u128;
        let q: i128;
        if sum >= 0 {
            let qd: u128 = (sum as u128) / n;
            proof {
                assert(qd as int == seq_sum(samples) / (N as int));
                assert(0 <= seq_sum(samples) / (N as int) <= T::max_val()) by (nonlinear_arith)
                    requires
                        N >= 1,
                        0 <= seq_sum(samples) <= (N as int) * T::max_val(),
                ;
            }
            q = qd as i128;
        } else {
            let m: u128 = (-sum) as u128;
            let qd: u128 = m / n;
            proof {
                assert(qd as int == (-seq_sum(samples)) / (N as int));
                assert(0 <= (-seq_sum(samples)) / (N as int) <= -T::min_val()) by (nonlinear_arith)
                    requires
                        N >= 1,
                        (N as int) * T::min_val() <= seq_sum(samples) < 0,
                ;
            }
            q = -(qd as i128);
        }
        proof {
            assert(q as int == trunc_div(seq_sum(samples), N as int));
            assert(T::min_val() <= q as int <= T::max_val());
        }
        Some(T::narrow(q))
    }

    /// Stores `val`: appended while the window is filling, overwriting the
    /// oldest slot once it is full; the window becomes primed when the write
    /// index first wraps around.
    pub fn push(&mut self, val: T)
        requires
            old(self).wf(),
            N >= 1,
        ensures
            final(self).wf(),
            final(self).samples() == if old(self).samples().len() < N {
                old(self).samples().push(val.as_math())
            } else {
                old(self).samples().update(old(self).next_slot(), val.as_math())
            },
            final(self).next_slot() == (old(self).next_slot() + 1) % (N as int),
            final(self).primed() <==> (old(self).primed() || old(self).samples().len() + 1 == N),
    {
        let ghost before = *self;
        if self.vals.len() < N {
            self.vals.push(val);
        } else {
            let i: usize = self.idx;
            self.vals.set(i, val);
        }
        let ni: usize = (self.idx + 1) % N;
        proof {
            if old(self).idx + 1 < N {
                lemma_small_mod((old(self).idx + 1) as nat, N as nat);
            } else {
                assert(old(self).idx + 1 == N);
                lemma_mod_self_0(N as int);
            }
        }
        self.idx = ni;
        if self.idx == 0 {
            self.valid = true;
        }
        proof {
            if before.samples().len() < N {
                assert(self.samples() =~= before.samples().push(val.as_math()));
            } else {
                assert(self.samples() =~= before.samples().update(
                    before.next_slot(),
                    val.as_math(),
                ));
            }
        }
    }
}

impl<T: Sample, const N: usize> Construct for MovingAverage<T, N> {
    fn construct() -> Self {
        MovingAverage::new()
    }
}

impl<T: Sample, const N: usize> Default for MovingAverage<T, N> {
    fn default() -> (r: Self)
        ensures
            r.wf(),
            !r.primed(),
            r.samples().len() == 0,
            r.next_slot() == 0,
    {
        MovingAverage::new()
    }
}

} // verus!
