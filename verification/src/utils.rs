//! Small numeric helpers shared by the tracker and the light pipeline: the
//! moving-average signal filter and a clamped linear range conversion on
//! fixed-point (milli-unit) integers.

use vstd::prelude::*;

verus! {

use vstd::arithmetic::div_mod::{
    lemma_div_is_ordered,
    lemma_div_multiples_vanish,
    lemma_div_pos_is_pos,
};

/// Round-toward-zero division: the behaviour of `/` on machine integers.
pub open spec fn div_toward_zero(a: int, b: int) -> int {
    if a >= 0 {
        a / b
    } else {
        -((-a) / b)
    }
}

/// Sum of all samples in a window.
pub open spec fn sum_of(s: Seq<i32>) -> int
    decreases s.len(),
{
    if s.len() == 0 {
        0
    } else {
        sum_of(s.drop_last()) + s.last()
    }
}

/// One push into a window of capacity `cap`: the new value enters at the
/// back; once the window is full the oldest sample leaves at the front.
pub open spec fn window_push(s: Seq<i32>, val: i32, cap: int) -> Seq<i32> {
    if s.len() < cap {
        s.push(val)
    } else {
        s.skip(1).push(val)
    }
}

/// The last `cap` values of a push history (all of it while shorter).
pub open spec fn window_of(history: Seq<i32>, cap: int) -> Seq<i32> {
    if history.len() <= cap {
        history
    } else {
        history.skip(history.len() - cap)
    }
}

/// The window left behind by pushing every value of `history`, in order,
/// into an initially empty window of capacity `cap`.
pub open spec fn window_run(history: Seq<i32>, cap: int) -> Seq<i32>
    decreases history.len(),
{
    if history.len() == 0 {
        Seq::empty()
    } else {
        window_push(window_run(history.drop_last(), cap), history.last(), cap)
    }
}

/// A run of pushes never holds more than `cap` samples.
pub proof fn lemma_window_run_len(history: Seq<i32>, cap: int)
    requires
        cap >= 1,
    ensures
        window_run(history, cap).len() == if history.len() <= cap {
            history.len() as int
        } else {
            cap
        },
    decreases history.len(),
{
    if history.len() > 0 {
        lemma_window_run_len(history.drop_last(), cap);
    }
}

/// After any sequence of pushes, the window holds exactly the last
/// `min(history.len(), cap)` pushed values, in push order, and its newest
/// sample is the most recently pushed value.
pub proof fn lemma_window_run_is_window(history: Seq<i32>, cap: int)
    requires
        cap >= 1,
    ensures
        window_run(history, cap) == window_of(history, cap),
        history.len() > 0 ==> window_run(history, cap).last() == history.last(),
    decreases history.len(),
{
    if history.len() > 0 {
        let prev = history.drop_last();
        lemma_window_run_is_window(prev, cap);
        lemma_window_run_len(prev, cap);
        if prev.len() < cap {
            assert(window_of(history, cap) =~= window_of(prev, cap).push(history.last()));
        } else {
            assert(window_of(history, cap) =~= window_of(prev, cap).skip(1).push(
                history.last(),
            ));
        }
    }
}

/// Appending a sample adds its value to the sum.
pub proof fn lemma_sum_push(s: Seq<i32>, x: i32)
    ensures
        sum_of(s.push(x)) == sum_of(s) + x,
{
    assert(s.push(x).drop_last() =~= s);
}

/// Removing the oldest sample subtracts its value from the sum.
pub proof fn lemma_sum_skip_first(s: Seq<i32>)
    requires
        s.len() >= 1,
    ensures
        sum_of(s) == s[0] + sum_of(s.skip(1)),
    decreases s.len(),
{
    if s.len() == 1 {
        assert(s.skip(1) =~= Seq::<i32>::empty());
        assert(s.drop_last() =~= Seq::<i32>::empty());
        assert(sum_of(Seq::<i32>::empty()) == 0);
        assert(sum_of(s) == sum_of(s.drop_last()) + s.last());
        assert(s.last() == s[0]);
    } else {
        lemma_sum_skip_first(s.drop_last());
        assert(s.drop_last().skip(1) =~= s.skip(1).drop_last());
        assert(s.skip(1).last() == s.last());
        assert(s.drop_last()[0] == s[0]);
        assert(s.skip(1).len() >= 1);
        assert(sum_of(s.skip(1)) == sum_of(s.skip(1).drop_last()) + s.skip(1).last());
        assert(sum_of(s) == sum_of(s.drop_last()) + s.last());
        assert(sum_of(s.drop_last()) == s[0] + sum_of(s.drop_last().skip(1)));
        assert(sum_of(s.drop_last().skip(1)) == sum_of(s.skip(1).drop_last()));
    }
}

/// Every sample of `s` lies in the `i32` range, so the sum is bounded by
/// `len` times the extreme values.
proof fn lemma_sum_bounds(s: Seq<i32>)
    ensures
        s.len() * (i32::MIN as int) <= sum_of(s) <= s.len() * (i32::MAX as int),
    decreases s.len(),
{
    if s.len() > 0 {
        lemma_sum_bounds(s.drop_last());
    }
}

/// The truncating mean of one or more `i32` samples is itself in `i32` range.
proof fn lemma_avg_in_range(s: Seq<i32>)
    requires
        s.len() >= 1,
    ensures
        i32::MIN <= div_toward_zero(sum_of(s), s.len() as int) <= i32::MAX,
{
    let n = s.len() as int;
    let total = sum_of(s);
    lemma_sum_bounds(s);
    if total >= 0 {
        lemma_div_pos_is_pos(total, n);
        lemma_div_is_ordered(total, n * (i32::MAX as int), n);
        lemma_div_multiples_vanish(i32::MAX as int, n);
    } else {
        lemma_div_pos_is_pos(-total, n);
        lemma_div_is_ordered(-total, n * (-(i32::MIN as int)), n);
        lemma_div_multiples_vanish(-(i32::MIN as int), n);
    }
}

/// Round-toward-zero division on `i32` by a positive divisor.
pub fn div_i32_toward_zero(a: i32, b: i32) -> (r: i32)
    requires
        b >= 1,
    ensures
        r == div_toward_zero(a as int, b as int),
{
    a.checked_div(b).unwrap()
}

/// The input value clamped into `[lo, hi]`.
pub open spec fn clamp_spec(v: int, lo: int, hi: int) -> int {
    if v < lo {
        lo
    } else if v > hi {
        hi
    } else {
        v
    }
}

/// Clamped linear range conversion: clamp `val` into `[in_min, in_max]`,
/// then map that span linearly onto `[out_min, out_max]`, truncating the
/// division.
pub open spec fn linear_conversion_spec(
    val: int,
    in_min: int,
    in_max: int,
    out_min: int,
    out_max: int,
) -> int {
    out_min + (clamp_spec(val, in_min, in_max) - in_min) * (out_max - out_min) / (in_max
        - in_min)
}

/// Clamped linear range conversion on integer (fixed-point) values.
pub fn num_linear_conversion(
    val: i64,
    in_min: i64,
    in_max: i64,
    out_min: i64,
    out_max: i64,
) -> (r: i64)
    requires
        in_min < in_max,
        out_min <= out_max,
        in_max - in_min <= 1_000_000_000,
        out_max - out_min <= 1_000_000_000,
        -1_000_000_000_000_000 <= out_min,
        out_max <= 1_000_000_000_000_000,
    ensures
        r == linear_conversion_spec(val as int, in_min as int, in_max as int, out_min as int, out_max as int),
        out_min <= r <= out_max,
{
    let clamped = if val < in_min {
        in_min
    } else if val > in_max {
        in_max
    } else {
        val
    };
    let span_in = in_max - in_min;
    let span_out = out_max - out_min;
    let diff = clamped - in_min;
    proof {
        assert(0 <= diff as int * span_out as int <= span_in as int * span_out as int
            <= 1_000_000_000_000_000_000) by (nonlinear_arith)
            requires
                0 <= diff as int <= span_in as int <= 1_000_000_000,
                0 <= span_out as int <= 1_000_000_000,
        ;
    }
    let num = diff * span_out;
    let q = num.checked_div(span_in).unwrap();
    proof {
        lemma_div_pos_is_pos(num as int, span_in as int);
        lemma_div_is_ordered(num as int, span_out as int * span_in as int, span_in as int);
        lemma_div_multiples_vanish(span_out as int, span_in as int);
        assert(span_in as int * span_out as int == span_out as int * span_in as int)
            by (nonlinear_arith);
    }
    out_min + q
}

/// Fixed-capacity moving-average smoother over a scalar signal series.
/// Stores at most `N` samples, oldest first; the mean is the truncating
/// integer mean over the samples currently held.
#[derive(Debug, Clone)]
pub struct MovingAvg<const N: usize> {
    data: Vec<i32>,
}

impl<const N: usize> View for MovingAvg<N> {
    type V = Seq<i32>;

    closed spec fn view(&self) -> Seq<i32> {
        self.data@
    }
}

impl<const N: usize> MovingAvg<N> {
    /// The window never holds more samples than its capacity.
    pub open spec fn wf(&self) -> bool {
        self@.len() <= N
    }

    pub fn new() -> (r: Self)
        ensures
            r@ == Seq::<i32>::empty(),
            r.wf(),
    {
        Self { data: Vec::new() }
    }

    pub fn is_filled(&self) -> (r: bool)
        ensures
            r == (self@.len() == N),
    {
        self.data.len() == N
    }

    /// Push a new value into the moving average, evicting the oldest sample
    /// once the window is full.
    pub fn push(&mut self, val: i32)
        requires
            old(self).wf(),
            N >= 1,
        ensures
            final(self)@ == window_push(old(self)@, val, N as int),
            final(self).wf(),
            final(self)@.len() >= 1,
            final(self)@.last() == val,
    {
        if self.data.len() == N {
            let _oldest: i32 = self.data.remove(0);
            proof {
                assert(self.data@ =~= old(self)@.skip(1));
            }
        }
        self.data.push(val);
    }

    /// The most recently pushed value.
    pub fn peek_last(&self) -> (r: i32)
        requires
            self@.len() >= 1,
        ensures
            r == self@.last(),
    {
        self.data[self.data.len() - 1]
    }

    /// The truncating integer mean of the samples currently held.
    pub fn get_avg(&self) -> (r: i32)
        requires
            self@.len() >= 1,
        ensures
            r == div_toward_zero(sum_of(self@), self@.len() as int),
    {
        let len = self.data.len();
        let mut total: i128 = 0;
        let mut i: usize = 0;
        while i < len
            invariant
                0 <= i <= len,
                len == self@.len(),
                total == sum_of(self@.take(i as int)),
                (i as int) * (i32::MIN as int) <= total <= (i as int) * (i32::MAX as int),
            decreases len - i,
        {
            proof {
                assert(self@.take(i as int + 1).drop_last() =~= self@.take(i as int));
                assert(self@.take(i as int + 1).last() == self@[i as int]);
            }
            total = total + self.data[i] as i128;
            i = i + 1;
        }
        proof {
            assert(self@.take(len as int) =~= self@);
            lemma_avg_in_range(self@);
        }
        let q = total.checked_div(len as i128).unwrap();
        q as i32
    }
}

} // verus!
