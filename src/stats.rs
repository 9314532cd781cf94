use vstd::prelude::*;

verus! {

/// Smallest fixed-point value an accumulator accepts (-99.9).
pub const MIN_VALUE: i32 = -999;

/// Largest fixed-point value an accumulator accepts (99.9).
pub const MAX_VALUE: i32 = 999;

/// Mathematical picture of an accumulator.
pub struct StatsView {
    pub min: int,
    pub max: int,
    pub sum: int,
    pub count: nat,
}

pub open spec fn min_int(a: int, b: int) -> int {
    if a <= b {
        a
    } else {
        b
    }
}

pub open spec fn max_int(a: int, b: int) -> int {
    if a >= b {
        a
    } else {
        b
    }
}

/// Integer division rounding toward zero, as Rust's `/` does.
pub open spec fn trunc_div(a: int, b: int) -> int {
    if a >= 0 {
        a / b
    } else {
        -((-a) / b)
    }
}

impl StatsView {
    /// The accumulator before any value: sentinels for min and max.
    pub open spec fn empty() -> StatsView {
        StatsView { min: i32::MAX as int, max: i32::MIN as int, sum: 0, count: 0 }
    }

    pub open spec fn add(self, v: int) -> StatsView {
        StatsView {
            min: min_int(self.min, v),
            max: max_int(self.max, v),
            sum: self.sum + v,
            count: self.count + 1,
        }
    }

    pub open spec fn merge(self, o: StatsView) -> StatsView {
        StatsView {
            min: min_int(self.min, o.min),
            max: max_int(self.max, o.max),
            sum: self.sum + o.sum,
            count: self.count + o.count,
        }
    }

    /// At least one value was added, and every value lay in `MIN_VALUE..=MAX_VALUE`.
    pub open spec fn in_domain(self) -> bool {
        &&& self.count >= 1
        &&& MIN_VALUE <= self.min <= self.max <= MAX_VALUE
        &&& MIN_VALUE * self.count <= self.sum <= MAX_VALUE * self.count
    }

    /// The statistics can be held by a `Stats`.
    pub open spec fn fits(self) -> bool {
        &&& i32::MIN <= self.min <= i32::MAX
        &&& i32::MIN <= self.max <= i32::MAX
        &&& i32::MIN <= self.sum <= i32::MAX
        &&& self.count <= usize::MAX
    }
}

/// The accumulator obtained by adding `vals` in order to an empty one.
pub open spec fn summary(vals: Seq<i32>) -> StatsView
    decreases vals.len(),
{
    if vals.len() == 0 {
        StatsView::empty()
    } else {
        summary(vals.drop_last()).add(vals.last() as int)
    }
}

/// The arithmetic sum of `vals`.
pub open spec fn total(vals: Seq<i32>) -> int
    decreases vals.len(),
{
    if vals.len() == 0 {
        0
    } else {
        vals[0] + total(vals.drop_first())
    }
}

/// Running statistics over fixed-point values: minimum, maximum, sum and count.
#[derive(Clone, Copy, Debug)]
pub struct Stats {
    pub min: i32,
    pub max: i32,
    pub sum: i32,
    pub count: usize,
}

impl View for Stats {
    type V = StatsView;

    open spec fn view(&self) -> StatsView {
        StatsView {
            min: self.min as int,
            max: self.max as int,
            sum: self.sum as int,
            count: self.count as nat,
        }
    }
}

impl Stats {
    /// An empty accumulator.
    pub fn new() -> (s: Self)
        ensures
            s@ == StatsView::empty(),
    {
        Stats { min: i32::MAX, max: i32::MIN, sum: 0, count: 0 }
    }

    /// Records one value; the value must lie in `MIN_VALUE..=MAX_VALUE` and the
    /// new sum and count must still fit their types.
    pub fn add(&mut self, value: i32)
        requires
            MIN_VALUE <= value <= MAX_VALUE,
            old(self)@.add(value as int).fits(),
        ensures
            final(self)@ == old(self)@.add(value as int),
    {
        if value < self.min {
            self.min = value;
        }
        if value > self.max {
            self.max = value;
        }
        self.sum = self.sum + value;
        self.count = self.count + 1;
    }

    /// The mean of the recorded values, rounded toward zero.
    pub fn avg(&self) -> (r: i32)
        requires
            self.count > 0,
        ensures
            r as int == trunc_div(self.sum as int, self.count as int),
    {
        let c = self.count as u64;
        let mag: u64 = if self.sum < 0 {
            (-(self.sum as i64)) as u64
        } else {
            self.sum as u64
        };
        let q = mag / c;
        assert(q <= mag) by (nonlinear_arith)
            requires
                q == mag / c,
                c >= 1,
        ;
        if self.sum < 0 {
            (-(q as i64)) as i32
        } else {
            q as i32
        }
    }

    /// Folds the statistics of `other` into this accumulator.
    pub fn merge(&mut self, other: &Self)
        requires
            old(self)@.merge(other@).fits(),
        ensures
            final(self)@ == old(self)@.merge(other@),
    {
        if other.min < self.min {
            self.min = other.min;
        }
        if other.max > self.max {
            self.max = other.max;
        }
        self.sum = self.sum + other.sum;
        self.count = self.count + other.count;
    }
}

/// The sentinels of an empty accumulator bound every summary.
pub proof fn lemma_summary_bounds(vals: Seq<i32>)
    ensures
        summary(vals).min <= i32::MAX,
        summary(vals).max >= i32::MIN,
    decreases vals.len(),
{
    if vals.len() > 0 {
        lemma_summary_bounds(vals.drop_last());
    }
}

/// Adding one more value to the accumulator of a sequence gives the
/// accumulator of the extended sequence.
pub proof fn lemma_summary_push(vals: Seq<i32>, v: i32)
    ensures
        summary(vals.push(v)) == summary(vals).add(v as int),
{
    assert(vals.push(v).drop_last() =~= vals);
}

/// After any sequence of additions the minimum is the least value added, the
/// maximum the greatest, the sum the exact sum and the count the number of additions.
pub proof fn lemma_summary_exact(vals: Seq<i32>)
    ensures
        summary(vals).count == vals.len(),
        summary(vals).sum == total(vals),
        forall|i: int| 0 <= i < vals.len() ==> summary(vals).min <= #[trigger] vals[i] <= summary(vals).max,
        vals.len() > 0 ==> exists|i: int| 0 <= i < vals.len() && summary(vals).min == vals[i],
        vals.len() > 0 ==> exists|i: int| 0 <= i < vals.len() && summary(vals).max == vals[i],
    decreases vals.len(),
{
    if vals.len() > 0 {
        let init = vals.drop_last();
        lemma_summary_exact(init);
        lemma_total_push(init, vals.last());
        assert(init.push(vals.last()) == vals);
        let s = summary(init);
        let n = vals.len() - 1;
        assert forall|i: int| 0 <= i < vals.len() implies summary(vals).min <= #[trigger] vals[i]
            <= summary(vals).max by {
            if i < n {
                assert(vals[i] == init[i]);
            }
        }
        if n == 0 {
            assert(summary(vals).min == vals[0]);
            assert(summary(vals).max == vals[0]);
        } else {
            let i = choose|i: int| 0 <= i < init.len() && s.min == init[i];
            let j = choose|j: int| 0 <= j < init.len() && s.max == init[j];
            assert(vals[i] == init[i]);
            assert(vals[j] == init[j]);
            assert(summary(vals).min == vals[i] || summary(vals).min == vals[n]);
            assert(summary(vals).max == vals[j] || summary(vals).max == vals[n]);
        }
    }
}

proof fn lemma_total_push(vals: Seq<i32>, v: i32)
    ensures
        total(vals.push(v)) == total(vals) + v,
    decreases vals.len(),
{
    if vals.len() > 0 {
        lemma_total_push(vals.drop_first(), v);
        assert(vals.push(v).drop_first() == vals.drop_first().push(v));
    } else {
        assert(vals.push(v).drop_first() == vals);
    }
}

/// Merging the accumulators of two sequences gives the accumulator of their
/// concatenation, field by field.
pub proof fn lemma_merge_concat(a: Seq<i32>, b: Seq<i32>)
    ensures
        summary(a).merge(summary(b)) == summary(a + b),
    decreases b.len(),
{
    lemma_summary_bounds(a);
    if b.len() == 0 {
        assert(a + b == a);
    } else {
        let init = b.drop_last();
        lemma_merge_concat(a, init);
        assert((a + b).drop_last() == a + init);
        assert((a + b).last() == b.last());
    }
}

/// Merging is commutative.
pub proof fn lemma_merge_commutative(x: StatsView, y: StatsView)
    ensures
        x.merge(y) == y.merge(x),
{
}

/// Merging is associative.
pub proof fn lemma_merge_associative(x: StatsView, y: StatsView, z: StatsView)
    ensures
        x.merge(y).merge(z) == x.merge(y.merge(z)),
{
}

} // verus!
