//! Fair allocation pool of a bounded set of hues: allocation picks
//! uniformly at random among the hues with the globally minimal usage
//! count, release decrements a count, floored at zero.

use vstd::prelude::*;
use rand::seq::SliceRandom;

verus! {

use crate::light_mgr::MAX_DEVICES_SHOWN;

/// Twice the number of displayable peers, so a peer animating out can keep
/// its hue while its replacement already holds a fresh one.
pub const COLOR_POOL_SIZE: usize = 2 * MAX_DEVICES_SHOWN;

/// Degrees between neighbouring pool hues.
pub const HUE_STEP: u16 = 18;

/// The pool hues are spaced evenly around the full color wheel.
pub proof fn hue_step_fills_wheel()
    ensures
        HUE_STEP as int * COLOR_POOL_SIZE as int == 360,
{
}

/// Sum of all usage counts.
pub open spec fn sum_usage_of(u: Seq<usize>) -> int
    decreases u.len(),
{
    if u.len() == 0 {
        0
    } else {
        sum_usage_of(u.drop_last()) + u.last()
    }
}

/// The smallest usage count present.
pub open spec fn min_usage_of(u: Seq<usize>) -> int
    decreases u.len(),
{
    if u.len() <= 1 {
        if u.len() == 0 {
            0
        } else {
            u[0] as int
        }
    } else {
        let rest = min_usage_of(u.drop_last());
        if u.last() < rest {
            u.last() as int
        } else {
            rest
        }
    }
}

/// `min_usage_of` is attained and is a lower bound.
pub proof fn lemma_min_usage(u: Seq<usize>)
    requires
        u.len() >= 1,
    ensures
        exists|j: int| 0 <= j < u.len() && u[j] == min_usage_of(u),
        forall|j: int| 0 <= j < u.len() ==> #[trigger] u[j] >= min_usage_of(u),
    decreases u.len(),
{
    if u.len() == 1 {
        assert(u[0] == min_usage_of(u));
    } else {
        lemma_min_usage(u.drop_last());
        let m = min_usage_of(u.drop_last());
        let w = choose|j: int| 0 <= j < u.drop_last().len() && u.drop_last()[j] == m;
        if u.last() < m {
            assert(u[u.len() - 1] == min_usage_of(u));
        } else {
            assert(u[w] == u.drop_last()[w]);
            assert(u[w] == min_usage_of(u));
        }
        assert forall|j: int| 0 <= j < u.len() implies #[trigger] u[j] >= min_usage_of(
            u,
        ) by {
            if j < u.len() - 1 {
                assert(u.drop_last()[j] >= m);
            }
        }
    }
}

/// Updating one count changes the sum by the difference.
pub proof fn lemma_sum_usage_update(u: Seq<usize>, j: int, v: usize)
    requires
        0 <= j < u.len(),
    ensures
        sum_usage_of(u.update(j, v)) == sum_usage_of(u) - u[j] + v,
    decreases u.len(),
{
    if j == u.len() - 1 {
        assert(u.update(j, v).drop_last() =~= u.drop_last());
        assert(u.update(j, v).last() == v);
    } else {
        lemma_sum_usage_update(u.drop_last(), j, v);
        assert(u.update(j, v).drop_last() =~= u.drop_last().update(j, v));
        assert(u.update(j, v).last() == u.last());
    }
}

/// Every count is at most the sum of all counts.
pub proof fn lemma_sum_usage_element(u: Seq<usize>, j: int)
    requires
        0 <= j < u.len(),
    ensures
        u[j] <= sum_usage_of(u),
    decreases u.len(),
{
    lemma_sum_usage_nonneg(u.drop_last());
    if j < u.len() - 1 {
        lemma_sum_usage_element(u.drop_last(), j);
        assert(u.drop_last()[j] == u[j]);
    }
}

/// Usage counts are unsigned, so their sum is nonnegative.
pub proof fn lemma_sum_usage_nonneg(u: Seq<usize>)
    ensures
        sum_usage_of(u) >= 0,
    decreases u.len(),
{
    if u.len() > 0 {
        lemma_sum_usage_nonneg(u.drop_last());
    }
}

/// One abstract pool operation.
pub enum PoolOp {
    Alloc,
    Release(u16),
}

/// What an allocation does to the usage counts: some count that is the
/// minimum present rises by one. Which one is the random draw's choice.
pub open spec fn alloc_rel(pre: Seq<usize>, post: Seq<usize>) -> bool {
    exists|j: int|
        {
            &&& 0 <= j < pre.len()
            &&& #[trigger] pre[j] == min_usage_of(pre)
            &&& post == pre.update(
                j,
                if pre[j] < usize::MAX {
                    (pre[j] + 1) as usize
                } else {
                    pre[j]
                },
            )
        }
}

/// What allocating one specific hue does to the usage counts: the hue's
/// pool position held the minimum count present, and that count rises by
/// one. This is exactly the step `allocate_color` takes for the hue it
/// returns.
pub open spec fn alloc_step_for(
    hues: Seq<u16>,
    pre: Seq<usize>,
    color: u16,
    post: Seq<usize>,
) -> bool {
    exists|j: int|
        {
            &&& 0 <= j < pre.len()
            &&& #[trigger] pre[j] == min_usage_of(pre)
            &&& j < hues.len() && hues[j] == color
            &&& post == pre.update(
                j,
                if pre[j] < usize::MAX {
                    (pre[j] + 1) as usize
                } else {
                    pre[j]
                },
            )
        }
}

/// Whether allocating the given hues, in order, takes the usage counts
/// from `u0` to `uN`: each hue is drawn at its minimal-usage moment.
pub open spec fn alloc_run_for(
    hues: Seq<u16>,
    u0: Seq<usize>,
    colors: Seq<u16>,
    un: Seq<usize>,
) -> bool
    decreases colors.len(),
{
    if colors.len() == 0 {
        un == u0
    } else {
        exists|mid: Seq<usize>|
            #[trigger] alloc_step_for(hues, u0, colors[0], mid) && alloc_run_for(
                hues,
                mid,
                colors.skip(1),
                un,
            )
    }
}

/// Allocating one more hue after a run is one more step of the run.
pub proof fn lemma_alloc_run_push(
    hues: Seq<u16>,
    u0: Seq<usize>,
    colors: Seq<u16>,
    c: u16,
    mid: Seq<usize>,
    un: Seq<usize>,
)
    requires
        alloc_run_for(hues, u0, colors, mid),
        alloc_step_for(hues, mid, c, un),
    ensures
        alloc_run_for(hues, u0, colors.push(c), un),
    decreases colors.len(),
{
    if colors.len() == 0 {
        assert(colors.push(c)[0] == c);
        assert(colors.push(c).skip(1) =~= Seq::<u16>::empty());
        assert(alloc_step_for(hues, u0, c, un));
        assert(alloc_run_for(hues, un, colors.push(c).skip(1), un));
    } else {
        let m1 = choose|m1: Seq<usize>|
            #[trigger] alloc_step_for(hues, u0, colors[0], m1) && alloc_run_for(
                hues,
                m1,
                colors.skip(1),
                mid,
            );
        lemma_alloc_run_push(hues, m1, colors.skip(1), c, mid, un);
        assert(colors.push(c)[0] == colors[0]);
        assert(colors.push(c).skip(1) =~= colors.skip(1).push(c));
        assert(alloc_step_for(hues, u0, colors.push(c)[0], m1));
    }
}

/// Whether a run of operations takes the usage counts from `u0` to `uN`:
/// each allocation steps by `alloc_rel`, each release by `release_one`.
pub open spec fn pool_run_ok(
    hues: Seq<u16>,
    u0: Seq<usize>,
    ops: Seq<PoolOp>,
    un: Seq<usize>,
) -> bool
    decreases ops.len(),
{
    if ops.len() == 0 {
        un == u0
    } else {
        match ops[0] {
            PoolOp::Alloc => exists|mid: Seq<usize>|
                #[trigger] alloc_rel(u0, mid) && pool_run_ok(hues, mid, ops.skip(1), un),
            PoolOp::Release(c) => pool_run_ok(
                hues,
                release_one(hues, u0, c),
                ops.skip(1),
                un,
            ),
        }
    }
}

/// Whether releases keep pace with allocations along a run: every
/// allocation happens while fewer than the pool size colors are
/// outstanding, whatever hue each draw picks.
pub open spec fn run_within_budget(hues: Seq<u16>, u: Seq<usize>, ops: Seq<PoolOp>) -> bool
    decreases ops.len(),
{
    if ops.len() == 0 {
        true
    } else {
        match ops[0] {
            PoolOp::Alloc => sum_usage_of(u) < COLOR_POOL_SIZE && forall|mid: Seq<usize>|
                #[trigger] alloc_rel(u, mid) ==> run_within_budget(hues, mid, ops.skip(1)),
            PoolOp::Release(c) => run_within_budget(
                hues,
                release_one(hues, u, c),
                ops.skip(1),
            ),
        }
    }
}

/// An allocation within the budget raises the sum by exactly one.
proof fn lemma_alloc_rel_sum(pre: Seq<usize>, post: Seq<usize>)
    requires
        alloc_rel(pre, post),
        sum_usage_of(pre) < COLOR_POOL_SIZE,
    ensures
        sum_usage_of(post) == sum_usage_of(pre) + 1,
{
    let j = choose|j: int|
        {
            &&& 0 <= j < pre.len()
            &&& #[trigger] pre[j] == min_usage_of(pre)
            &&& post == pre.update(
                j,
                if pre[j] < usize::MAX {
                    (pre[j] + 1) as usize
                } else {
                    pre[j]
                },
            )
        };
    lemma_sum_usage_element(pre, j);
    lemma_sum_usage_update(pre, j, (pre[j] + 1) as usize);
}

/// A release never raises the sum.
proof fn lemma_release_one_sum(hues: Seq<u16>, u: Seq<usize>, c: u16)
    requires
        hues.len() == u.len(),
    ensures
        sum_usage_of(release_one(hues, u, c)) <= sum_usage_of(u),
        release_one(hues, u, c).len() == u.len(),
{
    if exists|j: int| 0 <= j < hues.len() && #[trigger] hues[j] == c {
        let j = pool_index_of(hues, c);
        assert(0 <= j < hues.len() && hues[j] == c);
        let nv: usize = if u[j] > 0 {
            (u[j] - 1) as usize
        } else {
            0
        };
        assert(release_one(hues, u, c) == u.update(j, nv));
        lemma_sum_usage_update(u, j, nv);
    } else {
        assert(release_one(hues, u, c) == u);
    }
}

/// For any interleaving of allocations and releases starting within the
/// pool budget, as long as releases keep pace with allocations, the usage
/// counts never sum to more than the pool size.
pub proof fn lemma_pool_budget(
    hues: Seq<u16>,
    u0: Seq<usize>,
    ops: Seq<PoolOp>,
    un: Seq<usize>,
)
    requires
        hues.len() == u0.len(),
        sum_usage_of(u0) <= COLOR_POOL_SIZE,
        run_within_budget(hues, u0, ops),
        pool_run_ok(hues, u0, ops, un),
    ensures
        sum_usage_of(un) <= COLOR_POOL_SIZE,
    decreases ops.len(),
{
    if ops.len() > 0 {
        match ops[0] {
            PoolOp::Alloc => {
                let mid = choose|mid: Seq<usize>|
                    #[trigger] alloc_rel(u0, mid) && pool_run_ok(hues, mid, ops.skip(1), un);
                lemma_alloc_rel_sum(u0, mid);
                lemma_pool_budget(hues, mid, ops.skip(1), un);
            },
            PoolOp::Release(c) => {
                lemma_release_one_sum(hues, u0, c);
                lemma_pool_budget(hues, release_one(hues, u0, c), ops.skip(1), un);
            },
        }
    }
}

/// The pool position of a hue that the pool holds.
pub open spec fn pool_index_of(hues: Seq<u16>, color: u16) -> int {
    choose|j: int| 0 <= j < hues.len() && #[trigger] hues[j] == color
}

/// The usage counts after releasing one hue: the hue's count falls by
/// one, floored at zero; a hue outside the pool changes nothing.
pub open spec fn release_one(hues: Seq<u16>, usage: Seq<usize>, color: u16) -> Seq<usize> {
    if exists|j: int| 0 <= j < hues.len() && #[trigger] hues[j] == color {
        let j = pool_index_of(hues, color);
        usage.update(
            j,
            if usage[j] > 0 {
                (usage[j] - 1) as usize
            } else {
                0
            },
        )
    } else {
        usage
    }
}

/// The usage counts after releasing a sequence of hues in order.
pub open spec fn release_fold(hues: Seq<u16>, usage: Seq<usize>, colors: Seq<u16>) -> Seq<
    usize,
>
    decreases colors.len(),
{
    if colors.len() == 0 {
        usage
    } else {
        release_fold(hues, release_one(hues, usage, colors[0]), colors.skip(1))
    }
}

/// Releasing one more hue after a sequence is one more step of the fold.
pub proof fn lemma_release_fold_push(
    hues: Seq<u16>,
    usage: Seq<usize>,
    colors: Seq<u16>,
    c: u16,
)
    ensures
        release_fold(hues, usage, colors.push(c)) == release_one(
            hues,
            release_fold(hues, usage, colors),
            c,
        ),
    decreases colors.len(),
{
    if colors.len() == 0 {
        assert(colors.push(c)[0] == c);
        assert(colors.push(c).skip(1) =~= Seq::<u16>::empty());
        assert(release_fold(hues, usage, colors.push(c)) == release_fold(
            hues,
            release_one(hues, usage, c),
            colors.push(c).skip(1),
        ));
        assert(release_fold(hues, release_one(hues, usage, c), Seq::<u16>::empty())
            == release_one(hues, usage, c));
        assert(release_fold(hues, usage, colors) == usage);
    } else {
        assert(colors.push(c)[0] == colors[0]);
        assert(colors.push(c).skip(1) =~= colors.skip(1).push(c));
        assert(release_fold(hues, usage, colors.push(c)) == release_fold(
            hues,
            release_one(hues, usage, colors[0]),
            colors.skip(1).push(c),
        ));
        assert(release_fold(hues, usage, colors) == release_fold(
            hues,
            release_one(hues, usage, colors[0]),
            colors.skip(1),
        ));
        lemma_release_fold_push(
            hues,
            release_one(hues, usage, colors[0]),
            colors.skip(1),
            c,
        );
    }
}

/// Relies on rand: `SliceRandom::choose` with `thread_rng` picks a
/// uniformly random element of the slice, `None` only when it is empty.
/// Whatever the random source does, the result is one of the candidates.
#[verifier::external_body]
fn choose_uniform(candidates: &Vec<usize>) -> (r: usize)
    requires
        candidates@.len() > 0,
    ensures
        candidates@.contains(r),
{
    *candidates.as_slice().choose(&mut rand::thread_rng()).unwrap()
}

/// Fixed pool of candidate hues, each with a usage count.
#[derive(Debug)]
pub struct ColorAllocator {
    colors: Vec<u16>,
    colors_in_use: Vec<usize>,
}

impl ColorAllocator {
    /// The pool hues, in degrees.
    pub closed spec fn hues(self) -> Seq<u16> {
        self.colors@
    }

    /// The usage count of each pool hue.
    pub closed spec fn usage(self) -> Seq<usize> {
        self.colors_in_use@
    }

    /// Total number of outstanding uses over the whole pool.
    pub open spec fn sum_usage(self) -> int {
        sum_usage_of(self.usage())
    }

    /// The pool holds exactly the evenly spaced hues, one count each.
    pub open spec fn wf(self) -> bool {
        &&& self.hues().len() == COLOR_POOL_SIZE
        &&& self.usage().len() == COLOR_POOL_SIZE
        &&& forall|i: int|
            0 <= i < COLOR_POOL_SIZE ==> #[trigger] self.hues()[i] == i * HUE_STEP
    }

    pub fn new() -> (r: Self)
        ensures
            r.wf(),
            forall|i: int| 0 <= i < COLOR_POOL_SIZE ==> #[trigger] r.usage()[i] == 0,
            r.sum_usage() == 0,
    {
        let mut colors: Vec<u16> = Vec::new();
        let mut colors_in_use: Vec<usize> = Vec::new();
        let mut i: usize = 0;
        while i < COLOR_POOL_SIZE
            invariant
                0 <= i <= COLOR_POOL_SIZE,
                colors@.len() == i,
                colors_in_use@.len() == i,
                forall|k: int| 0 <= k < i ==> #[trigger] colors@[k] == k * HUE_STEP,
                forall|k: int| 0 <= k < i ==> #[trigger] colors_in_use@[k] == 0,
                sum_usage_of(colors_in_use@) == 0,
            decreases COLOR_POOL_SIZE - i,
        {
            let ghost before = colors_in_use@;
            colors.push((i as u16) * HUE_STEP);
            colors_in_use.push(0);
            proof {
                assert(colors_in_use@.drop_last() =~= before);
            }
            i = i + 1;
        }
        Self { colors, colors_in_use }
    }

    /// Allocate a hue: pick uniformly at random among the hues whose usage
    /// count is the minimum present, and count one more use of it. Never
    /// fails; while allocations stay within the pool budget, the counts
    /// sum to exactly the number of outstanding allocations.
    pub fn allocate_color(&mut self) -> (r: u16)
        requires
            old(self).wf(),
        ensures
            final(self).wf(),
            final(self).hues() == old(self).hues(),
            exists|j: int|
                {
                    &&& 0 <= j < COLOR_POOL_SIZE
                    &&& #[trigger] old(self).usage()[j] == min_usage_of(old(self).usage())
                    &&& r == old(self).hues()[j]
                    &&& final(self).usage() == old(self).usage().update(
                        j,
                        if old(self).usage()[j] < usize::MAX {
                            (old(self).usage()[j] + 1) as usize
                        } else {
                            old(self).usage()[j]
                        },
                    )
                },
            min_usage_of(old(self).usage()) < usize::MAX ==> final(self).sum_usage() == old(
                self,
            ).sum_usage() + 1,
            old(self).sum_usage() < COLOR_POOL_SIZE ==> final(self).sum_usage() == old(
                self,
            ).sum_usage() + 1 && final(self).sum_usage() <= COLOR_POOL_SIZE,
            alloc_rel(old(self).usage(), final(self).usage()),
            alloc_step_for(old(self).hues(), old(self).usage(), r, final(self).usage()),
            r < 360,
    {
        let mut min_u: usize = self.colors_in_use[0];
        let mut i: usize = 1;
        while i < COLOR_POOL_SIZE
            invariant
                old(self).wf(),
                self == old(self),
                1 <= i <= COLOR_POOL_SIZE,
                exists|j: int| 0 <= j < i && #[trigger] self.usage()[j] == min_u,
                forall|j: int| 0 <= j < i ==> #[trigger] self.usage()[j] >= min_u,
            decreases COLOR_POOL_SIZE - i,
        {
            if self.colors_in_use[i] < min_u {
                min_u = self.colors_in_use[i];
            }
            i = i + 1;
        }
        proof {
            lemma_min_usage(self.usage());
            let jm = choose|j: int|
                0 <= j < self.usage().len() && self.usage()[j] == min_usage_of(
                    self.usage(),
                );
            assert(self.usage()[jm] >= min_u);
            let ja = choose|j: int| 0 <= j < COLOR_POOL_SIZE && self.usage()[j] == min_u;
            assert(self.usage()[ja] >= min_usage_of(self.usage()));
            assert(min_u == min_usage_of(self.usage()));
        }
        let mut candidates: Vec<usize> = Vec::new();
        let mut i: usize = 0;
        while i < COLOR_POOL_SIZE
            invariant
                old(self).wf(),
                self == old(self),
                0 <= i <= COLOR_POOL_SIZE,
                min_u == min_usage_of(self.usage()),
                forall|j: int|
                    0 <= j < COLOR_POOL_SIZE ==> #[trigger] self.usage()[j] >= min_u,
                forall|k: int|
                    0 <= k < candidates@.len() ==> 0 <= #[trigger] candidates@[k]
                        < COLOR_POOL_SIZE && self.usage()[candidates@[k] as int] == min_u,
                forall|j: int|
                    0 <= j < i && #[trigger] self.usage()[j] == min_u
                        ==> candidates@.contains(j as usize),
            decreases COLOR_POOL_SIZE - i,
        {
            let ghost prev = candidates@;
            if self.colors_in_use[i] == min_u {
                candidates.push(i);
            }
            proof {
                assert forall|j: int|
                    0 <= j < i + 1 && #[trigger] self.usage()[j] == min_u implies candidates@
                    .contains(j as usize) by {
                    if j == i {
                        assert(candidates@[candidates@.len() - 1] == i as usize);
                    } else {
                        let k = choose|k: int|
                            0 <= k < prev.len() && prev[k] == j as usize;
                        assert(candidates@[k] == j as usize);
                    }
                }
            }
            i = i + 1;
        }
        proof {
            lemma_min_usage(self.usage());
            let jm = choose|j: int|
                0 <= j < self.usage().len() && self.usage()[j] == min_usage_of(
                    self.usage(),
                );
            assert(candidates@.contains(jm as usize));
            assert(candidates@.len() > 0);
        }
        let color_idx = choose_uniform(&candidates);
        proof {
            let k = choose|k: int|
                0 <= k < candidates@.len() && candidates@[k] == color_idx;
            assert(self.usage()[color_idx as int] == min_u);
        }
        let c = self.colors_in_use[color_idx];
        let ghost usage_before = self.usage();
        if c < usize::MAX {
            self.colors_in_use[color_idx] = c + 1;
            proof {
                lemma_sum_usage_update(usage_before, color_idx as int, (c + 1) as usize);
            }
        }
        proof {
            if old(self).sum_usage() < COLOR_POOL_SIZE {
                lemma_sum_usage_element(usage_before, color_idx as int);
            }
        }
        self.colors[color_idx]
    }

    /// The usage count of a hue, or zero for a hue outside the pool.
    pub fn usage_of(&self, color: u16) -> (r: usize)
        requires
            self.wf(),
        ensures
            forall|j: int|
                0 <= j < COLOR_POOL_SIZE && #[trigger] self.hues()[j] == color ==> r
                    == self.usage()[j],
            !(exists|j: int| 0 <= j < COLOR_POOL_SIZE && #[trigger] self.hues()[j] == color)
                ==> r == 0,
    {
        let mut i: usize = 0;
        while i < COLOR_POOL_SIZE
            invariant
                self.wf(),
                0 <= i <= COLOR_POOL_SIZE,
                forall|j: int| 0 <= j < i ==> #[trigger] self.hues()[j] != color,
            decreases COLOR_POOL_SIZE - i,
        {
            if self.colors[i] == color {
                return self.colors_in_use[i];
            }
            i = i + 1;
        }
        0
    }

    /// Release one use of a hue, floored at zero. A hue outside the pool is
    /// ignored: the pool is left unchanged.
    pub fn release_color(&mut self, color: u16)
        requires
            old(self).wf(),
        ensures
            final(self).wf(),
            final(self).hues() == old(self).hues(),
            (exists|j: int|
                0 <= j < COLOR_POOL_SIZE && #[trigger] old(self).hues()[j] == color)
                ==> exists|j: int|
                {
                    &&& 0 <= j < COLOR_POOL_SIZE
                    &&& #[trigger] old(self).hues()[j] == color
                    &&& final(self).usage() == old(self).usage().update(
                        j,
                        if old(self).usage()[j] > 0 {
                            (old(self).usage()[j] - 1) as usize
                        } else {
                            0
                        },
                    )
                    &&& (old(self).usage()[j] > 0 ==> final(self).sum_usage() == old(
                        self,
                    ).sum_usage() - 1)
                },
            !(exists|j: int|
                0 <= j < COLOR_POOL_SIZE && #[trigger] old(self).hues()[j] == color)
                ==> *final(self) == *old(self),
            final(self).usage() == release_one(old(self).hues(), old(self).usage(), color),
            final(self).sum_usage() <= old(self).sum_usage(),
    {
        let mut i: usize = 0;
        while i < COLOR_POOL_SIZE
            invariant
                old(self).wf(),
                self == old(self),
                0 <= i <= COLOR_POOL_SIZE,
                forall|j: int| 0 <= j < i ==> #[trigger] self.hues()[j] != color,
            decreases COLOR_POOL_SIZE - i,
        {
            if self.colors[i] == color {
                let c = self.colors_in_use[i];
                let ghost usage_before = self.usage();
                if c > 0 {
                    self.colors_in_use[i] = c - 1;
                    proof {
                        lemma_sum_usage_update(usage_before, i as int, (c - 1) as usize);
                    }
                } else {
                    proof {
                        assert(self.usage() =~= usage_before.update(i as int, 0));
                    }
                }
                return;
            }
            i = i + 1;
        }
    }
}

} // verus!
