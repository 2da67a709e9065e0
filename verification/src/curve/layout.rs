//! Every bar of every path, one after another.
use super::allocation::{
    allocated, allocation_is_exact, planned, total, AllocationPlan, Division,
};
use super::walk::PathSpec;
use crate::single::Single;
use vstd::prelude::*;

verus! {

/// The indices below `n` of paths that have two control points or more.
pub open spec fn usable_below(paths: Seq<PathSpec>, n: int) -> Seq<int>
    decreases n,
{
    if n <= 0 {
        Seq::empty()
    } else if paths[n - 1].controls@.len() >= 2 {
        usable_below(paths, n - 1).push(n - 1)
    } else {
        usable_below(paths, n - 1)
    }
}

/// Indices by value.
pub open spec fn indices(s: Seq<usize>) -> Seq<int> {
    s.map_values(|i: usize| i as int)
}

/// The paths that bars can stand on: those of two control points or more.
pub fn usable(paths: &[PathSpec]) -> (out: Vec<usize>)
    ensures
        indices(out@) == usable_below(paths@, paths@.len() as int),
        forall|k: int| 0 <= k < out@.len() ==> #[trigger] out@[k] < paths@.len(),
{
    let mut out: Vec<usize> = Vec::new();
    assert(indices(out@) =~= Seq::empty());
    for i in 0..paths.len()
        invariant
            indices(out@) == usable_below(paths@, i as int),
            forall|k: int| 0 <= k < out@.len() ==> #[trigger] out@[k] < i,
    {
        if paths[i].controls.len() >= 2 {
            let ghost earlier = out@;
            out.push(i);
            assert(indices(out@) =~= indices(earlier).push(i as int));
        }
    }
    out
}

/// The counts that the usable paths name.
pub open spec fn bars_asked(paths: Seq<PathSpec>, usable: Seq<usize>) -> Seq<Option<u32>> {
    Seq::new(usable.len(), |k: int| paths[usable[k] as int].bars)
}

/// The counts that the usable paths name.
pub fn asked_bars(paths: &[PathSpec], usable: &[usize]) -> (out: Vec<Option<u32>>)
    requires
        forall|k: int| 0 <= k < usable@.len() ==> #[trigger] usable@[k] < paths@.len(),
    ensures
        out@ == bars_asked(paths@, usable@),
{
    let mut out: Vec<Option<u32>> = Vec::new();
    for k in 0..usable.len()
        invariant
            forall|k: int| 0 <= k < usable@.len() ==> #[trigger] usable@[k] < paths@.len(),
            out@.len() == k,
            forall|j: int|
                0 <= j < k ==> #[trigger] out@[j] == paths@[usable@[j] as int].bars,
    {
        out.push(paths[usable[k]].bars);
    }
    assert(out@ =~= bars_asked(paths@, usable@));
    out
}

/// Whether the counts that are named can be added up.
pub fn asked_fits(fixed: &[Option<u32>]) -> (r: bool)
    ensures
        r == (total(super::allocation::all_asked(fixed@)) <= u32::MAX),
{
    let mut sum: u32 = 0;
    let ghost all = super::allocation::all_asked(fixed@);
    for i in 0..fixed.len()
        invariant
            all == super::allocation::all_asked(fixed@),
            sum == total(all.take(i as int)),
    {
        let n: u32 = match fixed[i] {
            Some(n) => n,
            None => 0,
        };
        proof {
            assert(all[i as int] == n);
            assert(all.take(i + 1).drop_last() =~= all.take(i as int));
            super::allocation::total_prefix(all, i + 1);
        }
        if n > u32::MAX - sum {
            return false;
        }
        sum = sum + n;
    }
    assert(all.take(all.len() as int) =~= all);
    true
}

/// One bar: the path it stands on, and its place among that path's bars.
#[derive(Clone, Copy, Debug, PartialEq, Eq, Structural)]
pub struct Slot {
    pub path: usize,
    pub index: u32,
    pub of: u32,
}

/// The bars of the first `n` paths, path by path.
pub open spec fn slots(usable: Seq<usize>, counts: Seq<u32>, n: int) -> Seq<Slot>
    decreases n,
{
    if n <= 0 {
        Seq::empty()
    } else {
        slots(usable, counts, n - 1) + Seq::new(
            counts[n - 1] as nat,
            |k: int| Slot { path: usable[n - 1], index: k as u32, of: counts[n - 1] },
        )
    }
}

/// Every bar, path by path, where path `usable[k]` has `counts[k]` of them.
pub fn lay_out(usable: &[usize], counts: &[u32]) -> (out: Vec<Slot>)
    requires
        usable@.len() == counts@.len(),
    ensures
        out@ == slots(usable@, counts@, counts@.len() as int),
{
    let mut out: Vec<Slot> = Vec::new();
    for i in 0..counts.len()
        invariant
            usable@.len() == counts@.len(),
            out@ == slots(usable@, counts@, i as int),
    {
        let of: u32 = counts[i];
        let path: usize = usable[i];
        let ghost earlier = out@;
        for k in 0..of
            invariant
                out@ == earlier + Seq::new(
                    k as nat,
                    |j: int| Slot { path, index: j as u32, of },
                ),
        {
            out.push(Slot { path, index: k, of });
            assert(out@ =~= earlier + Seq::new(
                (k + 1) as nat,
                |j: int| Slot { path, index: j as u32, of },
            ));
        }
        assert(out@ =~= slots(usable@, counts@, i + 1));
    }
    out
}

/// There are as many bars as the counts add up to.
pub proof fn every_bar_is_laid_out(usable: Seq<usize>, counts: Seq<u32>, n: int)
    requires
        0 <= n <= counts.len(),
    ensures
        slots(usable, counts, n).len() == total(counts.take(n)),
    decreases n,
{
    if n > 0 {
        every_bar_is_laid_out(usable, counts, n - 1);
        assert(counts.take(n).drop_last() =~= counts.take(n - 1));
    } else {
        assert(counts.take(0) =~= Seq::empty());
    }
}

/// Wherever some path is usable there are exactly `count` bars, whatever the
/// paths' lengths, the counts that they name and the division: this is the
/// number that instances, buffers and the analyser's channels agree on.
pub proof fn exactly_the_count_is_laid_out(
    paths: Seq<PathSpec>,
    usable: Seq<usize>,
    lengths: Seq<Single>,
    fixed: Seq<Option<u32>>,
    count: u32,
    plan: AllocationPlan,
    division: Division,
    counts: Seq<u32>,
)
    requires
        indices(usable) == usable_below(paths, paths.len() as int),
        usable.len() > 0,
        lengths.len() == usable.len(),
        fixed.len() == usable.len(),
        forall|k: int|
            0 <= k < fixed.len() ==> #[trigger] fixed[k] == paths[usable[k] as int].bars,
        planned(lengths, fixed, count, plan),
        counts.len() == usable.len(),
        forall|i: int|
            0 <= i < counts.len() ==> (#[trigger] counts[i]) == allocated(plan, division, i),
    ensures
        slots(usable, counts, counts.len() as int).len() == count,
{
    allocation_is_exact(lengths, fixed, count, plan, division, counts);
    every_bar_is_laid_out(usable, counts, counts.len() as int);
    assert(counts.take(counts.len() as int) =~= counts);
}

/// Only a path of two control points or more is usable.
pub proof fn a_usable_path_has_a_direction(paths: Seq<PathSpec>, n: int)
    requires
        0 <= n <= paths.len(),
    ensures
        forall|k: int|
            0 <= k < usable_below(paths, n).len() ==> 0 <= #[trigger] usable_below(paths, n)[k] < n
                && paths[usable_below(paths, n)[k]].controls@.len() >= 2,
        forall|i: int|
            0 <= i < n && (#[trigger] paths[i]).controls@.len() >= 2 ==> usable_below(
                paths,
                n,
            ).contains(i),
    decreases n,
{
    if n > 0 {
        a_usable_path_has_a_direction(paths, n - 1);
        let earlier = usable_below(paths, n - 1);
        let all = usable_below(paths, n);
        assert forall|k: int| 0 <= k < all.len() implies 0 <= #[trigger] all[k] < n
            && paths[all[k]].controls@.len() >= 2 by {
            if k < earlier.len() {
                assert(all[k] == earlier[k]);
            }
        }
        assert forall|i: int| 0 <= i < n && (#[trigger] paths[i]).controls@.len()
            >= 2 implies all.contains(i) by {
            if i < n - 1 {
                assert(earlier.contains(i));
                let k = choose|k: int| 0 <= k < earlier.len() && earlier[k] == i;
                assert(all[k] == i);
            } else {
                assert(all.last() == i);
            }
        }
    }
}

/// Bars stand path by path, in the order of the paths, and each path's are
/// numbered from nought up to its own count.
pub proof fn bars_stand_path_by_path(usable: Seq<usize>, counts: Seq<u32>, n: int, k: int, j: int)
    requires
        0 <= k < n <= counts.len(),
        0 <= j < counts[k],
    ensures
        ({
            let all = slots(usable, counts, n);
            let at = total(counts.take(k)) + j;
            &&& 0 <= at < all.len()
            &&& all[at].path == usable[k]
            &&& all[at].index == j
            &&& all[at].of == counts[k]
        }),
    decreases n,
{
    every_bar_is_laid_out(usable, counts, n - 1);
    every_bar_is_laid_out(usable, counts, n);
    super::allocation::total_prefix(counts, k);
    if k < n - 1 {
        bars_stand_path_by_path(usable, counts, n - 1, k, j);
    }
}

/// Each usable path asks for its own count.
pub proof fn each_path_asks_for_its_own(paths: Seq<PathSpec>, usable: Seq<usize>, k: int)
    requires
        0 <= k < usable.len(),
    ensures
        bars_asked(paths, usable).len() == usable.len(),
        bars_asked(paths, usable)[k] == paths[usable[k] as int].bars,
{
}

} // verus!
