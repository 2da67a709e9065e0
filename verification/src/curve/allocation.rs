//! How many bars each path gets.
//!
//! A path may name its count; what is left is shared by length. The share of
//! a path is a number with a fraction, so the division itself is handed in:
//! per path the whole part and the fraction. How many bars come of it is
//! decided here, by largest remainder, and the total is exact whatever the
//! division says.
use crate::single::{less, total_rank, zero, Single};
use vstd::prelude::*;
use vstd::relations::injective_on;
use vstd::set_lib::{lemma_int_range, lemma_map_size, lemma_subset_equality, set_int_range};

verus! {

/// What a path weighs when bars are shared out.
#[derive(Clone, Copy, Debug, PartialEq, Eq, Structural)]
pub enum Weight {
    /// Its length along the screen.
    Length(Single),
    /// The count that it asked for.
    Asked(u32),
}

/// One path's part of a count, divided in proportion to its weight.
#[derive(Clone, Copy, Debug, PartialEq, Eq, Structural)]
pub struct Ideal {
    /// The bars that it has earned in full.
    pub whole: u32,
    /// The fraction of a bar beyond them.
    pub fraction: Single,
}

/// A count divided between weights.
#[derive(Debug)]
pub enum Division {
    /// The weights have no positive, finite total to divide by.
    Even,
    /// Each path's part.
    Parts(Vec<Ideal>),
}

/// What is settled before lengths are looked at, and what is left to share.
#[derive(Debug)]
pub struct AllocationPlan {
    /// What each path has already; zero where it takes a share.
    pub given: Vec<u32>,
    /// How many bars the weights share.
    pub shared: u32,
    /// What each path weighs when they are shared.
    pub weights: Vec<Weight>,
}

/// The sum of what `s` holds.
pub open spec fn total(s: Seq<u32>) -> int
    decreases s.len(),
{
    if s.len() == 0 {
        0
    } else {
        total(s.drop_last()) + s.last()
    }
}

/// The count a path asks for, zero where it asks for none.
pub open spec fn asked(f: Option<u32>) -> u32 {
    match f {
        Some(n) => n,
        None => 0,
    }
}

/// Every path's asked count.
pub open spec fn all_asked(fixed: Seq<Option<u32>>) -> Seq<u32> {
    fixed.map_values(|f: Option<u32>| asked(f))
}

/// Some path names its count.
pub open spec fn any_named(fixed: Seq<Option<u32>>) -> bool {
    exists|i: int| 0 <= i < fixed.len() && (#[trigger] fixed[i]) is Some
}

/// What a path weighs against the others that named no count.
pub open spec fn rest_weight(length: Single, fixed: Option<u32>) -> Weight {
    match fixed {
        Some(_) => Weight::Length(zero()),
        None => Weight::Length(length),
    }
}

/// Some path that named no count has a positive length.
pub open spec fn any_rest(lengths: Seq<Single>, fixed: Seq<Option<u32>>) -> bool {
    exists|i: int|
        0 <= i < lengths.len() && fixed[i] is None && #[trigger] less(zero(), lengths[i])
}

/// The plan for `count` bars.
///
/// Where no path names a count, lengths share everything. Where the named
/// counts reach `count`, or no other path could take what they leave, those
/// counts share it in their own proportion. Else they are taken off the top,
/// and lengths share what is left.
pub open spec fn planned(
    lengths: Seq<Single>,
    fixed: Seq<Option<u32>>,
    count: u32,
    plan: AllocationPlan,
) -> bool {
    let asked_total = total(all_asked(fixed));
    if !any_named(fixed) {
        &&& plan.given@ == Seq::new(lengths.len(), |i: int| 0u32)
        &&& plan.shared == count
        &&& plan.weights@ == lengths.map_values(|l: Single| Weight::Length(l))
    } else if asked_total >= count || !any_rest(lengths, fixed) {
        &&& plan.given@ == Seq::new(lengths.len(), |i: int| 0u32)
        &&& plan.shared == count
        &&& plan.weights@ == fixed.map_values(|f: Option<u32>| Weight::Asked(asked(f)))
    } else {
        &&& plan.given@ == all_asked(fixed)
        &&& plan.shared == count - asked_total
        &&& plan.weights@ == Seq::new(lengths.len(), |i: int| rest_weight(lengths[i], fixed[i]))
    }
}

proof fn total_push(s: Seq<u32>, x: u32)
    ensures
        total(s.push(x)) == total(s) + x,
{
    assert(s.push(x).drop_last() == s);
}

pub(crate) proof fn total_prefix(s: Seq<u32>, n: int)
    requires
        0 <= n <= s.len(),
    ensures
        0 <= total(s.take(n)) <= total(s),
    decreases s.len() - n,
{
    if n == s.len() {
        assert(s.take(n) == s);
        total_positive(s);
    } else {
        total_prefix(s, n + 1);
        assert(s.take(n + 1).drop_last() == s.take(n));
        total_positive(s.take(n));
    }
}

proof fn total_positive(s: Seq<u32>)
    ensures
        0 <= total(s),
    decreases s.len(),
{
    if s.len() > 0 {
        total_positive(s.drop_last());
    }
}

/// Decide what is given and what is shared.
pub fn plan_allocation(lengths: &[Single], fixed: &[Option<u32>], count: u32) -> (plan:
    AllocationPlan)
    requires
        lengths@.len() == fixed@.len(),
        total(all_asked(fixed@)) <= u32::MAX,
    ensures
        planned(lengths@, fixed@, count, plan),
{
    let n: usize = lengths.len();
    let ghost wants = all_asked(fixed@);
    let mut given: Vec<u32> = Vec::new();
    let mut zeros: Vec<u32> = Vec::new();
    let mut by_length: Vec<Weight> = Vec::new();
    let mut by_asked: Vec<Weight> = Vec::new();
    let mut by_rest: Vec<Weight> = Vec::new();
    let mut sum: u32 = 0;
    let mut named: bool = false;
    let mut rest: bool = false;
    for i in 0..n
        invariant
            n == lengths@.len() == fixed@.len(),
            wants == all_asked(fixed@),
            total(wants) <= u32::MAX,
            sum == total(wants.take(i as int)),
            given@ == wants.take(i as int),
            zeros@ == Seq::new(i as nat, |j: int| 0u32),
            by_length@ == lengths@.map_values(|l: Single| Weight::Length(l)).take(i as int),
            by_asked@ == fixed@.map_values(|f: Option<u32>| Weight::Asked(asked(f))).take(i as int),
            by_rest@ == Seq::new(i as nat, |j: int| rest_weight(lengths@[j], fixed@[j])),
            named == (exists|j: int| 0 <= j < i && (#[trigger] fixed@[j]) is Some),
            rest == (exists|j: int|
                0 <= j < i && fixed@[j] is None && #[trigger] less(zero(), lengths@[j])),
    {
        let want: u32 = match fixed[i] {
            Some(k) => k,
            None => 0,
        };
        proof {
            total_push(wants.take(i as int), want);
            assert(wants.take(i + 1) == wants.take(i as int).push(want));
            total_prefix(wants, i + 1);
        }
        sum = sum + want;
        given.push(want);
        zeros.push(0);
        by_length.push(Weight::Length(lengths[i]));
        by_asked.push(Weight::Asked(want));
        match fixed[i] {
            Some(_) => {
                named = true;
                by_rest.push(Weight::Length(Single { bits: 0 }));
            },
            None => {
                if (Single { bits: 0 }).lt(lengths[i]) {
                    assert(less(zero(), lengths@[i as int]));
                    rest = true;
                }
                by_rest.push(Weight::Length(lengths[i]));
            },
        }
    }
    assert(wants.take(n as int) == wants);
    assert(by_length@ =~= lengths@.map_values(|l: Single| Weight::Length(l)));
    assert(by_asked@ =~= fixed@.map_values(|f: Option<u32>| Weight::Asked(asked(f))));
    if !named {
        AllocationPlan { given: zeros, shared: count, weights: by_length }
    } else if sum >= count || !rest {
        AllocationPlan { given: zeros, shared: count, weights: by_asked }
    } else {
        AllocationPlan { given, shared: count - sum, weights: by_rest }
    }
}

/// Path `i` takes a share: nothing was given to it.
pub open spec fn takes(plan: AllocationPlan, i: int) -> bool {
    plan.given@[i] == 0
}

/// How many of the first `n` paths take a share.
pub open spec fn takers(plan: AllocationPlan, n: int) -> int
    decreases n,
{
    if n <= 0 {
        0
    } else {
        takers(plan, n - 1) + if takes(plan, n - 1) {
            1int
        } else {
            0
        }
    }
}

/// The bars that path `i` has earned in full.
pub open spec fn earned(plan: AllocationPlan, division: Division, i: int) -> int {
    match division {
        Division::Even => 0,
        Division::Parts(parts) => if takes(plan, i) {
            parts@[i].whole as int
        } else {
            0
        },
    }
}

/// The bars that the first `n` paths have earned in full.
pub open spec fn earned_by(plan: AllocationPlan, division: Division, n: int) -> int
    decreases n,
{
    if n <= 0 {
        0
    } else {
        earned_by(plan, division, n - 1) + earned(plan, division, n - 1)
    }
}

/// What the first `n` paths get of that: all of it, as far as the bars reach.
pub open spec fn handed_out(plan: AllocationPlan, division: Division, n: int) -> int {
    let e = earned_by(plan, division, n);
    if e < plan.shared {
        e
    } else {
        plan.shared as int
    }
}

/// The bars that are left once whole parts have been handed out.
pub open spec fn remainder(plan: AllocationPlan, division: Division) -> int {
    plan.shared - handed_out(plan, division, plan.given@.len() as int)
}

/// Path `i` is served before path `j`: it has the larger fraction, or the same
/// one and a smaller index.
pub open spec fn served_before(division: Division, i: int, j: int) -> bool {
    match division {
        Division::Even => i < j,
        Division::Parts(parts) => {
            let (a, b) = (total_rank(parts@[i].fraction), total_rank(parts@[j].fraction));
            a > b || (a == b && i < j)
        },
    }
}

/// How many of the first `n` paths take a share and are served before path
/// `j`.
pub open spec fn ahead(plan: AllocationPlan, division: Division, j: int, n: int) -> int
    decreases n,
{
    if n <= 0 {
        0
    } else {
        ahead(plan, division, j, n - 1) + if takes(plan, n - 1) && served_before(
            division,
            n - 1,
            j,
        ) {
            1int
        } else {
            0
        }
    }
}

/// Path `j`'s place in the order of service.
pub open spec fn place(plan: AllocationPlan, division: Division, j: int) -> int {
    ahead(plan, division, j, plan.given@.len() as int)
}

/// What path `i` ends up with: what it was given, else its share.
///
/// A share is the path's whole part, and of the remainder one bar in the order
/// of service, round after round. An even division has no whole parts.
pub open spec fn allocated(plan: AllocationPlan, division: Division, i: int) -> int {
    if takes(plan, i) {
        let r = remainder(plan, division);
        let m = takers(plan, plan.given@.len() as int);
        handed_out(plan, division, i + 1) - handed_out(plan, division, i) + r / m + if place(
            plan,
            division,
            i,
        ) < r % m {
            1int
        } else {
            0
        }
    } else {
        plan.given@[i] as int
    }
}

/// The division speaks of `n` paths.
pub open spec fn divides(division: Division, n: int) -> bool {
    match division {
        Division::Even => true,
        Division::Parts(parts) => parts@.len() == n,
    }
}

proof fn earned_grows(plan: AllocationPlan, division: Division, i: int, n: int)
    requires
        0 <= i <= n,
    ensures
        0 <= earned_by(plan, division, i) <= earned_by(plan, division, n),
    decreases n,
{
    if n > 0 {
        if i < n {
            earned_grows(plan, division, i, n - 1);
        } else {
            earned_grows(plan, division, i - 1, n - 1);
        }
    }
}

proof fn takers_bound(plan: AllocationPlan, i: int, n: int)
    requires
        0 <= n,
    ensures
        0 <= takers(plan, n) <= n,
        0 <= i < n && takes(plan, i) ==> takers(plan, n) > 0,
    decreases n,
{
    if n > 0 {
        takers_bound(plan, i, n - 1);
    }
}

proof fn divided(r: int, m: int)
    requires
        0 <= r,
        0 < m,
    ensures
        r == m * (r / m) + r % m,
        0 <= r % m < m,
        0 <= r / m,
        r / m + (if r % m > 0 {
            1int
        } else {
            0int
        }) <= r,
{
    assert(r == m * (r / m) + r % m && 0 <= r % m < m) by (nonlinear_arith)
        requires
            m > 0,
    ;
    assert(r / m + (if r % m > 0 { 1int } else { 0int }) <= r && 0 <= r / m) by (nonlinear_arith)
        requires
            m > 0,
            r >= 0,
            r == m * (r / m) + r % m,
            0 <= r % m < m,
    ;
}

proof fn share_fits(plan: AllocationPlan, division: Division, i: int)
    requires
        0 <= i < plan.given@.len(),
        takes(plan, i),
    ensures
        0 <= allocated(plan, division, i) <= plan.shared,
        takers(plan, plan.given@.len() as int) > 0,
        0 <= remainder(plan, division) <= plan.shared,
{
    let n = plan.given@.len() as int;
    earned_grows(plan, division, i, n);
    earned_grows(plan, division, i + 1, n);
    earned_grows(plan, division, i, i + 1);
    takers_bound(plan, i, n);
    divided(remainder(plan, division), takers(plan, n));
    ahead_bound(plan, division, i, n);
}

fn is_served_before(division: &Division, i: usize, j: usize, n: usize) -> (r: bool)
    requires
        divides(*division, n as int),
        i < n,
        j < n,
    ensures
        r == served_before(*division, i as int, j as int),
{
    match division {
        Division::Even => i < j,
        Division::Parts(parts) => {
            let a: i64 = parts[i].fraction.order();
            let b: i64 = parts[j].fraction.order();
            a > b || (a == b && i < j)
        },
    }
}

/// How many bars each path gets, by `plan` and the division of its weights.
pub fn allocate(plan: &AllocationPlan, division: &Division) -> (out: Vec<u32>)
    requires
        divides(*division, plan.given@.len() as int),
        plan.given@.len() <= u32::MAX,
    ensures
        out@.len() == plan.given@.len(),
        forall|i: int|
            0 <= i < out@.len() ==> (#[trigger] out@[i]) == allocated(*plan, *division, i),
{
    let n: usize = plan.given.len();
    let mut base: Vec<u32> = Vec::new();
    let mut handed: u32 = 0;
    let mut m: u32 = 0;
    for i in 0..n
        invariant
            n == plan.given@.len() <= u32::MAX,
            divides(*division, n as int),
            handed == handed_out(*plan, *division, i as int),
            m == takers(*plan, i as int),
            m <= i,
            base@.len() == i,
            forall|j: int|
                0 <= j < i ==> (#[trigger] base@[j]) == handed_out(*plan, *division, j + 1)
                    - handed_out(*plan, *division, j),
    {
        proof {
            earned_grows(*plan, *division, i as int, i as int);
        }
        let mut whole: u32 = 0;
        if plan.given[i] == 0 {
            m = m + 1;
            if let Division::Parts(parts) = division {
                whole = parts[i].whole;
            }
        }
        assert(whole == earned(*plan, *division, i as int));
        let left: u32 = plan.shared - handed;
        if whole > left {
            whole = left;
        }
        handed = handed + whole;
        base.push(whole);
    }
    let left: u32 = plan.shared - handed;
    let mut out: Vec<u32> = Vec::new();
    for i in 0..n
        invariant
            n == plan.given@.len() <= u32::MAX,
            divides(*division, n as int),
            left == remainder(*plan, *division),
            m == takers(*plan, n as int),
            base@.len() == n,
            forall|j: int|
                0 <= j < n ==> (#[trigger] base@[j]) == handed_out(*plan, *division, j + 1)
                    - handed_out(*plan, *division, j),
            out@.len() == i,
            forall|j: int|
                0 <= j < i ==> (#[trigger] out@[j]) == allocated(*plan, *division, j),
    {
        if plan.given[i] == 0 {
            let mut before: u32 = 0;
            for k in 0..n
                invariant
                    i < n == plan.given@.len() <= u32::MAX,
                    divides(*division, n as int),
                    before == ahead(*plan, *division, i as int, k as int),
                    before <= k,
            {
                if plan.given[k] == 0 && is_served_before(division, k, i, n) {
                    before = before + 1;
                }
            }
            proof {
                share_fits(*plan, *division, i as int);
                divided(left as int, m as int);
            }
            let each: u32 = left / m;
            let odd: u32 = left % m;
            assert(base@[i as int] == handed_out(*plan, *division, i + 1) - handed_out(
                *plan,
                *division,
                i as int,
            ));
            if before < odd {
                out.push(base[i] + each + 1);
            } else {
                out.push(base[i] + each);
            }
        } else {
            out.push(plan.given[i]);
        }
    }
    out
}

proof fn ahead_grows(plan: AllocationPlan, division: Division, i: int, j: int, n: int)
    requires
        0 <= n,
        0 <= i,
        takes(plan, i),
        served_before(division, i, j),
    ensures
        ahead(plan, division, i, n) + (if i < n {
            1int
        } else {
            0int
        }) <= ahead(plan, division, j, n),
    decreases n,
{
    if n > 0 {
        ahead_grows(plan, division, i, j, n - 1);
    }
}

proof fn ahead_bound(plan: AllocationPlan, division: Division, j: int, n: int)
    requires
        0 <= n,
        0 <= j,
        takes(plan, j),
    ensures
        0 <= ahead(plan, division, j, n),
        ahead(plan, division, j, n) + (if j < n {
            1int
        } else {
            0int
        }) <= takers(plan, n),
    decreases n,
{
    if n > 0 {
        ahead_bound(plan, division, j, n - 1);
    }
}

/// How many of the first `m` paths take a share and are among the first `k`
/// to be served.
spec fn among_first(plan: AllocationPlan, division: Division, k: int, m: int) -> int
    decreases m,
{
    if m <= 0 {
        0
    } else {
        among_first(plan, division, k, m - 1) + if takes(plan, m - 1) && place(
            plan,
            division,
            m - 1,
        ) < k {
            1int
        } else {
            0
        }
    }
}

spec fn first_set(plan: AllocationPlan, division: Division, k: int, m: int) -> Set<int> {
    set_int_range(0, m).filter(|i: int| takes(plan, i) && place(plan, division, i) < k)
}

proof fn among_first_counts(plan: AllocationPlan, division: Division, k: int, m: int)
    requires
        0 <= m,
    ensures
        first_set(plan, division, k, m).finite(),
        first_set(plan, division, k, m).len() == among_first(plan, division, k, m),
    decreases m,
{
    lemma_int_range(0, m);
    if m == 0 {
        assert(first_set(plan, division, k, m) =~= Set::<int>::empty());
    } else {
        among_first_counts(plan, division, k, m - 1);
        let prev = first_set(plan, division, k, m - 1);
        if takes(plan, m - 1) && place(plan, division, m - 1) < k {
            assert(first_set(plan, division, k, m) =~= prev.insert(m - 1));
        } else {
            assert(first_set(plan, division, k, m) =~= prev);
        }
    }
}

proof fn all_takers_are_placed(plan: AllocationPlan, division: Division, m: int)
    requires
        0 <= m <= plan.given@.len(),
    ensures
        among_first(plan, division, takers(plan, plan.given@.len() as int), m) == takers(plan, m),
    decreases m,
{
    if m > 0 {
        all_takers_are_placed(plan, division, m - 1);
        if takes(plan, m - 1) {
            ahead_bound(plan, division, m - 1, plan.given@.len() as int);
        }
    }
}

/// Places are all taken: exactly `k` paths are among the first `k`.
proof fn places_are_taken(plan: AllocationPlan, division: Division, k: int)
    requires
        0 <= k <= takers(plan, plan.given@.len() as int),
    ensures
        among_first(plan, division, k, plan.given@.len() as int) == k,
{
    let n = plan.given@.len() as int;
    let m = takers(plan, n);
    let x = first_set(plan, division, m, n);
    let f = |i: int| place(plan, division, i);
    lemma_int_range(0, m);
    lemma_int_range(0, k);
    among_first_counts(plan, division, m, n);
    all_takers_are_placed(plan, division, n);
    assert(injective_on(f, x)) by {
        assert forall|i: int, j: int|
            x.contains(i) && x.contains(j) && #[trigger] f(i) == #[trigger] f(j) implies i == j by {
            if i != j {
                if served_before(division, i, j) {
                    ahead_grows(plan, division, i, j, n);
                } else {
                    assert(served_before(division, j, i));
                    ahead_grows(plan, division, j, i, n);
                }
            }
        }
    }
    let y = x.map(f);
    lemma_map_size(x, y, f);
    assert(y.subset_of(set_int_range(0, m))) by {
        assert forall|b: int| y.contains(b) implies set_int_range(0, m).contains(b) by {
            let i = choose|i: int| x.contains(i) && f(i) == b;
            ahead_bound(plan, division, i, n);
        }
    }
    lemma_subset_equality(y, set_int_range(0, m));
    let xk = first_set(plan, division, k, n);
    among_first_counts(plan, division, k, n);
    let yk = xk.map(f);
    assert(xk.subset_of(x));
    assert(injective_on(f, xk));
    lemma_map_size(xk, yk, f);
    assert(yk =~= set_int_range(0, k)) by {
        assert forall|b: int| set_int_range(0, k).contains(b) implies yk.contains(b) by {
            assert(y.contains(b));
            let i = choose|i: int| x.contains(i) && f(i) == b;
            assert(xk.contains(i));
        }
        assert forall|b: int| yk.contains(b) implies set_int_range(0, k).contains(b) by {
            let i = choose|i: int| xk.contains(i) && f(i) == b;
            ahead_bound(plan, division, i, n);
        }
    }
}

proof fn total_up_to(plan: AllocationPlan, division: Division, m: int, out: Seq<u32>)
    requires
        0 <= m <= plan.given@.len(),
        out.len() == m,
        forall|i: int| 0 <= i < m ==> (#[trigger] out[i]) == allocated(plan, division, i),
    ensures
        ({
            let r = remainder(plan, division);
            let t = takers(plan, plan.given@.len() as int);
            total(out) == total(plan.given@.take(m)) + handed_out(plan, division, m) + takers(
                plan,
                m,
            ) * (r / t) + among_first(plan, division, r % t, m)
        }),
    decreases m,
{
    let r = remainder(plan, division);
    let t = takers(plan, plan.given@.len() as int);
    let q = r / t;
    if m > 0 {
        total_up_to(plan, division, m - 1, out.drop_last());
        assert(plan.given@.take(m).drop_last() == plan.given@.take(m - 1));
        assert(out[m - 1] == allocated(plan, division, m - 1));
        let before = takers(plan, m - 1);
        if takes(plan, m - 1) {
            assert((before + 1) * q == before * q + q) by (nonlinear_arith);
        } else {
            assert(earned(plan, division, m - 1) == 0);
        }
    } else {
        assert(0 * q == 0) by (nonlinear_arith);
        assert(plan.given@.take(0).len() == 0);
    }
}

/// Whatever the division, what was given and what was shared all comes out, as
/// long as some path takes a share.
pub proof fn nothing_is_left_over(
    plan: AllocationPlan,
    division: Division,
    out: Seq<u32>,
    taker: int,
)
    requires
        0 <= taker < plan.given@.len(),
        takes(plan, taker),
        out.len() == plan.given@.len(),
        forall|i: int| 0 <= i < out.len() ==> (#[trigger] out[i]) == allocated(plan, division, i),
    ensures
        total(out) == total(plan.given@) + plan.shared,
{
    let n = out.len() as int;
    let r = remainder(plan, division);
    let t = takers(plan, n);
    share_fits(plan, division, taker);
    divided(r, t);
    total_up_to(plan, division, n, out);
    places_are_taken(plan, division, r % t);
    assert(plan.given@.take(n) == plan.given@);
}

/// The total is exact: the paths get `count` bars between them, whatever their
/// lengths, whatever counts they name, and whatever the division says.
pub proof fn allocation_is_exact(
    lengths: Seq<Single>,
    fixed: Seq<Option<u32>>,
    count: u32,
    plan: AllocationPlan,
    division: Division,
    out: Seq<u32>,
)
    requires
        0 < lengths.len() == fixed.len(),
        planned(lengths, fixed, count, plan),
        out.len() == lengths.len(),
        forall|i: int| 0 <= i < out.len() ==> (#[trigger] out[i]) == allocated(plan, division, i),
    ensures
        total(out) == count,
{
    let g = plan.given@;
    if any_named(fixed) && total(all_asked(fixed)) < count && any_rest(lengths, fixed) {
        let i = choose|i: int|
            0 <= i < lengths.len() && fixed[i] is None && #[trigger] less(zero(), lengths[i]);
        assert(g[i] == asked(fixed[i]));
        nothing_is_left_over(plan, division, out, i);
    } else {
        assert(g[0] == 0);
        nothing_is_left_over(plan, division, out, 0);
        zeros_total(g);
    }
}

proof fn zeros_total(s: Seq<u32>)
    requires
        forall|i: int| 0 <= i < s.len() ==> s[i] == 0,
    ensures
        total(s) == 0,
    decreases s.len(),
{
    if s.len() > 0 {
        zeros_total(s.drop_last());
    }
}

/// A path that names a count gets it, as long as the counts named together
/// stay below what there is and another path can take the rest.
pub proof fn a_named_count_is_kept(
    lengths: Seq<Single>,
    fixed: Seq<Option<u32>>,
    count: u32,
    plan: AllocationPlan,
    division: Division,
    i: int,
)
    requires
        lengths.len() == fixed.len(),
        planned(lengths, fixed, count, plan),
        total(all_asked(fixed)) < count,
        any_rest(lengths, fixed),
        0 <= i < fixed.len(),
        fixed[i] matches Some(k) && k > 0,
    ensures
        allocated(plan, division, i) == fixed[i]->0,
{
    assert(fixed[i] is Some);
    assert(plan.given@[i] == asked(fixed[i]));
}

/// Every path gets what it has earned in full, and at most one bar more: as
/// long as there are bars for all that was earned, and no more left over than
/// there are paths to take them.
pub proof fn no_path_is_a_bar_off(plan: AllocationPlan, parts: Vec<Ideal>, i: int)
    requires
        0 <= i < plan.given@.len() == parts@.len(),
        plan.given@[i] == 0,
        earned_by(plan, Division::Parts(parts), plan.given@.len() as int) <= plan.shared,
        plan.shared <= earned_by(plan, Division::Parts(parts), plan.given@.len() as int) + takers(
            plan,
            plan.given@.len() as int,
        ),
    ensures
        ({
            let got = allocated(plan, Division::Parts(parts), i);
            parts@[i].whole <= got <= parts@[i].whole + 1
        }),
{
    let d = Division::Parts(parts);
    let n = plan.given@.len() as int;
    earned_grows(plan, d, i, n);
    earned_grows(plan, d, i + 1, n);
    share_fits(plan, d, i);
    ahead_bound(plan, d, i, n);
    let (r, m) = (remainder(plan, d), takers(plan, n));
    divided(r, m);
    assert(r / m <= 1 && (r / m == 1 ==> r % m == 0)) by (nonlinear_arith)
        requires
            0 <= r <= m,
            0 < m,
            r == m * (r / m) + r % m,
            0 <= r % m < m,
    ;
}

/// The bars left over go to the largest fractions first, and among equals to
/// the paths listed first.
pub proof fn larger_fractions_are_served_first(
    plan: AllocationPlan,
    parts: Vec<Ideal>,
    i: int,
    j: int,
)
    requires
        0 <= i < plan.given@.len() == parts@.len(),
        0 <= j < plan.given@.len(),
        plan.given@[i] == 0,
        plan.given@[j] == 0,
        less(parts@[j].fraction, parts@[i].fraction) || (parts@[j].fraction == parts@[i].fraction
            && i < j),
        earned_by(plan, Division::Parts(parts), plan.given@.len() as int) <= plan.shared,
    ensures
        allocated(plan, Division::Parts(parts), j) - parts@[j].whole <= allocated(
            plan,
            Division::Parts(parts),
            i,
        ) - parts@[i].whole,
{
    let d = Division::Parts(parts);
    let n = plan.given@.len() as int;
    earned_grows(plan, d, i, n);
    earned_grows(plan, d, i + 1, n);
    earned_grows(plan, d, j, n);
    earned_grows(plan, d, j + 1, n);
    assert(served_before(d, i, j));
    ahead_grows(plan, d, i, j, n);
}

/// An even division gives no path more than one bar more than another, and
/// the odd ones to the front.
pub proof fn an_even_division_is_even(plan: AllocationPlan, i: int, j: int)
    requires
        0 <= i < j < plan.given@.len(),
        plan.given@[i] == 0,
        plan.given@[j] == 0,
    ensures
        allocated(plan, Division::Even, j) <= allocated(plan, Division::Even, i) <= allocated(
            plan,
            Division::Even,
            j,
        ) + 1,
{
    let d = Division::Even;
    let n = plan.given@.len() as int;
    nothing_is_earned_evenly(plan, i + 1);
    nothing_is_earned_evenly(plan, j + 1);
    nothing_is_earned_evenly(plan, i);
    nothing_is_earned_evenly(plan, j);
    ahead_grows(plan, d, i, j, n);
}

proof fn nothing_is_earned_evenly(plan: AllocationPlan, n: int)
    ensures
        earned_by(plan, Division::Even, n) == 0,
    decreases n,
{
    if n > 0 {
        nothing_is_earned_evenly(plan, n - 1);
    }
}

/// A path that names no count is weighed by its own length, unless the counts
/// that are named share everything; in that case every path is weighed by the
/// count it named, and nothing is given beforehand.
pub proof fn paths_are_weighed_by_length_or_by_count(
    lengths: Seq<Single>,
    fixed: Seq<Option<u32>>,
    count: u32,
    plan: AllocationPlan,
    i: int,
)
    requires
        lengths.len() == fixed.len(),
        planned(lengths, fixed, count, plan),
        0 <= i < lengths.len(),
    ensures
        ({
            let named = exists|k: int| 0 <= k < fixed.len() && (#[trigger] fixed[k]) is Some;
            let rest = exists|k: int|
                0 <= k < fixed.len() && fixed[k] is None && 1 <= (#[trigger] lengths[k]).bits
                    <= 0x7f80_0000;
            let enough = total(all_asked(fixed)) >= count;
            &&& !named ==> plan.weights@[i] == Weight::Length(lengths[i]) && plan.given@[i] == 0
            &&& named && (enough || !rest) ==> plan.given@[i] == 0 && plan.weights@[i]
                == Weight::Asked(
                match fixed[i] {
                    Some(k) => k,
                    None => 0,
                },
            )
            &&& named && !enough && rest && fixed[i] is None ==> plan.given@[i] == 0
                && plan.weights@[i] == Weight::Length(lengths[i])
            &&& named && !enough && rest && fixed[i] is Some ==> plan.given@[i] == fixed[i]->0
                && plan.weights@[i] == Weight::Length(Single { bits: 0 })
        }),
{
    let rest = exists|k: int|
        0 <= k < fixed.len() && fixed[k] is None && 1 <= (#[trigger] lengths[k]).bits
            <= 0x7f80_0000;
    if rest {
        let k = choose|k: int|
            0 <= k < fixed.len() && fixed[k] is None && 1 <= (#[trigger] lengths[k]).bits
                <= 0x7f80_0000;
        assert(less(zero(), lengths[k]));
    }
    if any_rest(lengths, fixed) {
        let k = choose|k: int|
            0 <= k < lengths.len() && fixed[k] is None && #[trigger] less(zero(), lengths[k]);
        assert(1 <= lengths[k].bits <= 0x7f80_0000);
    }
    assert(plan.weights@.len() == lengths.len());
}

} // verus!
