//! Samples ordered by their distance to a frequency.
//!
//! The crate does not compute distances. A caller hands over, for each sample of a curve, a
//! rank: a whole number that is smaller for one sample than for another exactly when the first
//! lies nearer. Samples are named by their index in the curve. Where two samples are equally
//! far, the one that stands earlier in the curve goes first.
//!
//! The same order serves wherever items are put in ascending order by a rank, such as the
//! filters of a bank by their centre.
use vstd::prelude::*;

verus! {

/// Sample `i` goes before sample `j`: it has the smaller rank, or the same rank and the
/// smaller index.
pub open spec fn precedes(ranks: Seq<i64>, i: int, j: int) -> bool {
    ranks[i] < ranks[j] || (ranks[i] == ranks[j] && i < j)
}

/// Sample `i` stands somewhere in `order`.
pub open spec fn listed(order: Seq<usize>, i: int) -> bool {
    exists|k: int| 0 <= k < order.len() && #[trigger] order[k] == i
}

/// `order` names every sample of a curve of `n` samples, and nothing else.
pub open spec fn covers(order: Seq<usize>, n: nat) -> bool {
    &&& order.len() == n
    &&& forall|k: int| 0 <= k < order.len() ==> (#[trigger] order[k]) < n
    &&& forall|i: int| 0 <= i < n ==> #[trigger] listed(order, i)
}

/// `order` lists the samples so that each goes before all that follow it.
pub open spec fn ascending(ranks: Seq<i64>, order: Seq<usize>) -> bool {
    forall|a: int, b: int|
        0 <= a < b < order.len() ==> precedes(
            ranks,
            #[trigger] order[a] as int,
            #[trigger] order[b] as int,
        )
}

/// `order` is the stable order of the samples by rank.
pub open spec fn stable_order(ranks: Seq<i64>, order: Seq<usize>) -> bool {
    covers(order, ranks.len()) && ascending(ranks, order)
}

/// The stable order of a curve. There is one for every curve that a vector can hold, and one
/// only.
pub open spec fn sorted(ranks: Seq<i64>) -> Seq<usize> {
    choose|order: Seq<usize>| stable_order(ranks, order)
}

/// The samples of a curve, nearest first; equally distant ones stay in the order of the curve.
pub fn closest(ranks: &Vec<i64>) -> (order: Vec<usize>)
    ensures
        stable_order(ranks@, order@),
        order@ == sorted(ranks@),
{
    let n: usize = ranks.len();
    let mut order: Vec<usize> = Vec::new();
    let mut i: usize = 0;
    while i < n
        invariant
            n == ranks.len(),
            i <= n,
            stable_order(ranks@.take(i as int), order@),
        decreases n - i,
    {
        let mut p: usize = order.len();
        while p > 0 && ranks[order[p - 1]] > ranks[i]
            invariant
                n == ranks.len(),
                i < n,
                p <= order.len(),
                stable_order(ranks@.take(i as int), order@),
                forall|k: int|
                    p <= k < order.len() ==> ranks@[i as int] < ranks@[(#[trigger] order@[k])
                        as int],
            decreases p,
        {
            p = p - 1;
        }
        let ghost before = order@;
        order.insert(p, i);
        proof {
            let short = ranks@.take(i as int);
            let long = ranks@.take(i + 1);
            let after = order@;
            assert(after == before.insert(p as int, i));
            assert forall|k: int| 0 <= k < after.len() implies (#[trigger] after[k]) < i + 1 by {
                if k < p {
                    assert(after[k] == before[k]);
                } else if k > p {
                    assert(after[k] == before[k - 1]);
                }
            }
            assert forall|j: int| 0 <= j < i + 1 implies #[trigger] listed(after, j) by {
                if j < i {
                    assert(listed(before, j));
                    let k0 = choose|k: int| 0 <= k < before.len() && #[trigger] before[k] == j;
                    if k0 < p {
                        assert(after[k0] == j);
                    } else {
                        assert(after[k0 + 1] == j);
                    }
                } else {
                    assert(after[p as int] == j);
                }
            }
            assert forall|a: int, b: int| 0 <= a < b < after.len() implies precedes(
                long,
                #[trigger] after[a] as int,
                #[trigger] after[b] as int,
            ) by {
                let x = if a < p { before[a] } else if a == p { i } else { before[a - 1] };
                let y = if b < p { before[b] } else if b == p { i } else { before[b - 1] };
                assert(after[a] == x && after[b] == y);
                if a != p && b != p {
                    let a0 = if a < p { a } else { a - 1 };
                    let b0 = if b < p { b } else { b - 1 };
                    assert(precedes(short, before[a0] as int, before[b0] as int));
                } else if a == p {
                    assert(ranks@[i as int] < ranks@[before[b - 1] as int]);
                } else {
                    assert(before[a] < i);
                    if p > 0 {
                        assert(a == p - 1 || precedes(
                            short,
                            before[a] as int,
                            before[p - 1] as int,
                        ));
                    }
                }
            }
        }
        i = i + 1;
    }
    proof {
        assert(ranks@.take(n as int) == ranks@);
        lemma_stable_order_unique(ranks@, order@, sorted(ranks@));
    }
    order
}

/// A curve has one stable order only.
pub proof fn lemma_stable_order_unique(ranks: Seq<i64>, one: Seq<usize>, other: Seq<usize>)
    requires
        stable_order(ranks, one),
        stable_order(ranks, other),
    ensures
        one == other,
{
    lemma_orders_agree(ranks, one, other, ranks.len());
    assert(one =~= other);
}

proof fn lemma_orders_agree(ranks: Seq<i64>, one: Seq<usize>, other: Seq<usize>, upto: nat)
    requires
        stable_order(ranks, one),
        stable_order(ranks, other),
        upto <= ranks.len(),
    ensures
        forall|k: int| 0 <= k < upto ==> one[k] == other[k],
    decreases upto,
{
    if upto > 0 {
        lemma_orders_agree(ranks, one, other, (upto - 1) as nat);
        let k = upto - 1;
        let x = one[k];
        let y = other[k];
        assert(listed(other, x as int));
        assert(listed(one, y as int));
        let m = choose|m: int| 0 <= m < other.len() && #[trigger] other[m] == x as int;
        let w = choose|w: int| 0 <= w < one.len() && #[trigger] one[w] == y as int;
        if m < k {
            assert(precedes(ranks, one[m] as int, one[k] as int));
        }
        if w < k {
            assert(precedes(ranks, other[w] as int, other[k] as int));
        }
        if m > k && w > k {
            assert(precedes(ranks, other[k] as int, other[m] as int));
            assert(precedes(ranks, one[k] as int, one[w] as int));
        }
    }
}

/// No two samples of the curve have the same rank.
pub open spec fn distinct(ranks: Seq<i64>) -> bool {
    forall|i: int, j: int| 0 <= i < j < ranks.len() ==> ranks[i] != ranks[j]
}

/// Where no two samples are equally far, the order by distance does not depend on the order
/// in which the curve lists them: a curve and the same curve written backwards give the same
/// samples in the same order.
pub proof fn lemma_closest_of_reversed(ranks: Seq<i64>, order: Seq<usize>, mirrored: Seq<usize>)
    requires
        distinct(ranks),
        stable_order(ranks, order),
        stable_order(ranks.reverse(), mirrored),
    ensures
        forall|k: int|
            0 <= k < ranks.len() ==> #[trigger] mirrored[k] == ranks.len() - 1 - order[k],
        forall|k: int|
            0 <= k < ranks.len() ==> ranks.reverse()[#[trigger] mirrored[k] as int]
                == ranks[order[k] as int],
{
    let n = ranks.len();
    let back = ranks.reverse();
    let turned = Seq::new(n, |k: int| (n - 1 - mirrored[k]) as usize);
    if n > 0 {
        assert(listed(mirrored, n - 1));
        assert(n - 1 <= usize::MAX);
    }
    assert forall|i: int| 0 <= i < n implies #[trigger] listed(turned, i) by {
        assert(listed(mirrored, n - 1 - i));
        let k = choose|k: int| 0 <= k < mirrored.len() && #[trigger] mirrored[k] == n - 1 - i;
        assert(turned[k] == (n - 1 - mirrored[k]) as usize);
    }
    assert forall|a: int, b: int| 0 <= a < b < turned.len() implies precedes(
        ranks,
        #[trigger] turned[a] as int,
        #[trigger] turned[b] as int,
    ) by {
        assert(precedes(back, mirrored[a] as int, mirrored[b] as int));
        assert(mirrored[a] < n && mirrored[b] < n);
        assert(turned[a] == n - 1 - mirrored[a] && turned[b] == n - 1 - mirrored[b]);
        assert(back[mirrored[a] as int] == ranks[n - 1 - mirrored[a]]);
        assert(back[mirrored[b] as int] == ranks[n - 1 - mirrored[b]]);
    }
    assert forall|k: int| 0 <= k < turned.len() implies (#[trigger] turned[k]) < n by {
        assert(mirrored[k] < n);
    }
    lemma_stable_order_unique(ranks, order, turned);
    assert forall|k: int| 0 <= k < n implies #[trigger] mirrored[k] == n - 1 - order[k] by {
        assert(mirrored[k] < n);
        assert(turned[k] == order[k]);
    }
    assert forall|k: int| 0 <= k < n implies back[#[trigger] mirrored[k] as int]
        == ranks[order[k] as int] by {
        assert(mirrored[k] < n);
        assert(back[mirrored[k] as int] == ranks[n - 1 - mirrored[k]]);
    }
}

/// Sample `a` goes before every other sample of the curve.
pub open spec fn leads(ranks: Seq<i64>, a: int) -> bool {
    &&& 0 <= a < ranks.len()
    &&& forall|j: int| 0 <= j < ranks.len() && j != a ==> precedes(ranks, a, j)
}

/// Sample `b` is not `a`, and goes before every sample but `a`.
pub open spec fn follows(ranks: Seq<i64>, a: int, b: int) -> bool {
    &&& 0 <= b < ranks.len()
    &&& b != a
    &&& forall|j: int| 0 <= j < ranks.len() && j != a && j != b ==> precedes(ranks, b, j)
}

/// Every other sample of the curve goes before sample `m`.
pub open spec fn trails(ranks: Seq<i64>, m: int) -> bool {
    &&& 0 <= m < ranks.len()
    &&& forall|j: int| 0 <= j < ranks.len() && j != m ==> precedes(ranks, j, m)
}

/// The first two samples of the stable order are the one that leads and the one that follows
/// it, and its last sample is the one that trails.
pub proof fn lemma_ends_of_stable_order(ranks: Seq<i64>, order: Seq<usize>)
    requires
        stable_order(ranks, order),
    ensures
        ranks.len() >= 1 ==> leads(ranks, order[0] as int),
        ranks.len() >= 2 ==> follows(ranks, order[0] as int, order[1] as int),
        ranks.len() >= 1 ==> trails(ranks, order[ranks.len() - 1] as int),
{
    let n = ranks.len();
    if n >= 1 {
        assert forall|j: int| 0 <= j < n && j != order[0] implies precedes(
            ranks,
            order[0] as int,
            j,
        ) by {
            assert(listed(order, j));
            let k = choose|k: int| 0 <= k < order.len() && #[trigger] order[k] == j;
            assert(precedes(ranks, order[0] as int, order[k] as int));
        }
        let last = order[n - 1] as int;
        assert forall|j: int| 0 <= j < n && j != last implies precedes(ranks, j, last) by {
            assert(listed(order, j));
            let k = choose|k: int| 0 <= k < order.len() && #[trigger] order[k] == j;
            assert(precedes(ranks, order[k] as int, order[n - 1] as int));
        }
    }
    if n >= 2 {
        assert(precedes(ranks, order[0] as int, order[1] as int));
        assert forall|j: int|
            0 <= j < n && j != order[0] && j != order[1] implies precedes(
            ranks,
            order[1] as int,
            j,
        ) by {
            assert(listed(order, j));
            let k = choose|k: int| 0 <= k < order.len() && #[trigger] order[k] == j;
            assert(precedes(ranks, order[1] as int, order[k] as int));
        }
    }
}

/// The sample that goes before all others but `skip`. With `skip` past the end of the curve
/// no sample is left out.
fn leader(ranks: &Vec<i64>, skip: usize) -> (b: usize)
    requires
        ranks.len() >= 1,
        skip < ranks.len() ==> ranks.len() >= 2,
    ensures
        b < ranks.len(),
        b != skip,
        forall|j: int|
            0 <= j < ranks.len() && j != skip && j != b ==> precedes(ranks@, b as int, j),
{
    let n: usize = ranks.len();
    let mut b: usize = if skip == 0 {
        1
    } else {
        0
    };
    let mut i: usize = b + 1;
    while i < n
        invariant
            n == ranks.len(),
            b < i <= n,
            b != skip,
            forall|j: int| 0 <= j < i && j != skip && j != b ==> precedes(ranks@, b as int, j),
        decreases n - i,
    {
        if i != skip && ranks[i] < ranks[b] {
            proof {
                assert forall|j: int| 0 <= j < i + 1 && j != skip && j != i implies precedes(
                    ranks@,
                    i as int,
                    j,
                ) by {
                    assert(j == b || precedes(ranks@, b as int, j));
                }
            }
            b = i;
        }
        i = i + 1;
    }
    b
}

/// The sample nearest to the frequency, the earliest of them where several are equally near;
/// `None` for a curve without samples.
pub fn anchor(ranks: &Vec<i64>) -> (r: Option<usize>)
    ensures
        match r {
            Some(a) => leads(ranks@, a as int),
            None => ranks.len() == 0,
        },
{
    if ranks.len() == 0 {
        None
    } else {
        Some(leader(ranks, ranks.len()))
    }
}

/// The sample with the greatest rank, the latest of them where several have it; `None` for a
/// curve without samples.
pub fn loudest(ranks: &Vec<i64>) -> (r: Option<usize>)
    ensures
        match r {
            Some(m) => trails(ranks@, m as int),
            None => ranks.len() == 0,
        },
{
    let n: usize = ranks.len();
    if n == 0 {
        return None;
    }
    let mut m: usize = 0;
    let mut i: usize = 1;
    while i < n
        invariant
            n == ranks.len(),
            m < i <= n,
            forall|j: int| 0 <= j < i && j != m ==> precedes(ranks@, j, m as int),
        decreases n - i,
    {
        if ranks[i] >= ranks[m] {
            proof {
                assert forall|j: int| 0 <= j < i + 1 && j != i implies precedes(
                    ranks@,
                    j,
                    i as int,
                ) by {
                    assert(j == m || precedes(ranks@, j, m as int));
                }
            }
            m = i;
        }
        i = i + 1;
    }
    Some(m)
}

/// One sample of a curve as the search for neighbours sees it.
#[derive(Clone, Copy, Debug, PartialEq, Eq, Structural)]
pub struct Sample {
    /// A number that two samples share exactly when they lie at the same frequency.
    pub place: i64,
    /// The rank of the sample's distance to the frequency asked for.
    pub distance: i64,
}

/// Why a curve gives no line to interpolate on.
#[derive(Clone, Copy, Debug, PartialEq, Eq, Structural)]
pub enum SampleError {
    /// The curve has fewer than two samples.
    Insufficient,
    /// The two nearest samples lie at the same frequency, so the line through them has no
    /// slope.
    Degenerate,
}

/// The ranks of the samples, in the order of the curve.
pub open spec fn distances(samples: Seq<Sample>) -> Seq<i64> {
    samples.map_values(|s: Sample| s.distance)
}

/// Samples `a` and `b` are the nearest and the next nearest of the curve.
pub open spec fn nearest_two(samples: Seq<Sample>, a: int, b: int) -> bool {
    leads(distances(samples), a) && follows(distances(samples), a, b)
}

/// A curve has one nearest and one next nearest sample only.
pub proof fn lemma_nearest_two_unique(samples: Seq<Sample>, a: int, b: int, c: int, d: int)
    requires
        nearest_two(samples, a, b),
        nearest_two(samples, c, d),
    ensures
        a == c,
        b == d,
{
    let ranks = distances(samples);
    if a != c {
        assert(precedes(ranks, a, c) && precedes(ranks, c, a));
    }
    if b != d {
        assert(precedes(ranks, b, d) && precedes(ranks, d, b));
    }
}

/// A sample that lies at the frequency asked for is the first of the two through which the
/// value there is interpolated. It needs no more than this: no sample is nearer than `at`, and
/// those that are as near lie at the same frequency.
pub proof fn lemma_nearest_pair_starts_at_exact_sample(
    samples: Seq<Sample>,
    at: int,
    a: int,
    b: int,
)
    requires
        0 <= at < samples.len(),
        forall|k: int|
            0 <= k < samples.len() ==> (#[trigger] samples[k]).distance >= samples[at].distance,
        forall|k: int|
            0 <= k < samples.len() && (#[trigger] samples[k]).distance == samples[at].distance
                ==> samples[k].place == samples[at].place,
        nearest_two(samples, a, b),
        samples[a].place != samples[b].place,
    ensures
        a == at,
{
    let ranks = distances(samples);
    assert(ranks[at] == samples[at].distance);
    assert(ranks[a] == samples[a].distance);
    assert(ranks[b] == samples[b].distance);
    if a != at {
        assert(precedes(ranks, a, at));
        if b != at {
            assert(precedes(ranks, b, at));
        }
    }
}

/// The two samples through which a value at the frequency is interpolated: the nearest and
/// the next nearest, whichever side of the frequency they lie on. A curve of fewer than two
/// samples has none, and two samples at one frequency give no line.
pub fn nearest_pair(samples: &Vec<Sample>) -> (r: Result<(usize, usize), SampleError>)
    ensures
        match r {
            Ok((a, b)) => nearest_two(samples@, a as int, b as int) && samples[a as int].place
                != samples[b as int].place,
            Err(SampleError::Insufficient) => samples.len() < 2,
            Err(SampleError::Degenerate) => exists|a: int, b: int|
                nearest_two(samples@, a, b) && samples[a].place == samples[b].place,
        },
{
    let n: usize = samples.len();
    if n < 2 {
        return Err(SampleError::Insufficient);
    }
    let mut ranks: Vec<i64> = Vec::new();
    let mut i: usize = 0;
    while i < n
        invariant
            n == samples.len(),
            i <= n,
            ranks@ == distances(samples@.take(i as int)),
        decreases n - i,
    {
        ranks.push(samples[i].distance);
        proof {
            assert(samples@.take(i + 1) == samples@.take(i as int).push(samples@[i as int]));
            assert(ranks@ =~= distances(samples@.take(i + 1)));
        }
        i = i + 1;
    }
    proof {
        assert(samples@.take(n as int) == samples@);
    }
    let a: usize = leader(&ranks, n);
    let b: usize = leader(&ranks, a);
    if samples[a].place == samples[b].place {
        proof {
            assert(nearest_two(samples@, a as int, b as int));
        }
        Err(SampleError::Degenerate)
    } else {
        Ok((a, b))
    }
}

} // verus!
