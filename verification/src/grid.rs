//! The frequency grid on which the correction curve is sampled.
//!
//! The grid starts at a lower bound and grows geometrically: by a tenth per step below the
//! pivot frequency and by a twentieth from the pivot on, each step rounded up to a whole
//! number of hertz. It ends with the last frequency that does not exceed the upper bound.
use vstd::prelude::*;

verus! {

/// The frequency from which the grid grows by a twentieth instead of a tenth.
pub const PIVOT: u64 = 2000;

/// The grid frequency that follows `f`.
pub open spec fn next_frequency(f: nat) -> nat {
    if f < PIVOT {
        (11 * f + 9) / 10
    } else {
        (21 * f + 19) / 20
    }
}

/// How many whole frequencies lie from `lower` up to `upper`.
pub open spec fn gap(lower: nat, upper: nat) -> nat {
    if lower <= upper {
        (upper + 1 - lower) as nat
    } else {
        0
    }
}

/// The grid from `lower` up to `upper`, as a sequence of frequencies.
pub open spec fn grid(lower: nat, upper: nat) -> Seq<nat>
    decreases gap(lower, upper),
    when lower > 0
{
    if lower > upper {
        Seq::empty()
    } else {
        seq![lower] + grid(next_frequency(lower), upper)
    }
}

/// A sequence of frequencies rises strictly from each entry to the next.
pub open spec fn strictly_rising(s: Seq<nat>) -> bool {
    forall|i: int, j: int| 0 <= i < j < s.len() ==> s[i] < s[j]
}

/// Every entry of the sequence lies between the two bounds, both included.
pub open spec fn within(s: Seq<nat>, lower: nat, upper: nat) -> bool {
    forall|i: int| 0 <= i < s.len() ==> lower <= #[trigger] s[i] <= upper
}

/// The frequencies of a vector, as natural numbers.
pub open spec fn frequencies(v: Seq<u64>) -> Seq<nat> {
    v.map_values(|f: u64| f as nat)
}

/// Each step of the grid moves upwards.
pub proof fn lemma_next_frequency_rises(f: nat)
    requires
        f > 0,
    ensures
        next_frequency(f) > f,
{
}

/// A grid is strictly rising, and all of it lies between its bounds.
pub proof fn lemma_grid_rising_within(lower: nat, upper: nat)
    requires
        lower > 0,
    ensures
        strictly_rising(grid(lower, upper)),
        within(grid(lower, upper), lower, upper),
    decreases gap(lower, upper),
{
    if lower <= upper {
        let rest = grid(next_frequency(lower), upper);
        lemma_next_frequency_rises(lower);
        lemma_grid_rising_within(next_frequency(lower), upper);
        let g = grid(lower, upper);
        assert(g == seq![lower] + rest);
        assert forall|i: int| 0 <= i < g.len() implies lower <= #[trigger] g[i] <= upper by {
            if i > 0 {
                assert(g[i] == rest[i - 1]);
            }
        }
        assert forall|i: int, j: int| 0 <= i < j < g.len() implies g[i] < g[j] by {
            assert(g[j] == rest[j - 1]);
            if i > 0 {
                assert(g[i] == rest[i - 1]);
            }
        }
    }
}

/// The grid frequency that follows `f`, or `None` where it does not fit the machine word.
pub fn following(f: u64) -> (r: Option<u64>)
    ensures
        match r {
            Some(g) => g == next_frequency(f as nat),
            None => next_frequency(f as nat) > u64::MAX,
        },
{
    if f < PIVOT {
        Some((11 * f + 9) / 10)
    } else {
        let whole: u64 = f / 20;
        let grow: u64 = if f % 20 == 0 {
            whole
        } else {
            whole + 1
        };
        if grow > u64::MAX - f {
            None
        } else {
            Some(f + grow)
        }
    }
}

/// The grid from `lower` up to `upper`: it starts at `lower`, each further frequency follows
/// from the one before it, and it ends with the last one that does not exceed `upper`.
pub fn sweep(lower: u64, upper: u64) -> (out: Vec<u64>)
    requires
        lower > 0,
    ensures
        frequencies(out@) == grid(lower as nat, upper as nat),
        strictly_rising(frequencies(out@)),
        within(frequencies(out@), lower as nat, upper as nat),
{
    let mut out: Vec<u64> = Vec::new();
    let mut f: u64 = lower;
    let mut open: bool = true;
    while open && f <= upper
        invariant
            f > 0,
            open ==> grid(lower as nat, upper as nat) == frequencies(out@) + grid(
                f as nat,
                upper as nat,
            ),
            !open ==> grid(lower as nat, upper as nat) == frequencies(out@),
        decreases (if open { 1 + gap(f as nat, upper as nat) } else { 0 }),
    {
        let ghost before = frequencies(out@);
        out.push(f);
        proof {
            lemma_next_frequency_rises(f as nat);
            assert(frequencies(out@) == before + seq![f as nat]);
            assert(grid(f as nat, upper as nat) == seq![f as nat] + grid(
                next_frequency(f as nat),
                upper as nat,
            ));
            assert(before + (seq![f as nat] + grid(next_frequency(f as nat), upper as nat)) == (
            before + seq![f as nat]) + grid(next_frequency(f as nat), upper as nat));
        }
        match following(f) {
            Some(g) => {
                f = g;
            },
            None => {
                proof {
                    assert(grid(next_frequency(f as nat), upper as nat) == Seq::<nat>::empty());
                    assert(frequencies(out@) + Seq::<nat>::empty() == frequencies(out@));
                }
                open = false;
            },
        }
    }
    proof {
        if open {
            assert(grid(f as nat, upper as nat) == Seq::<nat>::empty());
            assert(frequencies(out@) + Seq::<nat>::empty() == frequencies(out@));
        }
        lemma_grid_rising_within(lower as nat, upper as nat);
    }
    out
}

} // verus!
