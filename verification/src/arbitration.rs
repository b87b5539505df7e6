//! Decode arbitration over candidate finder triplets: proximity dedup of
//! triplets that share finders, and the per-frame attempt loop's decisions
//! (attempt cap, consumed finders).
use vstd::prelude::*;

verus! {

/// Most decode attempts made per frame.
pub const MAX_DECODE_ATTEMPTS: usize = 24;

/// Whether `x` is one of the three indices `b`.
pub open spec fn holds(b: [usize; 3], x: usize) -> bool {
    b[0] == x || b[1] == x || b[2] == x
}

/// How many of `a`'s three indices occur in `b`.
pub open spec fn spec_shared(a: [usize; 3], b: [usize; 3]) -> nat {
    (if holds(b, a[0]) {
        1nat
    } else {
        0nat
    }) + (if holds(b, a[1]) {
        1nat
    } else {
        0nat
    }) + (if holds(b, a[2]) {
        1nat
    } else {
        0nat
    })
}

/// Count of finder indices `a` and `b` have in common (each triplet's three
/// indices are distinct, so this is the size of their intersection).
pub fn shared_finder_count(a: [usize; 3], b: [usize; 3]) -> (r: usize)
    ensures
        r == spec_shared(a, b),
{
    let mut count: usize = 0;
    let mut i: usize = 0;
    while i < 3
        invariant
            i <= 3,
            count == (if i > 0 && holds(b, a[0]) {
                1nat
            } else {
                0nat
            }) + (if i > 1 && holds(b, a[1]) {
                1nat
            } else {
                0nat
            }) + (if i > 2 && holds(b, a[2]) {
                1nat
            } else {
                0nat
            }),
        decreases 3 - i,
    {
        let x = a[i];
        if b[0] == x || b[1] == x || b[2] == x {
            count += 1;
        }
        i += 1;
    }
    count
}

/// Whether candidate `t` duplicates one already kept (shares at least two
/// finders with it).
pub open spec fn duplicates_kept(kept: Seq<usize>, finders: Seq<[usize; 3]>, t: usize) -> bool {
    exists|k: int| 0 <= k < kept.len() && #[trigger] spec_shared(finders[kept[k] as int], finders[t as int]) >= 2
}

/// Greedy dedup of the first `n` candidates of `order`: a candidate is kept
/// unless it shares at least two finders with an earlier kept one.
pub open spec fn greedy_kept(order: Seq<usize>, finders: Seq<[usize; 3]>, n: int) -> Seq<usize>
    decreases n,
{
    if n <= 0 {
        Seq::empty()
    } else {
        let prev = greedy_kept(order, finders, n - 1);
        if duplicates_kept(prev, finders, order[n - 1]) {
            prev
        } else {
            prev.push(order[n - 1])
        }
    }
}

/// Proximity-dedup candidates visited in `order` (best first): keep each
/// candidate that does not share at least two finder indices with an
/// already-kept one. `finders[t]` are candidate `t`'s three finder indices.
pub fn dedup_triplet_indices(order: &Vec<usize>, finders: &Vec<[usize; 3]>) -> (kept: Vec<usize>)
    requires
        forall|k: int| 0 <= k < order@.len() ==> #[trigger] order@[k] < finders@.len(),
    ensures
        kept@ == greedy_kept(order@, finders@, order@.len() as int),
{
    let mut kept: Vec<usize> = Vec::new();
    let mut i: usize = 0;
    while i < order.len()
        invariant
            i <= order@.len(),
            forall|k: int| 0 <= k < order@.len() ==> #[trigger] order@[k] < finders@.len(),
            kept@ == greedy_kept(order@, finders@, i as int),
            forall|k: int| 0 <= k < kept@.len() ==> #[trigger] kept@[k] < finders@.len(),
        decreases order@.len() - i,
    {
        let t = order[i];
        let mut duplicate = false;
        let mut k: usize = 0;
        while k < kept.len()
            invariant
                k <= kept@.len(),
                t < finders@.len(),
                forall|j: int| 0 <= j < kept@.len() ==> #[trigger] kept@[j] < finders@.len(),
                duplicate == exists|j: int|
                    0 <= j < k && #[trigger] spec_shared(finders@[kept@[j] as int], finders@[t as int])
                        >= 2,
            decreases kept@.len() - k,
        {
            if shared_finder_count(finders[kept[k]], finders[t]) >= 2 {
                duplicate = true;
            }
            k += 1;
        }
        if !duplicate {
            kept.push(t);
        }
        i += 1;
    }
    kept
}

/// What the attempt loop does with the next deduped candidate.
#[derive(Clone, Copy, Debug, PartialEq, Eq, Structural)]
pub enum Step {
    /// The attempt cap is reached: stop the loop.
    Stop,
    /// One of the candidate's finders already backs a decoded code: skip it.
    Skip,
    /// Run the decode pipeline on the candidate.
    Attempt,
}

/// Arbitration state of one frame's decode loop: which finder candidates
/// back a decoded code, and how many attempts have run.
pub struct Arbitration {
    consumed: Vec<bool>,
    attempts_run: usize,
}

impl Arbitration {
    /// Consumed flag per finder candidate.
    pub closed spec fn consumed_seq(&self) -> Seq<bool> {
        self.consumed@
    }

    /// Attempts run so far.
    pub closed spec fn attempts(&self) -> nat {
        self.attempts_run as nat
    }

    /// Whether any of `finders` is consumed.
    pub open spec fn touches_consumed(&self, finders: [usize; 3]) -> bool {
        self.consumed_seq()[finders[0] as int] || self.consumed_seq()[finders[1] as int]
            || self.consumed_seq()[finders[2] as int]
    }

    /// Fresh state over `finder_count` finder candidates.
    pub fn new(finder_count: usize) -> (r: Self)
        ensures
            r.consumed_seq() == Seq::new(finder_count as nat, |_i: int| false),
            r.attempts() == 0,
    {
        let consumed = vec![false; finder_count];
        proof {
            assert(consumed@ =~= Seq::new(finder_count as nat, |_i: int| false));
        }
        Arbitration { consumed, attempts_run: 0 }
    }

    /// Decide the next candidate: stop at the attempt cap, skip one whose
    /// finders are already consumed, otherwise attempt it (counting the
    /// attempt).
    pub fn next(&mut self, finders: [usize; 3]) -> (r: Step)
        requires
            old(self).attempts() <= MAX_DECODE_ATTEMPTS,
            finders[0] < old(self).consumed_seq().len(),
            finders[1] < old(self).consumed_seq().len(),
            finders[2] < old(self).consumed_seq().len(),
        ensures
            final(self).consumed_seq() == old(self).consumed_seq(),
            final(self).attempts() <= MAX_DECODE_ATTEMPTS,
            r == (if old(self).attempts() >= MAX_DECODE_ATTEMPTS {
                Step::Stop
            } else if old(self).touches_consumed(finders) {
                Step::Skip
            } else {
                Step::Attempt
            }),
            r == Step::Attempt ==> final(self).attempts() == old(self).attempts() + 1,
            r != Step::Attempt ==> final(self).attempts() == old(self).attempts(),
    {
        if self.attempts_run >= MAX_DECODE_ATTEMPTS {
            return Step::Stop;
        }
        if self.consumed[finders[0]] || self.consumed[finders[1]] || self.consumed[finders[2]] {
            return Step::Skip;
        }
        self.attempts_run = self.attempts_run + 1;
        Step::Attempt
    }

    /// Record that the candidate built from `finders` decoded: its three
    /// finders are consumed.
    pub fn succeeded(&mut self, finders: [usize; 3])
        requires
            finders[0] < old(self).consumed_seq().len(),
            finders[1] < old(self).consumed_seq().len(),
            finders[2] < old(self).consumed_seq().len(),
        ensures
            final(self).attempts() == old(self).attempts(),
            final(self).consumed_seq() == old(self).consumed_seq().update(finders[0] as int, true).update(
                finders[1] as int,
                true,
            ).update(finders[2] as int, true),
    {
        self.consumed.set(finders[0], true);
        self.consumed.set(finders[1], true);
        self.consumed.set(finders[2], true);
    }

    /// Attempts run so far.
    pub fn attempts_run(&self) -> (r: usize)
        ensures
            r == self.attempts(),
    {
        self.attempts_run
    }
}

/// After a decode consumes the finders `a`, no candidate sharing a finder
/// with `a` is attempted again: two decoded codes never share a finder.
pub proof fn lemma_decoded_codes_disjoint(
    before: Arbitration,
    after: Arbitration,
    a: [usize; 3],
    b: [usize; 3],
)
    requires
        a[0] < before.consumed_seq().len(),
        a[1] < before.consumed_seq().len(),
        a[2] < before.consumed_seq().len(),
        b[0] < before.consumed_seq().len(),
        b[1] < before.consumed_seq().len(),
        b[2] < before.consumed_seq().len(),
        after.consumed_seq() == before.consumed_seq().update(a[0] as int, true).update(
            a[1] as int,
            true,
        ).update(a[2] as int, true),
        !after.touches_consumed(b),
    ensures
        spec_shared(a, b) == 0,
{
}

/// The kept candidates pairwise share at most one finder.
pub proof fn lemma_kept_pairwise_distinct(order: Seq<usize>, finders: Seq<[usize; 3]>, n: int)
    requires
        0 <= n <= order.len(),
    ensures
        forall|i: int, j: int|
            0 <= i < j < greedy_kept(order, finders, n).len() ==> #[trigger] spec_shared(
                finders[greedy_kept(order, finders, n)[i] as int],
                finders[#[trigger] greedy_kept(order, finders, n)[j] as int],
            ) < 2,
    decreases n,
{
    if n > 0 {
        lemma_kept_pairwise_distinct(order, finders, n - 1);
        let prev = greedy_kept(order, finders, n - 1);
        let cur = greedy_kept(order, finders, n);
        let t = order[n - 1];
        if !duplicates_kept(prev, finders, t) {
            assert forall|i: int, j: int| 0 <= i < j < cur.len() implies #[trigger] spec_shared(
                finders[cur[i] as int],
                finders[#[trigger] cur[j] as int],
            ) < 2 by {
                assert(cur[i] == prev[i]);
                if j < prev.len() {
                    assert(cur[j] == prev[j]);
                } else {
                    assert(cur[j] == t);
                    if spec_shared(finders[prev[i] as int], finders[t as int]) >= 2 {
                        assert(duplicates_kept(prev, finders, t));
                    }
                }
            }
        }
    }
}

// ---------------------------------------------------------------------------
// Dimension cross-checks of one attempt
// ---------------------------------------------------------------------------
/// Largest dimension estimate the timing cross-check is run for (version 6
/// is 41 modules; version information takes over from version 7).
pub const TIMING_CHECK_MAX_DIMENSION: u32 = 41;

/// Dimension after the timing cross-check: a timing count `t` implies
/// `t + 13` modules, which replaces an estimate of at most 41 modules that
/// it differs from by 1 or 2; the implied dimension is reported whenever a
/// count was taken.
pub open spec fn timing_checked(dimension: u32, transitions: Option<u32>) -> (u32, Option<u32>) {
    if dimension <= TIMING_CHECK_MAX_DIMENSION && transitions is Some {
        let timing_dim = transitions->0 + 13;
        let diff = if timing_dim >= dimension {
            timing_dim - dimension
        } else {
            dimension - timing_dim
        };
        if diff <= 2 && timing_dim != dimension {
            (timing_dim as u32, Some(timing_dim as u32))
        } else {
            (dimension, Some(timing_dim as u32))
        }
    } else {
        (dimension, None)
    }
}

/// Apply the timing cross-check to a dimension estimate (see
/// [`timing_checked`]). `transitions` is the timing count taken along the
/// estimate's row 6 and column 6, when both axes agreed.
pub fn timing_checked_dimension(dimension: u32, transitions: Option<u32>) -> (r: (u32, Option<u32>))
    requires
        transitions matches Some(t) ==> t <= u32::MAX - 13,
    ensures
        r == timing_checked(dimension, transitions),
{
    if dimension <= TIMING_CHECK_MAX_DIMENSION {
        if let Some(t) = transitions {
            let timing_dim = t + 13;
            let diff = if timing_dim >= dimension {
                timing_dim - dimension
            } else {
                dimension - timing_dim
            };
            if diff <= 2 && timing_dim != dimension {
                return (timing_dim, Some(timing_dim));
            }
            return (dimension, Some(timing_dim));
        }
    }
    (dimension, None)
}

/// The version a sampling grid of `dimension` modules is read as:
/// `(dimension − 17) / 4` (saturating at 0), when that is 1..=40.
pub open spec fn dimension_version(dimension: u32) -> Option<u32> {
    let v = if dimension >= 17 {
        (dimension - 17) / 4
    } else {
        0
    };
    if 1 <= v <= 40 {
        Some(v as u32)
    } else {
        None
    }
}

/// The version of a `dimension`-module grid, `None` when out of range (see
/// [`dimension_version`]).
pub fn version_of_dimension(dimension: u32) -> (r: Option<u32>)
    ensures
        r == dimension_version(dimension),
{
    let v = dimension.saturating_sub(17) / 4;
    if 1 <= v && v <= 40 {
        Some(v)
    } else {
        None
    }
}

/// Dimension after the version-information override: a decoded version
/// `v` fixes the dimension at `17 + 4·v`.
pub open spec fn version_checked(dimension: u32, version_bits: Option<u32>) -> u32 {
    match version_bits {
        Some(v) => (17 + 4 * v) as u32,
        None => dimension,
    }
}

/// Apply a decoded version-information reading to the dimension (see
/// [`version_checked`]).
pub fn version_checked_dimension(dimension: u32, version_bits: Option<u32>) -> (r: u32)
    requires
        version_bits matches Some(v) ==> v <= 40,
    ensures
        r == version_checked(dimension, version_bits),
{
    match version_bits {
        Some(v) => 17 + 4 * v,
        None => dimension,
    }
}

/// Alignment patterns a version with `n` alignment coordinates per axis
/// has: `n²` grid positions less the three under the finders.
pub fn alignment_pattern_total(n: usize) -> (r: u32)
    requires
        n <= 7,
    ensures
        r == if n * n >= 3 {
            n * n - 3
        } else {
            0
        },
{
    proof {
        assert(n * n <= 49) by (nonlinear_arith)
            requires
                n <= 7,
        ;
    }
    let sq = n * n;
    if sq >= 3 {
        (sq - 3) as u32
    } else {
        0
    }
}

/// Once a version-information reading is applied, the dimension is a valid
/// symbol size whose version is the decoded one.
pub proof fn lemma_version_override_is_consistent(dimension: u32, v: u32)
    requires
        7 <= v <= 40,
    ensures
        dimension_version(version_checked(dimension, Some(v))) == Some(v),
        version_checked(dimension, Some(v)) % 4 == 1,
{
}

} // verus!
