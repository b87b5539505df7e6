//! Alignment-pattern coordinates: ISO 18004 Annex E's per-version
//! coordinate sets, and which lattice nodes are finder-pattern corners.
use vstd::prelude::*;

verus! {

/// The alignment-pattern coordinate set of `version` (1..=40): real pattern
/// centers are every `(row, col)` pair drawn from the set, except the three
/// finder corners. Coordinates are 0-indexed module centers.
pub open spec fn alignment_table(version: u32) -> Seq<u8> {
    if version == 1 {
        Seq::empty()
    } else if version == 2 {
        seq![6, 18]
    } else if version == 3 {
        seq![6, 22]
    } else if version == 4 {
        seq![6, 26]
    } else if version == 5 {
        seq![6, 30]
    } else if version == 6 {
        seq![6, 34]
    } else if version == 7 {
        seq![6, 22, 38]
    } else if version == 8 {
        seq![6, 24, 42]
    } else if version == 9 {
        seq![6, 26, 46]
    } else if version == 10 {
        seq![6, 28, 50]
    } else if version == 11 {
        seq![6, 30, 54]
    } else if version == 12 {
        seq![6, 32, 58]
    } else if version == 13 {
        seq![6, 34, 62]
    } else if version == 14 {
        seq![6, 26, 46, 66]
    } else if version == 15 {
        seq![6, 26, 48, 70]
    } else if version == 16 {
        seq![6, 26, 50, 74]
    } else if version == 17 {
        seq![6, 30, 54, 78]
    } else if version == 18 {
        seq![6, 30, 56, 82]
    } else if version == 19 {
        seq![6, 30, 58, 86]
    } else if version == 20 {
        seq![6, 34, 62, 90]
    } else if version == 21 {
        seq![6, 28, 50, 72, 94]
    } else if version == 22 {
        seq![6, 26, 50, 74, 98]
    } else if version == 23 {
        seq![6, 30, 54, 78, 102]
    } else if version == 24 {
        seq![6, 28, 54, 80, 106]
    } else if version == 25 {
        seq![6, 32, 58, 84, 110]
    } else if version == 26 {
        seq![6, 30, 58, 86, 114]
    } else if version == 27 {
        seq![6, 34, 62, 90, 118]
    } else if version == 28 {
        seq![6, 26, 50, 74, 98, 122]
    } else if version == 29 {
        seq![6, 30, 54, 78, 102, 126]
    } else if version == 30 {
        seq![6, 26, 52, 78, 104, 130]
    } else if version == 31 {
        seq![6, 30, 56, 82, 108, 134]
    } else if version == 32 {
        seq![6, 34, 60, 86, 112, 138]
    } else if version == 33 {
        seq![6, 30, 58, 86, 114, 142]
    } else if version == 34 {
        seq![6, 34, 62, 90, 118, 146]
    } else if version == 35 {
        seq![6, 30, 54, 78, 102, 126, 150]
    } else if version == 36 {
        seq![6, 24, 50, 76, 102, 128, 154]
    } else if version == 37 {
        seq![6, 28, 54, 80, 106, 132, 158]
    } else if version == 38 {
        seq![6, 32, 58, 84, 110, 136, 162]
    } else if version == 39 {
        seq![6, 26, 54, 82, 110, 138, 166]
    } else {
        seq![6, 30, 58, 86, 114, 142, 170]
    }
}

/// The alignment-pattern coordinate set for `version`.
pub fn alignment_coords(version: u32) -> (r: Vec<u8>)
    requires
        1 <= version <= 40,
    ensures
        r@ == alignment_table(version),
{
    let r: Vec<u8> = if version == 1 {
        Vec::new()
    } else if version == 2 {
        vec![6, 18]
    } else if version == 3 {
        vec![6, 22]
    } else if version == 4 {
        vec![6, 26]
    } else if version == 5 {
        vec![6, 30]
    } else if version == 6 {
        vec![6, 34]
    } else if version == 7 {
        vec![6, 22, 38]
    } else if version == 8 {
        vec![6, 24, 42]
    } else if version == 9 {
        vec![6, 26, 46]
    } else if version == 10 {
        vec![6, 28, 50]
    } else if version == 11 {
        vec![6, 30, 54]
    } else if version == 12 {
        vec![6, 32, 58]
    } else if version == 13 {
        vec![6, 34, 62]
    } else if version == 14 {
        vec![6, 26, 46, 66]
    } else if version == 15 {
        vec![6, 26, 48, 70]
    } else if version == 16 {
        vec![6, 26, 50, 74]
    } else if version == 17 {
        vec![6, 30, 54, 78]
    } else if version == 18 {
        vec![6, 30, 56, 82]
    } else if version == 19 {
        vec![6, 30, 58, 86]
    } else if version == 20 {
        vec![6, 34, 62, 90]
    } else if version == 21 {
        vec![6, 28, 50, 72, 94]
    } else if version == 22 {
        vec![6, 26, 50, 74, 98]
    } else if version == 23 {
        vec![6, 30, 54, 78, 102]
    } else if version == 24 {
        vec![6, 28, 54, 80, 106]
    } else if version == 25 {
        vec![6, 32, 58, 84, 110]
    } else if version == 26 {
        vec![6, 30, 58, 86, 114]
    } else if version == 27 {
        vec![6, 34, 62, 90, 118]
    } else if version == 28 {
        vec![6, 26, 50, 74, 98, 122]
    } else if version == 29 {
        vec![6, 30, 54, 78, 102, 126]
    } else if version == 30 {
        vec![6, 26, 52, 78, 104, 130]
    } else if version == 31 {
        vec![6, 30, 56, 82, 108, 134]
    } else if version == 32 {
        vec![6, 34, 60, 86, 112, 138]
    } else if version == 33 {
        vec![6, 30, 58, 86, 114, 142]
    } else if version == 34 {
        vec![6, 34, 62, 90, 118, 146]
    } else if version == 35 {
        vec![6, 30, 54, 78, 102, 126, 150]
    } else if version == 36 {
        vec![6, 24, 50, 76, 102, 128, 154]
    } else if version == 37 {
        vec![6, 28, 54, 80, 106, 132, 158]
    } else if version == 38 {
        vec![6, 32, 58, 84, 110, 136, 162]
    } else if version == 39 {
        vec![6, 26, 54, 82, 110, 138, 166]
    } else {
        vec![6, 30, 58, 86, 114, 142, 170]
    };
    proof {
        assert(r@ =~= alignment_table(version));
    }
    r
}

/// Whether lattice node `(i, j)` of an `n × n` alignment lattice is one of
/// the three finder-pattern corners: `(0, 0)`, `(0, n−1)` or `(n−1, 0)`.
pub open spec fn spec_is_finder_corner(i: int, j: int, n: int) -> bool {
    (i == 0 && j == 0) || (i == 0 && j == n - 1) || (i == n - 1 && j == 0)
}

/// `true` iff lattice node `(i, j)` (0-indexed into a coordinate set of
/// length `n`) is one of the three finder-pattern corners.
pub fn is_finder_corner(i: usize, j: usize, n: usize) -> (r: bool)
    ensures
        r == spec_is_finder_corner(i as int, j as int, n as int),
{
    (i == 0 && j == 0) || (i == 0 && n >= 1 && j == n - 1) || (n >= 1 && i == n - 1 && j == 0)
}

/// Every version from 2 on has a coordinate set that starts at the timing
/// pattern's coordinate 6 and ends at `dim − 7`, the far finder pattern's
/// coordinate, where `dim = 17 + 4·version`.
pub proof fn lemma_alignment_ends(version: u32)
    requires
        2 <= version <= 40,
    ensures
        alignment_table(version).len() >= 2,
        alignment_table(version)[0] == 6,
        alignment_table(version).last() == 17 + 4 * version - 7,
{
}

/// From version 7 on, adjacent coordinates are at least 16 modules apart.
pub proof fn lemma_alignment_gaps(version: u32, k: int)
    requires
        7 <= version <= 40,
        0 <= k < alignment_table(version).len() - 1,
    ensures
        alignment_table(version)[k + 1] - alignment_table(version)[k] >= 16,
{
}

} // verus!
