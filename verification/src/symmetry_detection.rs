//! Symmetry detection in metric patterns: when a room's metrics have a symmetry,
//! the room is predictable and healthy. Symmetry is stability.
//!
//! Metric values are fixed-point numbers in millionths. Strengths are in units of
//! 2^-60 (`PERFECT` = 2^60 is perfect symmetry). Every error ratio and every average
//! error is rounded up to a whole unit, so a strength is never above the exact one, and
//! it is perfect exactly when every compared pair is equal.
use vstd::prelude::*;

verus! {

/// Strength of perfect symmetry.
pub const PERFECT: u64 = 0x1000_0000_0000_0000;

/// A detected symmetry group in a time series.
#[derive(Debug, PartialEq)]
pub enum SymmetryGroup {
    /// No symmetry detected.
    NoSymmetry,
    /// Mirror symmetry: the pattern reflects around a center point.
    Mirror { center_index: usize, strength: u64 },
    /// Translational symmetry: the pattern repeats at intervals.
    Translational { period: usize, strength: u64 },
    /// Rotational symmetry: values rotated by a shift differ by a constant.
    Rotational { shift: usize, strength: u64 },
    /// Several symmetries at once.
    Combined { groups: Vec<Box<SymmetryGroup>>, overall_strength: u64 },
}

fn clone_group(g: &SymmetryGroup) -> (r: SymmetryGroup)
    decreases *g,
{
    match g {
        SymmetryGroup::NoSymmetry => SymmetryGroup::NoSymmetry,
        SymmetryGroup::Mirror { center_index, strength } => SymmetryGroup::Mirror {
            center_index: *center_index,
            strength: *strength,
        },
        SymmetryGroup::Translational { period, strength } => SymmetryGroup::Translational {
            period: *period,
            strength: *strength,
        },
        SymmetryGroup::Rotational { shift, strength } => SymmetryGroup::Rotational {
            shift: *shift,
            strength: *strength,
        },
        SymmetryGroup::Combined { groups, overall_strength } => {
            let mut copies: Vec<Box<SymmetryGroup>> = Vec::new();
            let mut i: usize = 0;
            while i < groups.len()
                invariant
                    *g == (SymmetryGroup::Combined { groups: *groups, overall_strength: *overall_strength }),
                decreases groups@.len() - i,
            {
                proof {
                    let gs = (*g)->Combined_groups;
                    assert(gs == *groups);
                    assert(decreases_to!(*g => (*g)->Combined_groups));
                    assert(decreases_to!(gs => gs@));
                    assert(decreases_to!(gs@ => gs@[i as int]));
                    assert(decreases_to!(*g => *groups@[i as int]));
                }
                copies.push(Box::new(clone_group(&groups[i])));
                i += 1;
            }
            SymmetryGroup::Combined { groups: copies, overall_strength: *overall_strength }
        },
    }
}

impl Clone for SymmetryGroup {
    fn clone(&self) -> Self {
        clone_group(self)
    }
}

/// Strength of a group.
pub open spec fn group_strength(g: SymmetryGroup) -> u64 {
    match g {
        SymmetryGroup::NoSymmetry => 0,
        SymmetryGroup::Mirror { strength, .. } => strength,
        SymmetryGroup::Translational { strength, .. } => strength,
        SymmetryGroup::Rotational { strength, .. } => strength,
        SymmetryGroup::Combined { overall_strength, .. } => overall_strength,
    }
}

impl SymmetryGroup {
    /// How strong the symmetry is (0 = none, `PERFECT` = perfect).
    pub fn strength(&self) -> (s: u64)
        ensures
            s == group_strength(*self),
    {
        match self {
            SymmetryGroup::NoSymmetry => 0,
            SymmetryGroup::Mirror { strength, .. } => *strength,
            SymmetryGroup::Translational { strength, .. } => *strength,
            SymmetryGroup::Rotational { strength, .. } => *strength,
            SymmetryGroup::Combined { overall_strength, .. } => *overall_strength,
        }
    }

    /// The symmetry is meaningful: at least `threshold` strong.
    pub fn is_significant(&self, threshold: u64) -> (b: bool)
        ensures
            b == (group_strength(*self) >= threshold),
    {
        self.strength() >= threshold
    }
}

pub open spec fn abs_int(x: int) -> nat {
    if x < 0 { (-x) as nat } else { x as nat }
}

/// Relative difference `num / den`, capped at one whole unit, in units of 2^-60 rounded
/// up; a zero denominator counts as no difference when the numerator is zero too, else as
/// a full one.
pub open spec fn ratio_error(num: nat, den: nat) -> nat {
    if num == 0 {
        0
    } else if num >= den {
        0x1000_0000_0000_0000
    } else {
        ceil_div(num * 0x1000_0000_0000_0000, den)
    }
}

/// `a / b` rounded up.
pub open spec fn ceil_div(a: nat, b: nat) -> nat {
    if a % b == 0 { a / b } else { a / b + 1 }
}

/// One whole unit less the average error (rounded up); 0 without any comparison.
pub open spec fn strength_from(total: nat, count: nat) -> nat {
    if count == 0 {
        0
    } else if ceil_div(total, count) > 0x1000_0000_0000_0000 {
        0
    } else {
        (0x1000_0000_0000_0000 - ceil_div(total, count)) as nat
    }
}

/// Error between values `a` and `b`: their difference relative to their sum.
pub open spec fn pair_error(a: i64, b: i64) -> nat {
    ratio_error(abs_int(a - b), abs_int(a + b))
}

/// The first half's position `i` has a mirror partner `len - 1 - i` in the second half
/// (every position of the first half has one, the middle pair of an even length included).
pub open spec fn mirror_pair(d: Seq<i64>, i: int) -> bool {
    d.len() - 1 - i >= d.len() / 2
}

/// Total error of the mirror pairs among the first `k` positions.
pub open spec fn mirror_error(d: Seq<i64>, k: int) -> nat
    decreases k,
{
    if k <= 0 {
        0
    } else {
        mirror_error(d, k - 1) + if mirror_pair(d, k - 1) {
            pair_error(d[k - 1], d[d.len() - k])
        } else {
            0
        }
    }
}

/// Number of mirror pairs among the first `k` positions.
pub open spec fn mirror_count(d: Seq<i64>, k: int) -> nat
    decreases k,
{
    if k <= 0 { 0 } else { mirror_count(d, k - 1) + if mirror_pair(d, k - 1) { 1nat } else { 0nat } }
}

/// Mirror symmetry around the center of the series.
pub open spec fn mirror_group(d: Seq<i64>) -> SymmetryGroup {
    SymmetryGroup::Mirror {
        center_index: (d.len() / 2) as usize,
        strength: strength_from(mirror_error(d, (d.len() / 2) as int), mirror_count(d, (d.len() / 2) as int)) as u64,
    }
}

/// Total error between each of the first `k` values and the value `p` places later.
pub open spec fn shift_error(d: Seq<i64>, p: int, k: int) -> nat
    decreases k,
{
    if k <= 0 {
        0
    } else {
        shift_error(d, p, k - 1) + if k - 1 + p < d.len() { pair_error(d[k - 1], d[k - 1 + p]) } else { 0 }
    }
}

/// Number of the first `k` values that have a value `p` places later.
pub open spec fn shift_count(d: Seq<i64>, p: int, k: int) -> nat
    decreases k,
{
    if k <= 0 { 0 } else { shift_count(d, p, k - 1) + if k - 1 + p < d.len() { 1nat } else { 0nat } }
}

/// How strongly the series repeats with period `p`.
pub open spec fn period_strength(d: Seq<i64>, p: int) -> nat {
    strength_from(shift_error(d, p, d.len() as int), shift_count(d, p, d.len() as int))
}

/// Best period among `2 ..= last` (the first of the strongest; period 2 with strength 0
/// when none is stronger than 0).
pub open spec fn strongest_period(d: Seq<i64>, last: int) -> (int, nat)
    decreases last,
{
    if last < 2 {
        (2, 0)
    } else {
        let (bp, bs) = strongest_period(d, last - 1);
        let s = period_strength(d, last);
        if s > bs { (last, s) } else { (bp, bs) }
    }
}

/// Translational symmetry: the best period up to half the series.
pub open spec fn translational_group(d: Seq<i64>) -> SymmetryGroup {
    let (p, s) = strongest_period(d, (d.len() / 2) as int);
    SymmetryGroup::Translational { period: p as usize, strength: s as u64 }
}

/// Difference between the value at `i` and the one `s` places further, cyclically.
pub open spec fn rotation_diff(d: Seq<i64>, i: int, s: int) -> int {
    d[i] - d[(i + s) % (d.len() as int)]
}

/// Error between the rotation differences at `i` and `i - 1`.
pub open spec fn rotation_term(d: Seq<i64>, i: int, s: int) -> nat {
    let a = rotation_diff(d, i, s);
    let b = rotation_diff(d, i - 1, s);
    ratio_error(abs_int(a - b), abs_int(a) + abs_int(b))
}

/// Total rotation error over positions `1 .. k`.
pub open spec fn rotation_error(d: Seq<i64>, s: int, k: int) -> nat
    decreases k,
{
    if k <= 1 { 0 } else { rotation_error(d, s, k - 1) + rotation_term(d, k - 1, s) }
}

/// How constant the differences between the series and its rotation by `s` are.
pub open spec fn shift_strength(d: Seq<i64>, s: int) -> nat {
    strength_from(rotation_error(d, s, d.len() as int), (d.len() - 1) as nat)
}

/// Best rotation among `1 ..= last` (the first of the strongest; shift 1 with strength 0
/// when none is stronger than 0).
pub open spec fn strongest_shift(d: Seq<i64>, last: int) -> (int, nat)
    decreases last,
{
    if last < 1 {
        (1, 0)
    } else {
        let (bs, bst) = strongest_shift(d, last - 1);
        let st = shift_strength(d, last);
        if st > bst { (last, st) } else { (bs, bst) }
    }
}

/// Rotational symmetry: the best shift up to half the series.
pub open spec fn rotational_group(d: Seq<i64>) -> SymmetryGroup {
    let (s, st) = strongest_shift(d, (d.len() / 2) as int);
    SymmetryGroup::Rotational { shift: s as usize, strength: st as u64 }
}

/// The three candidate symmetries whose strength reaches `noise`, in the order
/// mirror, translational, rotational.
pub open spec fn strong_groups(d: Seq<i64>, noise: u64) -> Seq<SymmetryGroup> {
    let m = mirror_group(d);
    let t = translational_group(d);
    let r = rotational_group(d);
    let s1: Seq<SymmetryGroup> = if group_strength(m) >= noise { seq![m] } else { seq![] };
    let s2: Seq<SymmetryGroup> = if group_strength(t) >= noise { s1.push(t) } else { s1 };
    if group_strength(r) >= noise { s2.push(r) } else { s2 }
}

/// Largest strength of the three candidate symmetries.
pub open spec fn max_strength(d: Seq<i64>) -> u64 {
    let m = group_strength(mirror_group(d));
    let t = group_strength(translational_group(d));
    let r = group_strength(rotational_group(d));
    let mt = if m >= t { m } else { t };
    if mt >= r { mt } else { r }
}

/// The symmetry detected in series `d` with noise threshold `noise`: none for fewer than
/// four values or when no candidate reaches the threshold; a combination when several do;
/// otherwise the strongest candidate (mirror before translational before rotational).
pub open spec fn detected_is(d: Seq<i64>, noise: u64, g: SymmetryGroup) -> bool {
    let strong = strong_groups(d, noise);
    if d.len() < 4 || max_strength(d) < noise {
        g == SymmetryGroup::NoSymmetry
    } else if strong.len() > 1 {
        &&& g matches SymmetryGroup::Combined { groups, overall_strength }
        &&& overall_strength == max_strength(d)
        &&& groups@.map_values(|b: Box<SymmetryGroup>| *b) == strong
    } else {
        let m = mirror_group(d);
        let t = translational_group(d);
        let r = rotational_group(d);
        if group_strength(m) >= group_strength(t) && group_strength(m) >= group_strength(r) {
            g == m
        } else if group_strength(t) >= group_strength(r) {
            g == t
        } else {
            g == r
        }
    }
}

/// Strength of the symmetry detected in `d`: the largest candidate strength, or 0 when
/// nothing is detected.
pub open spec fn detected_strength(d: Seq<i64>, noise: u64) -> u64 {
    if d.len() < 4 || max_strength(d) < noise { 0 } else { max_strength(d) }
}

/// The series is short enough that shifted positions fit in a `usize`.
pub open spec fn indexable(d: Seq<i64>) -> bool {
    d.len() < 4 || d.len() - 1 + d.len() / 2 <= usize::MAX
}

proof fn lemma_strongest_period_bounds(d: Seq<i64>, last: int)
    ensures
        strongest_period(d, last).1 <= 0x1000_0000_0000_0000,
        forall|p: int| 2 <= p <= last ==> period_strength(d, p) <= strongest_period(d, last).1,
    decreases last,
{
    if last >= 2 {
        lemma_strongest_period_bounds(d, last - 1);
    }
}

proof fn lemma_strongest_shift_bounds(d: Seq<i64>, last: int)
    ensures
        strongest_shift(d, last).1 <= 0x1000_0000_0000_0000,
        forall|s: int| 1 <= s <= last ==> shift_strength(d, s) <= strongest_shift(d, last).1,
    decreases last,
{
    if last >= 1 {
        lemma_strongest_shift_bounds(d, last - 1);
    }
}

/// Detected symmetry never exceeds perfect strength.
pub proof fn lemma_strength_at_most_perfect(d: Seq<i64>, noise: u64)
    ensures
        max_strength(d) <= PERFECT,
        detected_strength(d, noise) <= PERFECT,
{
    lemma_strongest_period_bounds(d, (d.len() / 2) as int);
    lemma_strongest_shift_bounds(d, (d.len() / 2) as int);
}

proof fn lemma_mirror_error_zero(d: Seq<i64>, k: int)
    requires
        0 <= k <= d.len() / 2,
        forall|i: int| 0 <= i < d.len() ==> #[trigger] d[i] == d[d.len() - 1 - i],
    ensures
        mirror_error(d, k) == 0,
        d.len() >= 4 && k >= 1 ==> mirror_count(d, k) >= 1,
    decreases k,
{
    if k > 0 {
        lemma_mirror_error_zero(d, k - 1);
        assert(d[k - 1] == d[d.len() - k]);
        if k == 1 && d.len() >= 4 {
            assert(mirror_pair(d, 0));
        }
    }
}

/// A series that reads the same backward (a palindrome) of at least four values has
/// perfect mirror symmetry.
pub proof fn lemma_palindrome_mirror_perfect(d: Seq<i64>)
    requires
        d.len() >= 4,
        forall|i: int| 0 <= i < d.len() ==> #[trigger] d[i] == d[d.len() - 1 - i],
    ensures
        group_strength(mirror_group(d)) == PERFECT,
{
    lemma_mirror_error_zero(d, (d.len() / 2) as int);
}

proof fn lemma_pair_error_zero(a: i64, b: i64)
    ensures
        pair_error(a, b) == 0 <==> a == b,
{
    let num = abs_int(a - b);
    let den = abs_int(a + b);
    if num > 0 && num < den {
        lemma_ceil_ratio_at_most_one(num, den);
    }
}

proof fn lemma_mirror_count_all(d: Seq<i64>, k: int)
    requires
        0 <= k <= d.len() / 2,
    ensures
        mirror_count(d, k) == k,
    decreases k,
{
    if k > 0 {
        lemma_mirror_count_all(d, k - 1);
    }
}

proof fn lemma_mirror_error_zero_pairs(d: Seq<i64>, k: int)
    requires
        0 <= k <= d.len() / 2,
        mirror_error(d, k) == 0,
    ensures
        forall|i: int| 0 <= i < k ==> #[trigger] d[i] == d[d.len() - 1 - i],
    decreases k,
{
    if k > 0 {
        lemma_mirror_error_zero_pairs(d, k - 1);
        lemma_pair_error_zero(d[k - 1], d[d.len() - k]);
    }
}

/// Perfect mirror strength means a perfect reflection: a series of at least four values
/// whose mirror strength is perfect reads the same backward.
pub proof fn lemma_perfect_mirror_is_reflection(d: Seq<i64>)
    requires
        d.len() >= 4,
        group_strength(mirror_group(d)) == PERFECT,
    ensures
        forall|i: int| 0 <= i < d.len() ==> #[trigger] d[i] == d[d.len() - 1 - i],
{
    let c = (d.len() / 2) as int;
    lemma_mirror_count_all(d, c);
    let total = mirror_error(d, c);
    if total > 0 {
        if total % (c as nat) == 0 {
            vstd::arithmetic::div_mod::lemma_fundamental_div_mod(total as int, c);
            assert(total / (c as nat) >= 1) by (nonlinear_arith)
                requires total == c * (total / (c as nat)) + total % (c as nat), total % (c as nat) == 0, total > 0, c > 0;
        }
        assert(ceil_div(total, c as nat) >= 1);
        assert(false);
    }
    lemma_mirror_error_zero_pairs(d, c);
    assert forall|i: int| 0 <= i < d.len() implies #[trigger] d[i] == d[d.len() - 1 - i] by {
        if i < c {
        } else if d.len() - 1 - i < c {
            let j = d.len() - 1 - i;
            assert(d[j] == d[d.len() - 1 - j]);
        }
    }
}

proof fn lemma_shift_error_zero(d: Seq<i64>, p: int, k: int)
    requires
        0 <= k <= d.len(),
        1 <= p,
        forall|i: int| 0 <= i && i + p < d.len() ==> #[trigger] d[i] == d[i + p],
    ensures
        shift_error(d, p, k) == 0,
        k >= 1 && p < d.len() ==> shift_count(d, p, k) >= 1,
    decreases k,
{
    if k > 0 {
        lemma_shift_error_zero(d, p, k - 1);
        if k - 1 + p < d.len() {
            assert(d[k - 1] == d[k - 1 + p]);
        }
    }
}

/// A series of at least four values that repeats with some period `p` up to half its
/// length has perfect translational symmetry.
pub proof fn lemma_periodic_translational_perfect(d: Seq<i64>, p: int)
    requires
        d.len() >= 4,
        2 <= p <= d.len() / 2,
        forall|i: int| 0 <= i && i + p < d.len() ==> #[trigger] d[i] == d[i + p],
    ensures
        group_strength(translational_group(d)) == PERFECT,
{
    lemma_shift_error_zero(d, p, d.len() as int);
    lemma_strongest_period_bounds(d, (d.len() / 2) as int);
    assert(period_strength(d, p) == 0x1000_0000_0000_0000);
    assert(period_strength(d, p) <= strongest_period(d, (d.len() / 2) as int).1);
}

proof fn lemma_rotation_error_zero(d: Seq<i64>, s: int, k: int)
    requires
        1 <= k <= d.len(),
        0 <= s,
        forall|i: int, j: int| 0 <= i < d.len() && 0 <= j < d.len() ==> d[i] == d[j],
    ensures
        rotation_error(d, s, k) == 0,
    decreases k,
{
    if k > 1 {
        lemma_rotation_error_zero(d, s, k - 1);
        let n = d.len() as int;
        assert(0 <= (k - 1 + s) % n < n) by (nonlinear_arith)
            requires n > 0, k - 1 + s >= 0;
        assert(0 <= (k - 2 + s) % n < n) by (nonlinear_arith)
            requires n > 0, k - 2 + s >= 0;
        assert(rotation_diff(d, k - 1, s) == 0);
        assert(rotation_diff(d, k - 2, s) == 0);
    }
}

/// A constant series of at least four values has perfect symmetry of every kind.
pub proof fn lemma_constant_series_perfect(d: Seq<i64>)
    requires
        d.len() >= 4,
        forall|i: int, j: int| 0 <= i < d.len() && 0 <= j < d.len() ==> d[i] == d[j],
    ensures
        group_strength(mirror_group(d)) == PERFECT,
        group_strength(translational_group(d)) == PERFECT,
        group_strength(rotational_group(d)) == PERFECT,
        max_strength(d) == PERFECT,
{
    lemma_palindrome_mirror_perfect(d);
    lemma_periodic_translational_perfect(d, 2);
    lemma_rotation_error_zero(d, 1, d.len() as int);
    lemma_strongest_shift_bounds(d, (d.len() / 2) as int);
    assert(shift_strength(d, 1) == 0x1000_0000_0000_0000);
    assert(shift_strength(d, 1) <= strongest_shift(d, (d.len() / 2) as int).1);
}

proof fn lemma_strongest_period_is_first_max(d: Seq<i64>, last: int)
    requires
        last >= 2,
    ensures
        2 <= strongest_period(d, last).0 <= last,
        strongest_period(d, last).1 == period_strength(d, strongest_period(d, last).0),
        forall|q: int| 2 <= q <= last ==> period_strength(d, q) <= strongest_period(d, last).1,
        forall|q: int| 2 <= q < strongest_period(d, last).0 ==> period_strength(d, q) < strongest_period(d, last).1,
    decreases last,
{
    if last > 2 {
        lemma_strongest_period_is_first_max(d, last - 1);
    } else {
        assert(strongest_period(d, 1) == (2int, 0nat));
    }
}

proof fn lemma_strongest_shift_is_first_max(d: Seq<i64>, last: int)
    requires
        last >= 1,
    ensures
        1 <= strongest_shift(d, last).0 <= last,
        strongest_shift(d, last).1 == shift_strength(d, strongest_shift(d, last).0),
        forall|q: int| 1 <= q <= last ==> shift_strength(d, q) <= strongest_shift(d, last).1,
        forall|q: int| 1 <= q < strongest_shift(d, last).0 ==> shift_strength(d, q) < strongest_shift(d, last).1,
    decreases last,
{
    if last > 1 {
        lemma_strongest_shift_is_first_max(d, last - 1);
    } else {
        assert(strongest_shift(d, 0) == (1int, 0nat));
    }
}

/// Translational symmetry of a series of at least four values reports a period from 2 to
/// half the series together with that period's own strength; no period in that range repeats
/// more strongly, and every shorter period repeats strictly less strongly.
pub proof fn lemma_translational_is_strongest_period(d: Seq<i64>)
    requires
        d.len() >= 4,
        d.len() <= usize::MAX,
    ensures
        translational_group(d) matches SymmetryGroup::Translational { period, strength } && {
            &&& 2 <= period <= d.len() / 2
            &&& strength == period_strength(d, period as int)
            &&& forall|q: int| 2 <= q <= d.len() / 2 ==> period_strength(d, q) <= strength
            &&& forall|q: int| 2 <= q < period ==> period_strength(d, q) < strength
        },
{
    let last = (d.len() / 2) as int;
    lemma_strongest_period_is_first_max(d, last);
    lemma_strongest_period_bounds(d, last);
    let r = strongest_period(d, last);
    assert(r.0 as usize as int == r.0);
    assert(r.1 as u64 as nat == r.1);
}

/// Rotational symmetry of a series of at least four values reports a shift from 1 to half
/// the series together with that shift's own strength; no shift in that range is stronger,
/// and every smaller shift is strictly weaker.
pub proof fn lemma_rotational_is_strongest_shift(d: Seq<i64>)
    requires
        d.len() >= 4,
        d.len() <= usize::MAX,
    ensures
        rotational_group(d) matches SymmetryGroup::Rotational { shift, strength } && {
            &&& 1 <= shift <= d.len() / 2
            &&& strength == shift_strength(d, shift as int)
            &&& forall|q: int| 1 <= q <= d.len() / 2 ==> shift_strength(d, q) <= strength
            &&& forall|q: int| 1 <= q < shift ==> shift_strength(d, q) < strength
        },
{
    let last = (d.len() / 2) as int;
    lemma_strongest_shift_is_first_max(d, last);
    lemma_strongest_shift_bounds(d, last);
    let r = strongest_shift(d, last);
    assert(r.0 as usize as int == r.0);
    assert(r.1 as u64 as nat == r.1);
}

/// The strength of the strongest candidate is at least that of each of the mirror,
/// translational and rotational symmetries, and is one of them.
pub proof fn lemma_max_strength_is_greatest(d: Seq<i64>)
    ensures
        group_strength(mirror_group(d)) <= max_strength(d),
        group_strength(translational_group(d)) <= max_strength(d),
        group_strength(rotational_group(d)) <= max_strength(d),
        max_strength(d) == group_strength(mirror_group(d)) || max_strength(d) == group_strength(
            translational_group(d),
        ) || max_strength(d) == group_strength(rotational_group(d)),
{
}

/// The detected symmetry is the strongest one: its strength is the greatest candidate
/// strength when that reaches the noise threshold (for at least four values), else 0.
pub proof fn lemma_detected_is_strongest(d: Seq<i64>, noise: u64, g: SymmetryGroup)
    requires
        detected_is(d, noise, g),
    ensures
        group_strength(g) == detected_strength(d, noise),
        d.len() >= 4 && group_strength(g) >= noise ==> group_strength(g) == max_strength(d),
{
    lemma_max_strength_is_greatest(d);
}

/// A series of at least four values that repeats with a period up to half its length is
/// detected with perfect strength, whatever the noise threshold up to perfect.
pub proof fn lemma_periodic_series_detected_perfect(d: Seq<i64>, p: int, noise: u64)
    requires
        d.len() >= 4,
        2 <= p <= d.len() / 2,
        forall|i: int| 0 <= i && i + p < d.len() ==> #[trigger] d[i] == d[i + p],
        noise <= PERFECT,
    ensures
        detected_strength(d, noise) == PERFECT,
{
    lemma_periodic_translational_perfect(d, p);
    lemma_max_strength_is_greatest(d);
    lemma_strength_at_most_perfect(d, noise);
}

fn ratio_error_of(num: u128, den: u128) -> (e: u64)
    requires
        num <= 0x4_0000_0000_0000_0000,
        den <= 0x4_0000_0000_0000_0000,
    ensures
        e == ratio_error(num as nat, den as nat),
        e <= PERFECT,
{
    if num == 0 {
        0
    } else if num >= den {
        0x1000_0000_0000_0000
    } else {
        assert(num * 0x1000_0000_0000_0000 <= 0x4_0000_0000_0000_0000 * 0x1000_0000_0000_0000) by (nonlinear_arith)
            requires num <= 0x4_0000_0000_0000_0000;
        let scaled = num * 0x1000_0000_0000_0000;
        let q = if scaled % den == 0 { scaled / den } else { scaled / den + 1 };
        proof {
            lemma_ceil_ratio_at_most_one(num as nat, den as nat);
        }
        q as u64
    }
}

proof fn lemma_ceil_ratio_at_most_one(num: nat, den: nat)
    requires
        0 < num < den,
    ensures
        1 <= ceil_div(num * 0x1000_0000_0000_0000, den) <= 0x1000_0000_0000_0000,
{
    let one: nat = 0x1000_0000_0000_0000;
    let a = num * one;
    assert(a < one * den) by (nonlinear_arith)
        requires a == num * one, num < den, one > 0;
    assert(a >= 1) by (nonlinear_arith)
        requires a == num * one, num >= 1, one >= 1;
    vstd::arithmetic::div_mod::lemma_fundamental_div_mod(a as int, den as int);
    vstd::arithmetic::div_mod::lemma_mod_bound(a as int, den as int);
    let q = a / den;
    let r = a % den;
    assert(q < one) by (nonlinear_arith)
        requires a == den * q + r, 0 <= r, a < one * den, den > 0;
    if q == 0 {
        assert(den * q == 0) by (nonlinear_arith)
            requires q == 0;
        assert(r == a);
    }
}

fn abs_of(x: i128) -> (r: u128)
    requires
        x > i128::MIN,
    ensures
        r == abs_int(x as int),
{
    if x < 0 { (-x) as u128 } else { x as u128 }
}

fn pair_error_of(a: i64, b: i64) -> (e: u64)
    ensures
        e == pair_error(a, b),
        e <= PERFECT,
{
    let num = abs_of(a as i128 - b as i128);
    let den = abs_of(a as i128 + b as i128);
    ratio_error_of(num, den)
}

fn strength_of(total: u128, count: u128) -> (s: u64)
    ensures
        s == strength_from(total as nat, count as nat),
        s <= PERFECT,
{
    if count == 0 {
        0
    } else {
        let q = total / count;
        if q >= 0x1000_0000_0000_0000 {
            return 0;
        }
        let avg = if total % count == 0 { q } else { q + 1 };
        if avg > 0x1000_0000_0000_0000 { 0 } else { (0x1000_0000_0000_0000 - avg) as u64 }
    }
}

/// Symmetry detector for metric time series.
#[derive(Debug, Clone)]
pub struct SymmetryDetection {
    /// Strength below which a symmetry is considered noise, in millionths.
    noise_threshold: u64,
}

impl SymmetryDetection {
    pub closed spec fn spec_noise_threshold(&self) -> u64 {
        self.noise_threshold
    }

    /// A detector that counts symmetries weaker than `noise_threshold` as noise.
    pub fn new(noise_threshold: u64) -> (d: Self)
        ensures
            d.spec_noise_threshold() == noise_threshold,
    {
        SymmetryDetection { noise_threshold }
    }

    /// Detect symmetry in a time series: the strongest of mirror, translational and
    /// rotational symmetry, a combination of those above the noise threshold when there
    /// are several, or none.
    pub fn detect_metric_symmetry(&self, time_series: &[i64]) -> (g: SymmetryGroup)
        requires
            indexable(time_series@),
        ensures
            detected_is(time_series@, self.spec_noise_threshold(), g),
            group_strength(g) == detected_strength(time_series@, self.spec_noise_threshold()),
    {
        let ghost d = time_series@;
        if time_series.len() < 4 {
            return SymmetryGroup::NoSymmetry;
        }
        let mirror = self.detect_mirror(time_series);
        let translational = self.detect_translational(time_series);
        let rotational = self.detect_rotational(time_series);
        let mirror_str = mirror.strength();
        let trans_str = translational.strength();
        let rot_str = rotational.strength();
        let mt = if mirror_str >= trans_str { mirror_str } else { trans_str };
        let max_str = if mt >= rot_str { mt } else { rot_str };
        let noise = self.noise_threshold;
        if max_str < noise {
            return SymmetryGroup::NoSymmetry;
        }
        let strong_count = (if mirror_str >= noise { 1usize } else { 0 }) + (if trans_str >= noise {
            1usize
        } else {
            0
        }) + (if rot_str >= noise { 1usize } else { 0 });
        let ghost strong = strong_groups(d, noise);
        assert(strong.len() == strong_count);
        if strong_count > 1 {
            let mut groups: Vec<Box<SymmetryGroup>> = Vec::new();
            if mirror_str >= noise {
                groups.push(Box::new(mirror));
            }
            if trans_str >= noise {
                groups.push(Box::new(translational));
            }
            if rot_str >= noise {
                groups.push(Box::new(rotational));
            }
            assert(groups@.map_values(|b: Box<SymmetryGroup>| *b) =~= strong);
            SymmetryGroup::Combined { groups, overall_strength: max_str }
        } else if mirror_str >= trans_str && mirror_str >= rot_str {
            mirror
        } else if trans_str >= rot_str {
            translational
        } else {
            rotational
        }
    }

    /// Health score from symmetry: the strength of the detected symmetry.
    pub fn symmetry_health_score(&self, time_series: &[i64]) -> (score: u64)
        requires
            indexable(time_series@),
        ensures
            score == detected_strength(time_series@, self.spec_noise_threshold()),
    {
        let symmetry = self.detect_metric_symmetry(time_series);
        symmetry.strength()
    }

    /// Mirror symmetry around the center.
    fn detect_mirror(&self, data: &[i64]) -> (g: SymmetryGroup)
        ensures
            g == mirror_group(data@),
    {
        let ghost d = data@;
        let n = data.len();
        let center = n / 2;
        let mut total: u128 = 0;
        let mut count: u128 = 0;
        let mut i: usize = 0;
        while i < center
            invariant
                d == data@,
                n == d.len(),
                center == n / 2,
                0 <= i <= center,
                total == mirror_error(d, i as int),
                count == mirror_count(d, i as int),
                total <= 0x1000_0000_0000_0000 * i,
                count <= i,
            decreases center - i,
        {
            let mirror_idx = n - 1 - i;
            if mirror_idx >= center && mirror_idx < n {
                let e = pair_error_of(data[i], data[mirror_idx]);
                total = total + e as u128;
                count = count + 1;
            }
            i += 1;
        }
        let strength = strength_of(total, count);
        SymmetryGroup::Mirror { center_index: center, strength }
    }

    /// Strength of repetition with period `p`.
    fn period_strength_of(data: &[i64], p: usize) -> (s: u64)
        requires
            2 <= p <= data@.len() / 2,
            data@.len() - 1 + data@.len() / 2 <= usize::MAX,
        ensures
            s == period_strength(data@, p as int),
            s <= PERFECT,
    {
        let ghost d = data@;
        let n = data.len();
        let mut total: u128 = 0;
        let mut count: u128 = 0;
        let mut i: usize = 0;
        while i < n
            invariant
                d == data@,
                n == d.len(),
                2 <= p <= n / 2,
                n - 1 + n / 2 <= usize::MAX,
                0 <= i <= n,
                total == shift_error(d, p as int, i as int),
                count == shift_count(d, p as int, i as int),
                total <= 0x1000_0000_0000_0000 * i,
                count <= i,
            decreases n - i,
        {
            if i + p < n {
                let e = pair_error_of(data[i], data[i + p]);
                total = total + e as u128;
                count = count + 1;
            }
            i += 1;
        }
        strength_of(total, count)
    }

    /// Translational symmetry (periodicity): the strongest period from 2 to half the length.
    fn detect_translational(&self, data: &[i64]) -> (g: SymmetryGroup)
        requires
            indexable(data@),
            data@.len() >= 4,
        ensures
            g == translational_group(data@),
    {
        let ghost d = data@;
        let len = data.len();
        let mut best_period: usize = 2;
        let mut best_strength: u64 = 0;
        let mut period: usize = 2;
        while period <= len / 2
            invariant
                d == data@,
                len == d.len(),
                len >= 4,
                len - 1 + len / 2 <= usize::MAX,
                2 <= period <= len / 2 + 1,
                (best_period as int, best_strength as nat) == strongest_period(d, period - 1),
            decreases len / 2 + 1 - period,
        {
            let s = Self::period_strength_of(data, period);
            if s > best_strength {
                best_strength = s;
                best_period = period;
            }
            period += 1;
        }
        SymmetryGroup::Translational { period: best_period, strength: best_strength }
    }

    /// Strength of rotation by `shift`: how constant `data[i] - data[(i + shift) % len]` is.
    fn shift_strength_of(data: &[i64], shift: usize) -> (s: u64)
        requires
            1 <= shift <= data@.len() / 2,
            data@.len() >= 4,
            data@.len() - 1 + data@.len() / 2 <= usize::MAX,
        ensures
            s == shift_strength(data@, shift as int),
            s <= PERFECT,
    {
        let ghost d = data@;
        let n = data.len();
        let mut total: u128 = 0;
        let mut i: usize = 1;
        while i < n
            invariant
                d == data@,
                n == d.len(),
                n >= 4,
                1 <= shift <= n / 2,
                n - 1 + n / 2 <= usize::MAX,
                1 <= i <= n,
                total == rotation_error(d, shift as int, i as int),
                total <= 0x1000_0000_0000_0000 * i,
            decreases n - i,
        {
            let diff_i: i128 = data[i] as i128 - data[(i + shift) % n] as i128;
            let diff_prev: i128 = data[i - 1] as i128 - data[(i - 1 + shift) % n] as i128;
            let num = abs_of(diff_i - diff_prev);
            let den = abs_of(diff_i) + abs_of(diff_prev);
            let e = ratio_error_of(num, den);
            assert(e == rotation_term(d, i as int, shift as int));
            total = total + e as u128;
            i += 1;
        }
        strength_of(total, (n - 1) as u128)
    }

    /// Rotational symmetry: the strongest shift from 1 to half the length.
    fn detect_rotational(&self, data: &[i64]) -> (g: SymmetryGroup)
        requires
            indexable(data@),
            data@.len() >= 4,
        ensures
            g == rotational_group(data@),
    {
        let ghost d = data@;
        let len = data.len();
        let mut best_shift: usize = 1;
        let mut best_strength: u64 = 0;
        let mut shift: usize = 1;
        while shift <= len / 2
            invariant
                d == data@,
                len == d.len(),
                len >= 4,
                len - 1 + len / 2 <= usize::MAX,
                1 <= shift <= len / 2 + 1,
                (best_shift as int, best_strength as nat) == strongest_shift(d, shift - 1),
            decreases len / 2 + 1 - shift,
        {
            let s = Self::shift_strength_of(data, shift);
            if s > best_strength {
                best_strength = s;
                best_shift = shift;
            }
            shift += 1;
        }
        SymmetryGroup::Rotational { shift: best_shift, strength: best_strength }
    }
}

impl Default for SymmetryDetection {
    /// Noise threshold 0.3.
    fn default() -> (d: Self)
        ensures
            d.spec_noise_threshold() == 300_000,
    {
        Self::new(300_000)
    }
}

} // verus!
