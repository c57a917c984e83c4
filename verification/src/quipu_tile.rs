//! Quipu encoding for tile compression: tile values become hierarchical
//! knot sequences on cords, protected by a positional checksum. A negative tile
//! hangs an empty sign mark before its digits.
use vstd::prelude::*;

verus! {

/// A single knot on a quipu cord.
#[derive(Debug, PartialEq)]
pub enum Knot {
    /// A single knot holding one digit.
    Digit(u8),
    /// A branch point leading to a sub-cord.
    Branch(CordTree),
}

/// A cord tree: the knots of a cord, in order, and their checksum.
#[derive(Debug, PartialEq)]
pub struct CordTree {
    pub knots: Vec<Knot>,
    pub checksum: u64,
}

fn clone_knot(k: &Knot) -> (r: Knot)
    decreases *k,
{
    match k {
        Knot::Digit(d) => Knot::Digit(*d),
        Knot::Branch(c) => Knot::Branch(clone_cord(c)),
    }
}

fn clone_cord(c: &CordTree) -> (r: CordTree)
    decreases *c,
{
    let mut knots: Vec<Knot> = Vec::new();
    let mut i: usize = 0;
    while i < c.knots.len()
        decreases c.knots@.len() - i,
    {
        proof {
            assert(decreases_to!(*c => c.knots@[i as int])) by {
                assert(decreases_to!(*c => c.knots));
                assert(decreases_to!(c.knots => c.knots@));
            }
        }
        knots.push(clone_knot(&c.knots[i]));
        i += 1;
    }
    CordTree { knots, checksum: c.checksum }
}

impl Clone for Knot {
    fn clone(&self) -> Self {
        clone_knot(self)
    }
}

impl Clone for CordTree {
    fn clone(&self) -> Self {
        clone_cord(self)
    }
}

/// Weight of a digit knot at 0-based position `i` on a cord nested `depth` levels deep.
pub open spec fn digit_weight(i: int, depth: int) -> int {
    (i + 1) * depth * 31
}

/// Sum, over every digit knot reachable from `knots`, of the digit times its weight.
pub open spec fn weighted_digit_sum(knots: Seq<Knot>, depth: int) -> int
    decreases knots,
{
    if knots.len() == 0 {
        0
    } else {
        let last = knots.len() - 1;
        weighted_digit_sum(knots.subrange(0, last), depth) + match knots[last] {
            Knot::Digit(d) => d * digit_weight(last, depth),
            Knot::Branch(sub) => weighted_digit_sum(sub.knots@, depth + 1),
        }
    }
}


/// The weight of every digit knot reachable from `knots` fits in a `u64`,
/// and so does every nesting depth: the checksum can be computed without overflow.
pub open spec fn weights_fit(knots: Seq<Knot>, depth: int) -> bool
    decreases knots,
{
    if knots.len() == 0 {
        true
    } else {
        let last = knots.len() - 1;
        &&& weights_fit(knots.subrange(0, last), depth)
        &&& match knots[last] {
            Knot::Digit(_) => digit_weight(last, depth) <= u64::MAX,
            Knot::Branch(sub) => depth + 1 <= u64::MAX && weights_fit(sub.knots@, depth + 1),
        }
    }
}

/// Number of knots reachable from `knots`, the knots of sub-cords included.
pub open spec fn total_knots(knots: Seq<Knot>) -> int
    decreases knots,
{
    if knots.len() == 0 {
        0
    } else {
        let last = knots.len() - 1;
        total_knots(knots.subrange(0, last)) + 1 + match knots[last] {
            Knot::Digit(_) => 0,
            Knot::Branch(sub) => total_knots(sub.knots@),
        }
    }
}

/// The checksum of a cord: the weighted digit sum, wrapped to 64 bits.
pub open spec fn spec_checksum(knots: Seq<Knot>) -> u64 {
    (weighted_digit_sum(knots, 1) % 0x1_0000_0000_0000_0000) as u64
}

/// A cord tree whose checksum can be computed without overflow.
pub open spec fn cord_fits(knots: Seq<Knot>) -> bool {
    weights_fit(knots, 1)
}

proof fn lemma_weights_fit_at(knots: Seq<Knot>, depth: int, i: int)
    requires
        weights_fit(knots, depth),
        0 <= i < knots.len(),
    ensures
        match knots[i] {
            Knot::Digit(_) => digit_weight(i, depth) <= u64::MAX,
            Knot::Branch(sub) => depth + 1 <= u64::MAX && weights_fit(sub.knots@, depth + 1),
        },
    decreases knots.len(),
{
    let last = knots.len() - 1;
    if i < last {
        lemma_weights_fit_at(knots.subrange(0, last), depth, i);
        assert(knots.subrange(0, last)[i] == knots[i]);
    }
}

proof fn lemma_weights_fit_prefix(knots: Seq<Knot>, depth: int, i: int)
    requires
        weights_fit(knots, depth),
        0 <= i <= knots.len(),
    ensures
        weights_fit(knots.subrange(0, i), depth),
    decreases knots.len(),
{
    if i < knots.len() {
        let last = knots.len() - 1;
        lemma_weights_fit_prefix(knots.subrange(0, last), depth, i);
        assert(knots.subrange(0, last).subrange(0, i) =~= knots.subrange(0, i));
    } else {
        assert(knots.subrange(0, i) =~= knots);
    }
}

proof fn lemma_total_knots_nonneg(knots: Seq<Knot>)
    ensures
        total_knots(knots) >= 0,
    decreases knots,
{
    if knots.len() > 0 {
        let last = knots.len() - 1;
        lemma_total_knots_nonneg(knots.subrange(0, last));
        if let Knot::Branch(sub) = knots[last] {
            assert(decreases_to!(knots => sub.knots@)) by {
                assert(decreases_to!(knots => knots[last]));
            }
            lemma_total_knots_nonneg(sub.knots@);
        }
    }
}

proof fn lemma_total_knots_prefix_le(knots: Seq<Knot>, i: int)
    requires
        0 <= i <= knots.len(),
    ensures
        total_knots(knots.subrange(0, i)) <= total_knots(knots),
    decreases knots.len(),
{
    if i < knots.len() {
        let last = knots.len() - 1;
        lemma_total_knots_prefix_le(knots.subrange(0, last), i);
        assert(knots.subrange(0, last).subrange(0, i) =~= knots.subrange(0, i));
        if let Knot::Branch(sub) = knots[last] {
            lemma_total_knots_nonneg(sub.knots@);
        }
    } else {
        assert(knots.subrange(0, i) =~= knots);
    }
}

/// Encoder and decoder of tile values as quipu cords.
#[derive(Debug, Clone)]
pub struct QuipuTile {
    precision: u8,
}

impl CordTree {
    /// Build a cord tree from its knots; the checksum is computed from them.
    pub fn new(knots: Vec<Knot>) -> (cord: Self)
        requires
            cord_fits(knots@),
        ensures
            cord.knots@ == knots@,
            cord.checksum == spec_checksum(knots@),
            cord.is_valid(),
    {
        let checksum = Self::checksum_of(&knots);
        CordTree { knots, checksum }
    }

    /// The cord's stored checksum matches its knots.
    pub open spec fn is_valid(&self) -> bool {
        self.checksum == spec_checksum(self.knots@)
    }

    /// Check the cord tree against its checksum.
    pub fn validate(&self) -> (ok: bool)
        requires
            cord_fits(self.knots@),
        ensures
            ok == self.is_valid(),
    {
        Self::checksum_of(&self.knots) == self.checksum
    }

    /// Count all knots, those on sub-cords included.
    pub fn knot_count(&self) -> (count: usize)
        requires
            total_knots(self.knots@) <= usize::MAX,
        ensures
            count == total_knots(self.knots@),
    {
        let mut count: usize = 0;
        self.count_recursive(&mut count);
        count
    }

    fn count_recursive(&self, count: &mut usize)
        requires
            *old(count) + total_knots(self.knots@) <= usize::MAX,
        ensures
            *final(count) == *old(count) + total_knots(self.knots@),
        decreases self.knots@,
    {
        let ghost c0 = *count as int;
        let ghost all = self.knots@;
        let mut i: usize = 0;
        assert(all.subrange(0, 0) =~= Seq::<Knot>::empty());
        proof {
            lemma_total_knots_prefix_le(all, all.len() as int);
        }
        while i < self.knots.len()
            invariant
                0 <= i <= all.len(),
                all == self.knots@,
                c0 + total_knots(all) <= usize::MAX,
                *count as int == c0 + total_knots(all.subrange(0, i as int)),
            decreases all.len() - i,
        {
            let ghost next = all.subrange(0, i + 1);
            assert(next.subrange(0, i as int) =~= all.subrange(0, i as int));
            assert(next[i as int] == all[i as int]);
            proof {
                lemma_total_knots_prefix_le(all, i + 1);
            }
            match &self.knots[i] {
                Knot::Digit(_) => {
                    *count += 1;
                }
                Knot::Branch(sub) => {
                    proof {
                        lemma_total_knots_nonneg(sub.knots@);
                    }
                    *count += 1;
                    assert(decreases_to!(self.knots@ => sub.knots@)) by {
                        assert(decreases_to!(self.knots@ => self.knots@[i as int]));
                    }
                    sub.count_recursive(count);
                }
            }
            i += 1;
        }
        assert(all.subrange(0, all.len() as int) =~= all);
    }

    /// The checksum and the knot count of this cord can be computed without overflow:
    /// what `validate`, `knot_count` and decoding need.
    pub fn within_limits(&self) -> (ok: bool)
        ensures
            ok == (cord_fits(self.knots@) && total_knots(self.knots@) <= usize::MAX),
    {
        Self::scan_limits(&self.knots, 1, usize::MAX).is_some()
    }

    /// Number of knots reachable from `knots`, when their weights at `depth` fit and that
    /// number is at most `budget`.
    fn scan_limits(knots: &Vec<Knot>, depth: u64, budget: usize) -> (r: Option<usize>)
        requires
            depth >= 1,
        ensures
            r is Some <==> (weights_fit(knots@, depth as int) && total_knots(knots@) <= budget),
            r matches Some(total) ==> total == total_knots(knots@),
        decreases knots@,
    {
        let ghost all = knots@;
        let mut count: usize = 0;
        let mut i: usize = 0;
        assert(all.subrange(0, 0) =~= Seq::<Knot>::empty());
        proof {
            lemma_total_knots_nonneg(all);
        }
        while i < knots.len()
            invariant
                all == knots@,
                depth >= 1,
                0 <= i <= all.len(),
                weights_fit(all.subrange(0, i as int), depth as int),
                count == total_knots(all.subrange(0, i as int)),
                count <= budget,
            decreases all.len() - i,
        {
            let ghost prefix = all.subrange(0, i as int);
            let ghost next = all.subrange(0, i + 1);
            assert(next.subrange(0, i as int) =~= prefix);
            assert(next[i as int] == all[i as int]);
            proof {
                lemma_total_knots_prefix_le(all, i + 1);
            }
            if count == budget {
                proof {
                    if let Knot::Branch(sub) = all[i as int] {
                        lemma_total_knots_nonneg(sub.knots@);
                    }
                }
                return None;
            }
            match &knots[i] {
                Knot::Digit(_) => {
                    let w = match (i as u64 + 1).checked_mul(depth) {
                        Some(x) => x.checked_mul(31),
                        None => None,
                    };
                    if w.is_none() {
                        proof {
                            if weights_fit(all, depth as int) {
                                lemma_weights_fit_at(all, depth as int, i as int);
                                assert((i + 1) * depth <= (i + 1) * depth * 31) by (nonlinear_arith)
                                    requires i + 1 >= 1, depth >= 1;
                            }
                        }
                        return None;
                    }
                    count += 1;
                }
                Knot::Branch(sub) => {
                    if depth == u64::MAX {
                        proof {
                            if weights_fit(all, depth as int) {
                                lemma_weights_fit_at(all, depth as int, i as int);
                            }
                        }
                        return None;
                    }
                    assert(decreases_to!(knots@ => sub.knots@)) by {
                        assert(decreases_to!(knots@ => knots@[i as int]));
                    }
                    match Self::scan_limits(&sub.knots, depth + 1, budget - count - 1) {
                        Some(inner) => {
                            count = count + 1 + inner;
                        }
                        None => {
                            proof {
                                if weights_fit(all, depth as int) {
                                    lemma_weights_fit_at(all, depth as int, i as int);
                                }
                            }
                            return None;
                        }
                    }
                }
            }
            i += 1;
        }
        assert(all.subrange(0, all.len() as int) =~= all);
        Some(count)
    }

    fn checksum_of(knots: &Vec<Knot>) -> (hash: u64)
        requires
            cord_fits(knots@),
        ensures
            hash == spec_checksum(knots@),
    {
        let mut hash: u64 = 0;
        Self::hash_knots(knots, &mut hash, 1);
        hash
    }

    /// Add to `hash`, with wrap-around, every digit times its weight.
    fn hash_knots(knots: &Vec<Knot>, hash: &mut u64, depth: u64)
        requires
            depth >= 1,
            weights_fit(knots@, depth as int),
        ensures
            *final(hash) as int == (*old(hash) as int + weighted_digit_sum(knots@, depth as int))
                % 0x1_0000_0000_0000_0000,
        decreases knots@,
    {
        let ghost h0 = *hash as int;
        let ghost m: int = 0x1_0000_0000_0000_0000;
        let mut i: usize = 0;
        assert(knots@.subrange(0, 0) =~= Seq::<Knot>::empty());
        assert(h0 % m == h0);
        while i < knots.len()
            invariant
                0 <= i <= knots.len(),
                depth >= 1,
                weights_fit(knots@, depth as int),
                *hash as int == (h0 + weighted_digit_sum(knots@.subrange(0, i as int), depth as int)) % m,
                m == 0x1_0000_0000_0000_0000,
            decreases knots.len() - i,
        {
            let ghost prefix = knots@.subrange(0, i as int);
            let ghost next = knots@.subrange(0, i + 1);
            assert(next.subrange(0, i as int) =~= prefix);
            assert(next[i as int] == knots@[i as int]);
            proof {
                lemma_weights_fit_at(knots@, depth as int, i as int);
            }
            match &knots[i] {
                Knot::Digit(d) => {
                    let w: u64 = (i as u64 + 1) * depth * 31;
                    let term = (*d as u64).wrapping_mul(w);
                    let ghost old_hash = *hash as int;
                    *hash = hash.wrapping_add(term);
                    proof {
                        let s = weighted_digit_sum(prefix, depth as int);
                        let t = *d as int * w as int;
                        assert(w as int == digit_weight(i as int, depth as int));
                        assert(weighted_digit_sum(next, depth as int) == s + t);
                        assert(term as int == t % m);
                        assert(*hash as int == (old_hash + term as int) % m);
                        vstd::arithmetic::div_mod::lemma_add_mod_noop(h0 + s, t, m);
                        vstd::arithmetic::div_mod::lemma_mod_twice(t, m);
                        vstd::arithmetic::div_mod::lemma_mod_twice(h0 + s, m);
                        vstd::arithmetic::div_mod::lemma_add_mod_noop(old_hash, term as int, m);
                        assert((h0 + s + t) % m == *hash as int);
                    }
                }
                Knot::Branch(sub) => {
                    let ghost old_hash = *hash as int;
                    assert(decreases_to!(knots@ => sub.knots@)) by {
                        assert(decreases_to!(knots@ => knots@[i as int]));
                    }
                    Self::hash_knots(&sub.knots, hash, depth + 1);
                    proof {
                        let s = weighted_digit_sum(prefix, depth as int);
                        let t = weighted_digit_sum(sub.knots@, depth + 1);
                        assert(weighted_digit_sum(next, depth as int) == s + t);
                        vstd::arithmetic::div_mod::lemma_add_mod_noop(h0 + s, t, m);
                        vstd::arithmetic::div_mod::lemma_add_mod_noop(old_hash, t, m);
                        vstd::arithmetic::div_mod::lemma_mod_twice(t, m);
                        vstd::arithmetic::div_mod::lemma_mod_twice(h0 + s, m);
                        assert((h0 + s + t) % m == *hash as int);
                    }
                }
            }
            i += 1;
        }
        assert(knots@.subrange(0, knots@.len() as int) =~= knots@);
    }
}


/// Decimal digits of `v`, most significant first, without leading zeros
/// (zero has the single digit 0).
pub open spec fn digits_of(v: nat) -> Seq<u8>
    decreases v,
{
    if v < 10 {
        seq![v as u8]
    } else {
        digits_of(v / 10).push((v % 10) as u8)
    }
}

/// One digit knot per digit, in order.
pub open spec fn digit_knots(digits: Seq<u8>) -> Seq<Knot> {
    digits.map_values(|d: u8| Knot::Digit(d))
}

/// Magnitude of a scaled tile value.
pub open spec fn magnitude(v: i64) -> nat {
    if v < 0 { (-v) as nat } else { v as nat }
}

/// `knot` is the encoding of the scaled tile `v`. A tile of zero or more whose magnitude
/// has one digit is a lone digit knot; any other tile is a valid branch whose sub-cord
/// holds the digits of its magnitude, after a sign mark when the tile is negative.
pub open spec fn encodes_value(knot: Knot, v: i64) -> bool {
    let digits = digits_of(magnitude(v));
    match knot {
        Knot::Digit(d) => v >= 0 && digits.len() == 1 && d == digits[0],
        Knot::Branch(sub) => {
            &&& sub.is_valid()
            &&& if v < 0 {
                &&& sub.knots@.len() == digits.len() + 1
                &&& is_sign_mark(sub.knots@[0])
                &&& sub.knots@.drop_first() == digit_knots(digits)
            } else {
                digits.len() > 1 && sub.knots@ == digit_knots(digits)
            }
        },
    }
}

/// Errors reported when decoding a cord.
#[derive(Debug, Clone, Copy, PartialEq, Eq)]
pub enum QuipuError {
    /// The stored checksum does not match the knots: the cord is corrupted.
    ChecksumMismatch,
    /// A sub-cord holds a further branch other than a leading sign mark.
    NestedBranch,
}

/// A decoded tile: its sign and the decimal digits of its magnitude, most significant
/// first. Its value is that many `10^-precision` units, negated when `negative`.
#[derive(Debug, Clone, PartialEq, Eq)]
pub struct DecodedTile {
    pub negative: bool,
    pub digits: Vec<u8>,
}

impl View for DecodedTile {
    type V = (bool, Seq<u8>);

    open spec fn view(&self) -> (bool, Seq<u8>) {
        (self.negative, self.digits@)
    }
}

/// Value of a sequence of decimal digits read as a base-10 number.
pub open spec fn digits_value(digits: Seq<u8>) -> nat
    decreases digits.len(),
{
    if digits.len() == 0 {
        0
    } else {
        digits_value(digits.drop_last()) * 10 + digits.last() as nat
    }
}

/// The number of `10^-precision` units a decoded tile stands for.
pub open spec fn tile_number(tile: (bool, Seq<u8>)) -> int {
    if tile.0 { -(digits_value(tile.1) as int) } else { digits_value(tile.1) as int }
}

/// Some knot of `knots` is a branch.
pub open spec fn has_branch(knots: Seq<Knot>) -> bool {
    exists|j: int| 0 <= j < knots.len() && knots[j] is Branch
}

/// The sign mark: a branch with no knots, hung first on the sub-cord of a negative tile.
pub open spec fn is_sign_mark(knot: Knot) -> bool {
    knot matches Knot::Branch(m) && m.knots@.len() == 0
}

/// The digits of digit knots (a branch knot counts as 0).
pub open spec fn knot_digits(knots: Seq<Knot>) -> Seq<u8> {
    knots.map_values(|k: Knot| match k {
        Knot::Digit(d) => d,
        Knot::Branch(_) => 0u8,
    })
}

/// The tile that one top-level knot stands for: a digit knot is that digit; a branch holds
/// the digits, after a sign mark when the tile is negative; any other branch within a
/// branch is an error.
pub open spec fn tile_value(knot: Knot) -> Result<(bool, Seq<u8>), QuipuError> {
    match knot {
        Knot::Digit(d) => Ok((false, seq![d])),
        Knot::Branch(sub) => {
            let ks = sub.knots@;
            if ks.len() > 0 && is_sign_mark(ks[0]) && !has_branch(ks.drop_first()) {
                Ok((true, knot_digits(ks.drop_first())))
            } else if has_branch(ks) {
                Err(QuipuError::NestedBranch)
            } else {
                Ok((false, knot_digits(ks)))
            }
        },
    }
}

/// Tiles of the top-level knots, in order, or the error of the first knot that has none.
pub open spec fn tile_values(knots: Seq<Knot>) -> Result<Seq<(bool, Seq<u8>)>, QuipuError>
    decreases knots.len(),
{
    if knots.len() == 0 {
        Ok(Seq::empty())
    } else {
        match tile_values(knots.drop_last()) {
            Err(e) => Err(e),
            Ok(vs) => match tile_value(knots.last()) {
                Err(e) => Err(e),
                Ok(v) => Ok(vs.push(v)),
            },
        }
    }
}

/// What decoding a cord gives: a checksum error, or the tiles.
pub open spec fn decoded(cord: CordTree) -> Result<Seq<(bool, Seq<u8>)>, QuipuError> {
    if !cord.is_valid() {
        Err(QuipuError::ChecksumMismatch)
    } else {
        tile_values(cord.knots@)
    }
}

/// The tile that the scaled value `v` is encoded as: its sign and its digits.
pub open spec fn encoded_tile(v: i64) -> (bool, Seq<u8>) {
    (v < 0, digits_of(magnitude(v)))
}

/// Ten to the power `n`.
pub open spec fn pow10(n: nat) -> nat
    decreases n,
{
    if n == 0 { 1 } else { 10 * pow10((n - 1) as nat) }
}

proof fn lemma_digits_of_len(v: nat)
    ensures
        digits_of(v).len() >= 1,
        v < 10 <==> digits_of(v).len() == 1,
        forall|j: int| 0 <= j < digits_of(v).len() ==> digits_of(v)[j] < 10,
    decreases v,
{
    if v >= 10 {
        lemma_digits_of_len(v / 10);
    }
}

proof fn lemma_digits_len_bound(v: nat, n: nat)
    requires
        n >= 1,
        v < pow10(n),
    ensures
        digits_of(v).len() <= n,
    decreases n,
{
    if v >= 10 {
        if n == 1 {
            assert(pow10(1) == 10) by {
                reveal_with_fuel(pow10, 2);
            }
        } else {
            assert(v / 10 < pow10((n - 1) as nat)) by (nonlinear_arith)
                requires v < 10 * pow10((n - 1) as nat);
            lemma_digits_len_bound(v / 10, (n - 1) as nat);
        }
    }
}

proof fn lemma_digits_of_short(v: nat)
    requires
        v <= u64::MAX,
    ensures
        digits_of(v).len() <= 20,
{
    assert(pow10(20) == 100_000_000_000_000_000_000) by {
        reveal_with_fuel(pow10, 21);
    }
    lemma_digits_len_bound(v, 20);
}

proof fn lemma_digits_value_of(v: nat)
    ensures
        digits_value(digits_of(v)) == v,
    decreases v,
{
    let ds = digits_of(v);
    if v < 10 {
        assert(ds.drop_last() =~= Seq::<u8>::empty());
        assert(digits_value(Seq::<u8>::empty()) == 0);
        assert(ds.last() as nat == v);
    } else {
        lemma_digits_value_of(v / 10);
        assert(ds.drop_last() =~= digits_of(v / 10));
        assert(ds.last() as nat == v % 10);
        assert((v / 10) * 10 + v % 10 == v) by (nonlinear_arith);
    }
}

proof fn lemma_digit_knots_plain(ds: Seq<u8>)
    ensures
        knot_digits(digit_knots(ds)) == ds,
        !has_branch(digit_knots(ds)),
{
    let ks = digit_knots(ds);
    assert(knot_digits(ks) =~= ds);
    assert forall|j: int| 0 <= j < ks.len() implies !(ks[j] is Branch) by {
        assert(ks[j] == Knot::Digit(ds[j]));
    }
}

/// Weights fit for a cord made of the digit knots of `digits` at the given depth.
proof fn lemma_digit_knots_fit(digits: Seq<u8>, depth: int)
    requires
        1 <= depth,
        (digits.len() + 1) * depth * 31 <= u64::MAX,
    ensures
        weights_fit(digit_knots(digits), depth),
    decreases digits.len(),
{
    let ks = digit_knots(digits);
    if digits.len() > 0 {
        let last = ks.len() - 1;
        assert(ks.subrange(0, last) =~= digit_knots(digits.drop_last()));
        assert((digits.drop_last().len() + 1) * depth * 31 <= (digits.len() + 1) * depth * 31)
            by (nonlinear_arith)
            requires digits.drop_last().len() + 1 == digits.len(), 1 <= depth;
        lemma_digit_knots_fit(digits.drop_last(), depth);
        assert(ks[last] == Knot::Digit(digits[last]));
        assert(digit_weight(last, depth) <= (digits.len() + 1) * depth * 31) by (nonlinear_arith)
            requires last < digits.len(), 1 <= depth;
    }
}

proof fn lemma_total_knots_signed(mark: Knot, digits: Seq<u8>)
    requires
        is_sign_mark(mark),
    ensures
        total_knots(seq![mark] + digit_knots(digits)) == digits.len() + 1,
    decreases digits.len(),
{
    let ks = seq![mark] + digit_knots(digits);
    let last = ks.len() - 1;
    if digits.len() == 0 {
        assert(ks.subrange(0, last) =~= Seq::<Knot>::empty());
        assert(total_knots(Seq::<Knot>::empty()) == 0);
        assert(ks[last] == mark);
        if let Knot::Branch(m) = mark {
            assert(m.knots@ =~= Seq::<Knot>::empty());
            assert(total_knots(m.knots@) == 0);
        }
    } else {
        assert(ks.subrange(0, last) =~= seq![mark] + digit_knots(digits.drop_last()));
        lemma_total_knots_signed(mark, digits.drop_last());
        assert(ks[last] == Knot::Digit(digits[last - 1]));
    }
}

/// Weights fit for a sub-cord made of a sign mark followed by the digit knots of `digits`.
proof fn lemma_signed_knots_fit(mark: Knot, digits: Seq<u8>, depth: int)
    requires
        1 <= depth,
        is_sign_mark(mark),
        (digits.len() + 2) * depth * 31 <= u64::MAX,
    ensures
        weights_fit(seq![mark] + digit_knots(digits), depth),
    decreases digits.len(),
{
    let ks = seq![mark] + digit_knots(digits);
    let last = ks.len() - 1;
    if digits.len() == 0 {
        assert(ks.subrange(0, last) =~= Seq::<Knot>::empty());
        assert(weights_fit(Seq::<Knot>::empty(), depth));
        assert(ks[last] == mark);
        assert(depth + 1 <= u64::MAX) by (nonlinear_arith)
            requires 2 * depth * 31 <= u64::MAX, 1 <= depth;
        if let Knot::Branch(m) = mark {
            assert(m.knots@ =~= Seq::<Knot>::empty());
            assert(weights_fit(m.knots@, depth + 1));
        }
    } else {
        assert(ks.subrange(0, last) =~= seq![mark] + digit_knots(digits.drop_last()));
        assert((digits.drop_last().len() + 2) * depth * 31 <= (digits.len() + 2) * depth * 31)
            by (nonlinear_arith)
            requires digits.drop_last().len() + 1 == digits.len(), 1 <= depth;
        lemma_signed_knots_fit(mark, digits.drop_last(), depth);
        assert(ks[last] == Knot::Digit(digits[last - 1]));
        assert(digit_weight(last, depth) <= (digits.len() + 2) * depth * 31) by (nonlinear_arith)
            requires last == digits.len(), 1 <= depth;
    }
}

impl QuipuTile {
    /// A codec that keeps `precision` decimal places of each tile.
    pub fn new(precision: u8) -> (q: Self)
        ensures
            q.spec_precision() == precision,
    {
        QuipuTile { precision }
    }

    /// Decimal places kept of each tile.
    pub closed spec fn spec_precision(&self) -> u8 {
        self.precision
    }

    /// Decimal places kept of each tile.
    pub fn precision(&self) -> (p: u8)
        ensures
            p == self.spec_precision(),
    {
        self.precision
    }

    /// The digit knots of `value`, most significant first.
    fn value_to_knots(&self, value: u64) -> (knots: Vec<Knot>)
        ensures
            knots@ == digit_knots(digits_of(value as nat)),
    {
        if value == 0 {
            let mut knots = Vec::new();
            knots.push(Knot::Digit(0));
            assert(knots@ =~= digit_knots(digits_of(0)));
            return knots;
        }
        let mut digits: Vec<Knot> = Vec::new();
        let mut v: u64 = value;
        while v > 0
            invariant
                value > 0,
                v > 0 ==> digit_knots(digits_of(value as nat)) =~= digit_knots(digits_of(v as nat)) + digits@,
                v == 0 ==> digit_knots(digits_of(value as nat)) =~= digits@,
            decreases v,
        {
            let d = (v % 10) as u8;
            let ghost old_digits = digits@;
            let ghost old_v = v as nat;
            digits.insert(0, Knot::Digit(d));
            v = v / 10;
            proof {
                if old_v >= 10 {
                    assert(digit_knots(digits_of(old_v)) =~= digit_knots(digits_of(v as nat)).push(Knot::Digit(d)));
                } else {
                    assert(digit_knots(digits_of(old_v)) =~= seq![Knot::Digit(d)]);
                }
            }
        }
        digits
    }

    /// Encode tile values, each already scaled to a whole number of
    /// `10^-precision` units, as a cord tree; a negative tile keeps its sign as a sign mark.
    pub fn encode_tiles(&self, scaled: &[i64]) -> (cord: CordTree)
        requires
            forall|i: int| 0 <= i < scaled@.len() ==> scaled@[i] > i64::MIN,
            scaled@.len() * 31 <= u64::MAX,
        ensures
            cord.is_valid(),
            cord_fits(cord.knots@),
            cord.knots@.len() == scaled@.len(),
            forall|i: int| 0 <= i < scaled@.len() ==> encodes_value(#[trigger] cord.knots@[i], scaled@[i]),
            total_knots(cord.knots@) <= 22 * scaled@.len(),
    {
        let mut knots: Vec<Knot> = Vec::new();
        let mut i: usize = 0;
        while i < scaled.len()
            invariant
                0 <= i <= scaled@.len(),
                knots@.len() == i,
                forall|k: int| 0 <= k < scaled@.len() ==> scaled@[k] > i64::MIN,
                scaled@.len() * 31 <= u64::MAX,
                forall|k: int| 0 <= k < i ==> encodes_value(#[trigger] knots@[k], scaled@[k]),
                weights_fit(knots@, 1),
                total_knots(knots@) <= 22 * i,
            decreases scaled@.len() - i,
        {
            let v = scaled[i];
            let m: u64 = if v < 0 { (-v) as u64 } else { v as u64 };
            assert(m as nat == magnitude(scaled@[i as int]));
            let digits = self.value_to_knots(m);
            proof {
                lemma_digits_of_len(m as nat);
                lemma_digits_of_short(m as nat);
            }
            let ghost ds = digits_of(m as nat);
            let knot = if v >= 0 && digits.len() == 1 {
                assert(digits@[0] == Knot::Digit(ds[0]));
                match &digits[0] {
                    Knot::Digit(d) => Knot::Digit(*d),
                    Knot::Branch(_) => Knot::Digit(0),
                }
            } else if v >= 0 {
                proof {
                    lemma_digit_knots_fit(ds, 2);
                    lemma_digit_knots_fit(ds, 1);
                }
                Knot::Branch(CordTree::new(digits))
            } else {
                let mut signed = digits;
                let empty = CordTree::new(Vec::new());
                assert(empty.knots@ =~= Seq::<Knot>::empty());
                let mark = Knot::Branch(empty);
                let ghost gmark = mark;
                assert(is_sign_mark(gmark));
                signed.insert(0, mark);
                assert(signed@ =~= seq![gmark] + digit_knots(ds));
                proof {
                    lemma_signed_knots_fit(gmark, ds, 2);
                    lemma_signed_knots_fit(gmark, ds, 1);
                    lemma_total_knots_signed(gmark, ds);
                    assert(signed@.drop_first() =~= digit_knots(ds));
                }
                Knot::Branch(CordTree::new(signed))
            };
            let ghost old_knots = knots@;
            knots.push(knot);
            proof {
                assert(knots@.subrange(0, i as int) =~= old_knots);
                assert(knots@[i as int] == knot);
                assert(digit_weight(i as int, 1) <= u64::MAX) by (nonlinear_arith)
                    requires i < scaled@.len(), scaled@.len() * 31 <= u64::MAX;
                lemma_total_knots_digits(digits_of(m as nat));
            }
            i += 1;
        }
        CordTree::new(knots)
    }

    /// Decode a cord tree into its tiles: the sign and the digits of each, a whole number of
    /// `10^-precision` units.
    pub fn decode_tiles(&self, cord: &CordTree) -> (values: Result<Vec<DecodedTile>, QuipuError>)
        requires
            cord_fits(cord.knots@),
        ensures
            match values {
                Ok(vs) => decoded(*cord) == Ok::<Seq<(bool, Seq<u8>)>, QuipuError>(
                    vs@.map_values(|t: DecodedTile| t@),
                ),
                Err(e) => decoded(*cord) == Err::<Seq<(bool, Seq<u8>)>, QuipuError>(e),
            },
    {
        if !cord.validate() {
            return Err(QuipuError::ChecksumMismatch);
        }
        let mut values: Vec<DecodedTile> = Vec::new();
        let mut i: usize = 0;
        assert(values@.map_values(|t: DecodedTile| t@) =~= Seq::<(bool, Seq<u8>)>::empty());
        while i < cord.knots.len()
            invariant
                0 <= i <= cord.knots@.len(),
                cord.is_valid(),
                tile_values(cord.knots@.subrange(0, i as int)) == Ok::<Seq<(bool, Seq<u8>)>, QuipuError>(
                    values@.map_values(|t: DecodedTile| t@),
                ),
            decreases cord.knots@.len() - i,
        {
            let ghost next = cord.knots@.subrange(0, i + 1);
            assert(next.drop_last() =~= cord.knots@.subrange(0, i as int));
            assert(next.last() == cord.knots@[i as int]);
            match self.knot_to_value(&cord.knots[i]) {
                Ok(v) => {
                    let ghost before = values@.map_values(|t: DecodedTile| t@);
                    let ghost tv = v@;
                    values.push(v);
                    assert(values@.map_values(|t: DecodedTile| t@) =~= before.push(tv));
                }
                Err(e) => {
                    assert(tile_values(next) == Err::<Seq<(bool, Seq<u8>)>, QuipuError>(e));
                    proof {
                        lemma_tile_values_error_persists(cord.knots@, i + 1, e);
                    }
                    return Err(e);
                }
            }
            i += 1;
        }
        assert(cord.knots@.subrange(0, cord.knots@.len() as int) =~= cord.knots@);
        Ok(values)
    }

    /// The tile that one top-level knot stands for.
    fn knot_to_value(&self, knot: &Knot) -> (r: Result<DecodedTile, QuipuError>)
        ensures
            match r {
                Ok(t) => tile_value(*knot) == Ok::<(bool, Seq<u8>), QuipuError>(t@),
                Err(e) => tile_value(*knot) == Err::<(bool, Seq<u8>), QuipuError>(e),
            },
    {
        match knot {
            Knot::Digit(d) => {
                let mut digits: Vec<u8> = Vec::new();
                digits.push(*d);
                assert(digits@ =~= seq![*d]);
                Ok(DecodedTile { negative: false, digits })
            },
            Knot::Branch(sub) => {
                let ghost ks = sub.knots@;
                let n = sub.knots.len();
                let negative = n > 0 && match &sub.knots[0] {
                    Knot::Branch(m) => m.knots.len() == 0,
                    Knot::Digit(_) => false,
                };
                assert(negative == (ks.len() > 0 && is_sign_mark(ks[0])));
                let start: usize = if negative { 1 } else { 0 };
                let mut digits: Vec<u8> = Vec::new();
                let mut j: usize = start;
                assert(knot_digits(ks.subrange(start as int, start as int)) =~= Seq::<u8>::empty());
                while j < n
                    invariant
                        *knot == Knot::Branch(*sub),
                        ks == sub.knots@,
                        n == ks.len(),
                        start <= j <= n,
                        start == (if negative { 1usize } else { 0usize }),
                        negative == (ks.len() > 0 && is_sign_mark(ks[0])),
                        negative ==> n > 0,
                        forall|k: int| start <= k < j ==> !(ks[k] is Branch),
                        digits@ == knot_digits(ks.subrange(start as int, j as int)),
                    decreases n - j,
                {
                    match &sub.knots[j] {
                        Knot::Branch(_) => {
                            proof {
                                assert(ks[j as int] is Branch);
                                assert(has_branch(ks));
                                if negative {
                                    assert(ks.drop_first()[j - 1] == ks[j as int]);
                                    assert(has_branch(ks.drop_first()));
                                }
                            }
                            return Err(QuipuError::NestedBranch);
                        },
                        Knot::Digit(d) => {
                            let ghost before = digits@;
                            digits.push(*d);
                            assert(knot_digits(ks.subrange(start as int, j + 1)) =~= before.push(*d));
                        },
                    }
                    j += 1;
                }
                proof {
                    if negative {
                        assert(ks.subrange(1, n as int) =~= ks.drop_first());
                        assert forall|k: int| 0 <= k < ks.drop_first().len() implies !(ks.drop_first()[k] is Branch) by {
                            assert(ks.drop_first()[k] == ks[k + 1]);
                        }
                    } else {
                        assert(ks.subrange(0, n as int) =~= ks);
                        assert(!has_branch(ks));
                    }
                }
                Ok(DecodedTile { negative, digits })
            },
        }
    }
}

impl Default for QuipuTile {
    /// One decimal place.
    fn default() -> (q: Self)
        ensures
            q.spec_precision() == 1,
    {
        QuipuTile::new(1)
    }
}

proof fn lemma_total_knots_digits(digits: Seq<u8>)
    ensures
        total_knots(digit_knots(digits)) == digits.len(),
    decreases digits.len(),
{
    if digits.len() > 0 {
        let ks = digit_knots(digits);
        assert(ks.subrange(0, ks.len() - 1) =~= digit_knots(digits.drop_last()));
        lemma_total_knots_digits(digits.drop_last());
    }
}

proof fn lemma_tile_values_error_persists(knots: Seq<Knot>, i: int, e: QuipuError)
    requires
        0 < i <= knots.len(),
        tile_values(knots.subrange(0, i)) == Err::<Seq<(bool, Seq<u8>)>, QuipuError>(e),
    ensures
        tile_values(knots) == Err::<Seq<(bool, Seq<u8>)>, QuipuError>(e),
    decreases knots.len() - i,
{
    if i < knots.len() {
        let next = knots.subrange(0, i + 1);
        assert(next.drop_last() =~= knots.subrange(0, i));
        lemma_tile_values_error_persists(knots, i + 1, e);
    } else {
        assert(knots.subrange(0, i) =~= knots);
    }
}

/// A knot that encodes the scaled tile `v` decodes to the sign and digits of `v`.
proof fn lemma_tile_value_of_encoding(knot: Knot, v: i64)
    requires
        encodes_value(knot, v),
    ensures
        tile_value(knot) == Ok::<(bool, Seq<u8>), QuipuError>(encoded_tile(v)),
{
    let ds = digits_of(magnitude(v));
    lemma_digits_of_len(magnitude(v));
    lemma_digit_knots_plain(ds);
    match knot {
        Knot::Digit(d) => {
            assert(ds =~= seq![d]);
        },
        Knot::Branch(sub) => {
            let ks = sub.knots@;
            if v < 0 {
                assert(ks.drop_first() == digit_knots(ds));
            } else {
                assert(ks == digit_knots(ds));
                if ks.len() > 0 && is_sign_mark(ks[0]) {
                    assert(ks[0] == Knot::Digit(ds[0]));
                }
            }
        },
    }
}

proof fn lemma_tile_values_of_encodings(knots: Seq<Knot>, scaled: Seq<i64>)
    requires
        knots.len() == scaled.len(),
        forall|i: int| 0 <= i < scaled.len() ==> encodes_value(#[trigger] knots[i], scaled[i]),
    ensures
        tile_values(knots) == Ok::<Seq<(bool, Seq<u8>)>, QuipuError>(scaled.map_values(|v: i64| encoded_tile(v))),
    decreases knots.len(),
{
    if knots.len() == 0 {
        assert(scaled.map_values(|v: i64| encoded_tile(v)) =~= Seq::<(bool, Seq<u8>)>::empty());
    } else {
        let last = knots.len() - 1;
        assert forall|i: int| 0 <= i < scaled.drop_last().len() implies encodes_value(
            #[trigger] knots.drop_last()[i],
            scaled.drop_last()[i],
        ) by {
            assert(knots.drop_last()[i] == knots[i]);
        }
        lemma_tile_values_of_encodings(knots.drop_last(), scaled.drop_last());
        assert(encodes_value(knots[last], scaled[last]));
        lemma_tile_value_of_encoding(knots.last(), scaled[last]);
        assert(scaled.map_values(|v: i64| encoded_tile(v)) =~= scaled.drop_last().map_values(
            |v: i64| encoded_tile(v),
        ).push(encoded_tile(scaled[last])));
    }
}

/// Round trip: decoding a cord that `QuipuTile::encode_tiles` built from scaled tiles
/// gives back every tile, in order, with its sign: each decoded tile stands for exactly
/// the scaled value it was encoded from.
pub proof fn lemma_decode_after_encode(scaled: Seq<i64>, cord: CordTree)
    requires
        cord.is_valid(),
        cord.knots@.len() == scaled.len(),
        forall|i: int| 0 <= i < scaled.len() ==> encodes_value(#[trigger] cord.knots@[i], scaled[i]),
    ensures
        decoded(cord) == Ok::<Seq<(bool, Seq<u8>)>, QuipuError>(scaled.map_values(|v: i64| encoded_tile(v))),
        forall|i: int| 0 <= i < scaled.len() ==> tile_number(#[trigger] encoded_tile(scaled[i])) == scaled[i],
{
    lemma_tile_values_of_encodings(cord.knots@, scaled);
    assert forall|i: int| 0 <= i < scaled.len() implies tile_number(#[trigger] encoded_tile(scaled[i])) == scaled[i] by {
        lemma_digits_value_of(magnitude(scaled[i]));
    }
}

/// Corruption is detected: a cord whose stored checksum no longer matches the one its
/// knots were sealed with fails validation, and decoding it reports a checksum mismatch.
pub proof fn lemma_altered_checksum_detected(sealed: CordTree, altered: CordTree)
    requires
        sealed.is_valid(),
        altered.knots@ == sealed.knots@,
        altered.checksum != sealed.checksum,
    ensures
        !altered.is_valid(),
        decoded(altered) == Err::<Seq<(bool, Seq<u8>)>, QuipuError>(QuipuError::ChecksumMismatch),
{
}

} // verus!
