//! Palaver consensus for room configuration: rooms negotiate their settings by
//! iterative convergence toward the mean, sitting together until agreement.
//!
//! Setting values are fixed-point numbers in millionths (1_000_000 stands for 1.0).
//! Negotiation is exact: means are kept as sums over counts, and every move as a
//! numerator over a count times a power of two.
use vstd::prelude::*;
use vstd::arithmetic::power2::{pow2, lemma_pow2_unfold, lemma_pow2_strictly_increases, lemma_pow2_adds, lemma2_to64, lemma_pow2_pos};
use vstd::arithmetic::div_mod::{lemma_fundamental_div_mod, lemma_fundamental_div_mod_converse_div, lemma_div_multiples_vanish, lemma_div_is_ordered};

verus! {

/// Settings entries as key and value.
pub type Entries = Seq<(Seq<char>, i64)>;

/// Position of the first entry with key `k`; `s.len()` when there is none.
pub open spec fn key_index(s: Entries, k: Seq<char>) -> int
    decreases s.len(),
{
    if s.len() == 0 {
        0
    } else if s[0].0 == k {
        0
    } else {
        1 + key_index(s.drop_first(), k)
    }
}

/// Value of key `k`, if set.
pub open spec fn lookup(s: Entries, k: Seq<char>) -> Option<i64> {
    let i = key_index(s, k);
    if i < s.len() { Some(s[i].1) } else { None }
}

/// Entries after setting key `k` to `v`: the entry of `k` is replaced, or a new one comes last.
pub open spec fn set_entry(s: Entries, k: Seq<char>, v: i64) -> Entries {
    let i = key_index(s, k);
    if i < s.len() { s.update(i, (k, v)) } else { s.push((k, v)) }
}

/// No two entries share a key.
pub open spec fn keys_distinct(s: Entries) -> bool {
    forall|i: int, j: int| 0 <= i < j < s.len() ==> s[i].0 != s[j].0
}

proof fn lemma_key_index(s: Entries, k: Seq<char>, j: int)
    requires
        0 <= j <= s.len(),
        forall|q: int| 0 <= q < j ==> s[q].0 != k,
        j == s.len() || s[j].0 == k,
    ensures
        key_index(s, k) == j,
    decreases j,
{
    if j > 0 {
        lemma_key_index(s.drop_first(), k, j - 1);
    }
}

proof fn lemma_key_index_bounds(s: Entries, k: Seq<char>)
    ensures
        0 <= key_index(s, k) <= s.len(),
        key_index(s, k) < s.len() ==> s[key_index(s, k)].0 == k,
        forall|q: int| 0 <= q < key_index(s, k) ==> s[q].0 != k,
    decreases s.len(),
{
    if s.len() > 0 && s[0].0 != k {
        lemma_key_index_bounds(s.drop_first(), k);
        assert forall|q: int| 0 <= q < key_index(s, k) implies s[q].0 != k by {
            if q > 0 {
                assert(s[q] == s.drop_first()[q - 1]);
            }
        }
    }
}

/// What is set is what is read back: after setting key `k` to `v`, reading `k` gives `v`,
/// and every other key reads as before.
pub proof fn lemma_set_then_get(s: Entries, k: Seq<char>, v: i64, other: Seq<char>)
    requires
        keys_distinct(s),
    ensures
        lookup(set_entry(s, k, v), k) == Some(v),
        other != k ==> lookup(set_entry(s, k, v), other) == lookup(s, other),
{
    lemma_key_index_bounds(s, k);
    lemma_key_index_bounds(s, other);
    let i = key_index(s, k);
    let t = set_entry(s, k, v);
    if i < s.len() {
        lemma_key_index(t, k, i);
        if other != k {
            let j = key_index(s, other);
            assert forall|q: int| 0 <= q < j implies t[q].0 != other by {
                if q != i {
                    assert(t[q] == s[q]);
                }
            }
            if j < s.len() {
                assert(j != i);
                lemma_key_index(t, other, j);
            } else {
                assert forall|q: int| 0 <= q < t.len() implies t[q].0 != other by {
                    if q != i {
                        assert(t[q] == s[q]);
                    }
                }
                lemma_key_index(t, other, t.len() as int);
            }
        }
    } else {
        assert forall|q: int| 0 <= q < s.len() implies t[q].0 != k by {
            assert(t[q] == s[q]);
        }
        lemma_key_index(t, k, s.len() as int);
        if other != k {
            let j = key_index(s, other);
            assert forall|q: int| 0 <= q < j implies t[q].0 != other by {
                assert(t[q] == s[q]);
            }
            if j < s.len() {
                lemma_key_index(t, other, j);
            } else {
                assert forall|q: int| 0 <= q < t.len() implies t[q].0 != other by {
                    if q < s.len() {
                        assert(t[q] == s[q]);
                    }
                }
                lemma_key_index(t, other, t.len() as int);
            }
        }
    }
}

/// A room's configuration proposal.
#[derive(Debug, Clone)]
pub struct RoomConfig {
    pub room_id: String,
    /// Settings: key and value (in millionths); keys are distinct.
    pub settings: Vec<(String, i64)>,
}

impl RoomConfig {
    /// The settings as keys and values.
    pub open spec fn entries(&self) -> Entries {
        self.settings@.map_values(|e: (String, i64)| (e.0@, e.1))
    }

    /// Setting keys are distinct.
    pub open spec fn well_formed(&self) -> bool {
        keys_distinct(self.entries())
    }

    /// A proposal with no settings.
    pub fn new(room_id: String) -> (c: Self)
        ensures
            c.room_id@ == room_id@,
            c.entries() == Seq::<(Seq<char>, i64)>::empty(),
            c.well_formed(),
    {
        let c = RoomConfig { room_id, settings: Vec::new() };
        assert(c.entries() =~= Seq::<(Seq<char>, i64)>::empty());
        c
    }

    fn position(&self, key: &String) -> (r: usize)
        ensures
            r == key_index(self.entries(), key@),
    {
        let ghost s = self.entries();
        let mut i: usize = 0;
        while i < self.settings.len()
            invariant
                s == self.entries(),
                0 <= i <= s.len(),
                forall|q: int| 0 <= q < i ==> s[q].0 != key@,
            decreases s.len() - i,
        {
            if self.settings[i].0 == *key {
                proof {
                    lemma_key_index(s, key@, i as int);
                }
                return i;
            }
            i += 1;
        }
        proof {
            lemma_key_index(s, key@, s.len() as int);
        }
        i
    }

    /// Set a key to a value (in millionths).
    pub fn set(&mut self, key: &str, value: i64)
        requires
            old(self).well_formed(),
        ensures
            final(self).well_formed(),
            final(self).room_id == old(self).room_id,
            final(self).entries() == set_entry(old(self).entries(), key@, value),
    {
        let k = key.to_owned();
        let ghost s = self.entries();
        let i = self.position(&k);
        proof {
            lemma_key_index_bounds(s, key@);
        }
        if i < self.settings.len() {
            self.settings.set(i, (k, value));
            assert(self.entries() =~= s.update(i as int, (key@, value)));
        } else {
            self.settings.push((k, value));
            assert(self.entries() =~= s.push((key@, value)));
        }
        assert(keys_distinct(self.entries())) by {
            assert forall|a: int, b: int| 0 <= a < b < self.entries().len() implies self.entries()[a].0
                != self.entries()[b].0 by {
                if a != i && b != i {
                    assert(self.entries()[a] == s[a]);
                    assert(self.entries()[b] == s[b]);
                } else if a == i {
                    if i < s.len() {
                        assert(self.entries()[b] == s[b]);
                        assert(s[i as int].0 == key@);
                    }
                } else {
                    assert(self.entries()[a] == s[a]);
                }
            }
        }
    }

    /// The value of a key, if set.
    pub fn get(&self, key: &str) -> (r: Option<i64>)
        ensures
            r == lookup(self.entries(), key@),
    {
        let k = key.to_owned();
        let i = self.position(&k);
        proof {
            lemma_key_index_bounds(self.entries(), key@);
        }
        if i < self.settings.len() {
            Some(self.settings[i].1)
        } else {
            None
        }
    }
}


/// The proposals of a negotiation, each as its settings entries.
pub type Proposals = Seq<Entries>;

/// `acc` followed by the keys of `s` it lacks, in order of first appearance.
pub open spec fn keys_with(acc: Seq<Seq<char>>, s: Entries) -> Seq<Seq<char>>
    decreases s.len(),
{
    if s.len() == 0 {
        acc
    } else {
        let a = keys_with(acc, s.drop_last());
        if a.contains(s.last().0) { a } else { a.push(s.last().0) }
    }
}

/// Every key of every proposal, once, in order of first appearance.
pub open spec fn all_keys(props: Proposals) -> Seq<Seq<char>>
    decreases props.len(),
{
    if props.len() == 0 { Seq::empty() } else { keys_with(all_keys(props.drop_last()), props.last()) }
}

/// The values the proposals give key `k`, in proposal order (proposals without it are skipped).
pub open spec fn values_for(props: Proposals, k: Seq<char>) -> Seq<i64>
    decreases props.len(),
{
    if props.len() == 0 {
        Seq::empty()
    } else {
        let vs = values_for(props.drop_last(), k);
        match lookup(props.last(), k) {
            Some(v) => vs.push(v),
            None => vs,
        }
    }
}

pub open spec fn sum_of(vs: Seq<i64>) -> int
    decreases vs.len(),
{
    if vs.len() == 0 { 0 } else { sum_of(vs.drop_last()) + vs.last() }
}

pub open spec fn abs(x: int) -> nat {
    if x < 0 { (-x) as nat } else { x as nat }
}

/// `count · a − sum` over the values the proposals give key `k`: the distance of `a` from
/// the key's mean, times the number of those values.
pub open spec fn scaled_offset(props: Proposals, k: Seq<char>, a: int) -> int {
    let vs = values_for(props, k);
    vs.len() * a - sum_of(vs)
}

/// Setting `e` of proposal `p` exists.
pub open spec fn is_entry(props: Proposals, p: int, e: int) -> bool {
    0 <= p < props.len() && 0 <= e < props[p].len()
}

/// Distance of setting `e` of proposal `p` from the mean of its key, as a numerator over
/// `spread_count(props, p, e)`.
pub open spec fn spread(props: Proposals, p: int, e: int) -> nat {
    abs(scaled_offset(props, props[p][e].0, props[p][e].1 as int))
}

/// Number of values the proposals give the key of setting `e` of proposal `p`.
pub open spec fn spread_count(props: Proposals, p: int, e: int) -> nat {
    values_for(props, props[p][e].0).len()
}

/// `x / c` is the largest distance of any setting from the mean of its key (0 when there
/// is no setting).
pub open spec fn largest_spread(props: Proposals, x: nat, c: nat) -> bool {
    &&& c > 0
    &&& forall|p: int, e: int|
        #![trigger spread(props, p, e)]
        is_entry(props, p, e) ==> spread(props, p, e) * c <= x * spread_count(props, p, e)
    &&& (x == 0 && forall|p: int, e: int| !#[trigger] is_entry(props, p, e)) || exists|p: int, e: int|
        #![trigger spread(props, p, e)]
        is_entry(props, p, e) && spread(props, p, e) * c == x * spread_count(props, p, e)
}

/// Setting `e` of proposal `p` once its distance to the mean of its key has been halved
/// `h` times, `mean + (a − mean) / 2^h`, as a numerator over `spread_count · 2^h`.
pub open spec fn value_after(props: Proposals, h: nat, p: int, e: int) -> int {
    let vs = values_for(props, props[p][e].0);
    sum_of(vs) * (pow2(h) - 1) + vs.len() * props[p][e].1
}

/// Setting `e` of proposal `p` after `h` halvings, rounded down to whole millionths:
/// `⌊(sum + ⌊(count · a − sum) / 2^h⌋) / count⌋`.
pub open spec fn settled_value(props: Proposals, h: nat, p: int, e: int) -> int {
    let vs = values_for(props, props[p][e].0);
    (sum_of(vs) + scaled_offset(props, props[p][e].0, props[p][e].1 as int) / (pow2(h) as int)) / (vs.len() as int)
}

/// Every setting after `h` halvings, rounded down to whole millionths.
pub open spec fn settled(props: Proposals, h: nat) -> Proposals {
    Seq::new(
        props.len(),
        |p: int| Seq::new(props[p].len(), |e: int| (props[p][e].0, settled_value(props, h, p, e) as i64)),
    )
}

/// `m` is below the threshold `t`: `numerator / (count · 2^halvings) < t`.
pub open spec fn move_below(m: Move, t: int) -> bool {
    m.numerator < t * m.count * pow2(m.halvings as nat)
}

/// Every proposal has distinct keys.
pub open spec fn all_distinct(props: Proposals) -> bool {
    forall|p: int| 0 <= p < props.len() ==> keys_distinct(#[trigger] props[p])
}

proof fn lemma_keys_with(acc: Seq<Seq<char>>, s: Entries)
    ensures
        forall|x: Seq<char>| keys_with(acc, s).contains(x) <==> (acc.contains(x) || exists|e: int|
            0 <= e < s.len() && s[e].0 == x),
        (forall|i: int, j: int| 0 <= i < j < acc.len() ==> acc[i] != acc[j]) ==> (forall|i: int, j: int|
            0 <= i < j < keys_with(acc, s).len() ==> keys_with(acc, s)[i] != keys_with(acc, s)[j]),
        keys_with(acc, s).len() >= acc.len(),
        forall|i: int| 0 <= i < acc.len() ==> keys_with(acc, s)[i] == acc[i],
    decreases s.len(),
{
    if s.len() > 0 {
        lemma_keys_with(acc, s.drop_last());
        let a = keys_with(acc, s.drop_last());
        assert forall|x: Seq<char>| keys_with(acc, s).contains(x) <==> (acc.contains(x) || exists|e: int|
            0 <= e < s.len() && s[e].0 == x) by {
            if keys_with(acc, s).contains(x) {
                if !a.contains(x) {
                    let i = choose|i: int| 0 <= i < keys_with(acc, s).len() && keys_with(acc, s)[i] == x;
                    assert(i == a.len());
                    assert(s[s.len() - 1].0 == x);
                } else if !acc.contains(x) {
                    let e = choose|e: int| 0 <= e < s.drop_last().len() && s.drop_last()[e].0 == x;
                    assert(s[e].0 == x);
                }
            }
            if acc.contains(x) || exists|e: int| 0 <= e < s.len() && s[e].0 == x {
                if acc.contains(x) {
                    assert(a.contains(x));
                } else {
                    let e = choose|e: int| 0 <= e < s.len() && s[e].0 == x;
                    if e < s.len() - 1 {
                        assert(s.drop_last()[e].0 == x);
                        assert(a.contains(x));
                    } else {
                        assert(s.last().0 == x);
                    }
                }
                if a.contains(x) {
                    let i = choose|i: int| 0 <= i < a.len() && a[i] == x;
                    if !a.contains(s.last().0) {
                        assert(a.push(s.last().0)[i] == x);
                    }
                } else {
                    assert(a.push(s.last().0)[a.len() as int] == x);
                }
            }
        }
    }
}

/// The keys of a consensus are every key some proposal sets, each once.
pub proof fn lemma_all_keys(props: Proposals)
    ensures
        forall|x: Seq<char>| all_keys(props).contains(x) <==> exists|p: int, e: int|
            0 <= p < props.len() && 0 <= e < props[p].len() && #[trigger] props[p][e].0 == x,
        forall|i: int, j: int| 0 <= i < j < all_keys(props).len() ==> all_keys(props)[i] != all_keys(props)[j],
    decreases props.len(),
{
    if props.len() > 0 {
        let prev = props.drop_last();
        lemma_all_keys(prev);
        lemma_keys_with(all_keys(prev), props.last());
        assert forall|x: Seq<char>| all_keys(props).contains(x) <==> exists|p: int, e: int|
            0 <= p < props.len() && 0 <= e < props[p].len() && #[trigger] props[p][e].0 == x by {
            if all_keys(props).contains(x) {
                if all_keys(prev).contains(x) {
                    let (p, e) = choose|p: int, e: int|
                        0 <= p < prev.len() && 0 <= e < prev[p].len() && #[trigger] prev[p][e].0 == x;
                    assert(props[p][e].0 == x);
                } else {
                    let e = choose|e: int| 0 <= e < props.last().len() && props.last()[e].0 == x;
                    assert(props[props.len() - 1][e].0 == x);
                }
            }
            if exists|p: int, e: int| 0 <= p < props.len() && 0 <= e < props[p].len() && #[trigger] props[p][e].0 == x {
                let (p, e) = choose|p: int, e: int|
                    0 <= p < props.len() && 0 <= e < props[p].len() && #[trigger] props[p][e].0 == x;
                if p < props.len() - 1 {
                    assert(prev[p][e].0 == x);
                    assert(all_keys(prev).contains(x));
                } else {
                    assert(props.last()[e].0 == x);
                }
            }
        }
    }
}

proof fn lemma_lookup_some(s: Entries, e: int)
    requires
        0 <= e < s.len(),
    ensures
        lookup(s, s[e].0) is Some,
{
    lemma_key_index_bounds(s, s[e].0);
    if key_index(s, s[e].0) >= s.len() {
        assert(s[e].0 != s[e].0);
    }
}

proof fn lemma_values_for_nonempty(props: Proposals, p: int, e: int)
    requires
        0 <= p < props.len(),
        0 <= e < props[p].len(),
    ensures
        values_for(props, props[p][e].0).len() > 0,
    decreases props.len(),
{
    let k = props[p][e].0;
    if p == props.len() - 1 {
        lemma_lookup_some(props[p], e);
    } else {
        lemma_values_for_nonempty(props.drop_last(), p, e);
        assert(props.drop_last()[p][e].0 == k);
    }
}

proof fn lemma_values_for_bounds(props: Proposals, k: Seq<char>)
    ensures
        values_for(props, k).len() <= props.len(),
        -0x8000_0000_0000_0000 * values_for(props, k).len() <= sum_of(values_for(props, k)),
        sum_of(values_for(props, k)) <= 0x7fff_ffff_ffff_ffff * values_for(props, k).len(),
    decreases props.len(),
{
    if props.len() > 0 {
        lemma_values_for_bounds(props.drop_last(), k);
        let vs = values_for(props, k);
        if let Some(v) = lookup(props.last(), k) {
            assert(vs.drop_last() =~= values_for(props.drop_last(), k));
        }
    }
}

/// The proposals agree: any two settings of the same key, in the same or different
/// proposals, have the same value.
pub open spec fn agreed(props: Proposals) -> bool {
    forall|p: int, e: int, q: int, f: int|
        #![trigger props[p][e], props[q][f]]
        0 <= p < props.len() && 0 <= e < props[p].len() && 0 <= q < props.len() && 0 <= f < props[q].len()
            && props[p][e].0 == props[q][f].0 ==> props[p][e].1 == props[q][f].1
}

proof fn lemma_values_all(props: Proposals, k: Seq<char>, v: i64)
    requires
        forall|p: int, e: int|
            0 <= p < props.len() && 0 <= e < props[p].len() && (#[trigger] props[p][e]).0 == k ==> props[p][e].1 == v,
    ensures
        forall|i: int| 0 <= i < values_for(props, k).len() ==> values_for(props, k)[i] == v,
        sum_of(values_for(props, k)) == values_for(props, k).len() * v,
    decreases props.len(),
{
    if props.len() > 0 {
        let pre = props.drop_last();
        assert forall|p: int, e: int|
            0 <= p < pre.len() && 0 <= e < pre[p].len() && (#[trigger] pre[p][e]).0 == k implies pre[p][e].1 == v by {
            assert(pre[p] == props[p]);
        }
        lemma_values_all(pre, k, v);
        let s = props.last();
        lemma_key_index_bounds(s, k);
        if let Some(w) = lookup(s, k) {
            let i = key_index(s, k);
            assert(props[props.len() - 1][i] == s[i]);
            let vs = values_for(props, k);
            assert(vs.drop_last() =~= values_for(pre, k));
            let m = values_for(pre, k).len() as int;
            assert((m + 1) * v == m * v + v) by (nonlinear_arith);
        }
    }
}

/// A halving moves a setting half the way to the mean of its key. Over the denominator
/// `count · 2^h` the distance to the mean keeps the numerator `count · a − sum` while the
/// denominator doubles, and the move of that halving is the setting's spread over
/// `count · 2^(h + 1)`.
pub proof fn lemma_round_moves_halfway(props: Proposals, h: nat, p: int, e: int)
    requires
        is_entry(props, p, e),
    ensures
        ({
            let vs = values_for(props, props[p][e].0);
            let off = scaled_offset(props, props[p][e].0, props[p][e].1 as int);
            &&& value_after(props, h, p, e) - sum_of(vs) * pow2(h) == off
            &&& value_after(props, h + 1, p, e) - sum_of(vs) * pow2(h + 1) == off
            &&& abs(2 * value_after(props, h, p, e) - value_after(props, h + 1, p, e)) == spread(props, p, e)
        }),
{
    let vs = values_for(props, props[p][e].0);
    let s = sum_of(vs);
    let a = props[p][e].1 as int;
    let c = vs.len() as int;
    let q = pow2(h) as int;
    lemma_pow2_unfold(h + 1);
    assert(pow2(h + 1) == 2 * q);
    assert(s * (q - 1) == s * q - s) by (nonlinear_arith);
    assert(s * (2 * q - 1) == 2 * (s * q) - s) by (nonlinear_arith);
    assert(s * (2 * q) == 2 * (s * q)) by (nonlinear_arith);
}

/// Agreeing proposals never move: every setting already sits on the mean of its key, so the
/// largest distance to a mean is 0.
pub proof fn lemma_agreement_is_settled(props: Proposals)
    requires
        agreed(props),
    ensures
        forall|p: int, e: int| is_entry(props, p, e) ==> #[trigger] spread(props, p, e) == 0,
        largest_spread(props, 0, 1),
{
    assert forall|p: int, e: int| is_entry(props, p, e) implies #[trigger] spread(props, p, e) == 0 by {
        let k = props[p][e].0;
        let v = props[p][e].1;
        assert forall|q: int, f: int|
            0 <= q < props.len() && 0 <= f < props[q].len() && (#[trigger] props[q][f]).0 == k implies props[q][f].1
            == v by {
            assert(props[p][e] == props[p][e]);
        }
        lemma_values_all(props, k, v);
    }
    if exists|p: int, e: int| #[trigger] is_entry(props, p, e) {
        let (p, e) = choose|p: int, e: int| #[trigger] is_entry(props, p, e);
        assert(spread(props, p, e) * 1 == 0 * spread_count(props, p, e));
    }
}

/// The settled value of a setting is its exact value after `h` halvings rounded down:
/// `⌊value_after / (count · 2^h)⌋`.
pub proof fn lemma_settled_rounds_down(props: Proposals, h: nat, p: int, e: int)
    requires
        is_entry(props, p, e),
    ensures
        settled_value(props, h, p, e) == value_after(props, h, p, e) / (spread_count(props, p, e) * pow2(h)) as int,
{
    lemma_values_for_nonempty(props, p, e);
    lemma_pow2_pos(h);
    let vs = values_for(props, props[p][e].0);
    let s = sum_of(vs);
    let c = vs.len() as int;
    let d = pow2(h) as int;
    let off = scaled_offset(props, props[p][e].0, props[p][e].1 as int);
    let q = off / d;
    let r = off % d;
    lemma_fundamental_div_mod(off, d);
    let big_q = (s + q) / c;
    let big_r = (s + q) % c;
    lemma_fundamental_div_mod(s + q, c);
    assert(value_after(props, h, p, e) == s * d + off) by (nonlinear_arith)
        requires
            value_after(props, h, p, e) == s * (d - 1) + c * props[p][e].1,
            off == c * props[p][e].1 - s;
    assert(s * d + off == big_q * (c * d) + (d * big_r + r)) by (nonlinear_arith)
        requires
            off == d * q + r,
            s + q == c * big_q + big_r;
    assert(0 <= d * big_r + r < c * d) by (nonlinear_arith)
        requires
            0 <= big_r < c,
            0 <= r < d;
    lemma_fundamental_div_mod_converse_div(s * d + off, c * d, big_q, d * big_r + r);
}

/// Halvings never change a key's mean: the values `vs` of a key after `h` halvings, as
/// numerators over `count · 2^h`, add up to `count · sum · 2^h`, so their mean is still
/// `sum / count`.
pub proof fn lemma_halvings_keep_mean(vs: Seq<i64>, h: nat)
    ensures
        sum_after(vs, sum_of(vs), vs.len() as int, h) == vs.len() * sum_of(vs) * pow2(h),
{
    lemma_sum_after(vs, sum_of(vs), vs.len() as int, h);
    let n = vs.len() as int;
    let s = sum_of(vs);
    let d = pow2(h) as int;
    assert(n * (s * (d - 1)) + n * s == n * s * d) by (nonlinear_arith);
}

/// The numerators `sum · (2^h − 1) + count · a` of the values `a` of `vs`, added up.
pub open spec fn sum_after(vs: Seq<i64>, sum: int, count: int, h: nat) -> int
    decreases vs.len(),
{
    if vs.len() == 0 {
        0
    } else {
        sum_after(vs.drop_last(), sum, count, h) + sum * (pow2(h) - 1) + count * vs.last()
    }
}

proof fn lemma_sum_after(vs: Seq<i64>, sum: int, count: int, h: nat)
    ensures
        sum_after(vs, sum, count, h) == vs.len() * (sum * (pow2(h) - 1)) + count * sum_of(vs),
    decreases vs.len(),
{
    if vs.len() > 0 {
        lemma_sum_after(vs.drop_last(), sum, count, h);
        let n = vs.drop_last().len() as int;
        let k = sum * (pow2(h) - 1);
        assert(n * k + k == (n + 1) * k) by (nonlinear_arith);
        assert(count * sum_of(vs.drop_last()) + count * vs.last() == count * (sum_of(vs.drop_last()) + vs.last()))
            by (nonlinear_arith);
    }
}

/// `x / c <= s / n` and the next `y / d` exceeds `x / c`: `y / d` exceeds `s / n` too.
proof fn lemma_spread_order(s: nat, n: nat, x: nat, c: nat, y: nat, d: nat)
    requires
        s * c <= x * n,
        x * d < y * c,
        c > 0,
        d > 0,
    ensures
        s * d <= y * n,
{
    assert(s * c * d <= x * n * d) by (nonlinear_arith)
        requires s * c <= x * n;
    assert(x * d * n <= y * c * n) by (nonlinear_arith)
        requires x * d < y * c;
    assert(x * n * d == x * d * n) by (nonlinear_arith);
    assert(c * (s * d) <= c * (y * n)) by (nonlinear_arith)
        requires s * c * d <= y * c * n;
    assert(s * d <= y * n) by (nonlinear_arith)
        requires c * (s * d) <= c * (y * n), c > 0;
}

/// The exact size of a move: `numerator / (count · 2^halvings)` millionths.
#[derive(Debug, Clone, Copy, PartialEq, Eq, Structural)]
pub struct Move {
    pub numerator: u128,
    pub count: u64,
    pub halvings: u64,
}

/// Convergence of one negotiation round.
#[derive(Debug, Clone, Copy)]
pub struct ConvergenceState {
    pub round: u32,
    /// Largest move of any setting in the round.
    pub max_delta: Move,
    /// The largest move was below the convergence threshold.
    pub converged: bool,
}

/// Room consensus via palaver negotiation.
///
/// Each setting is held as the value it had when the distances to the means last started
/// halving (its anchor); the current setting is `mean + (anchor − mean) / 2^halvings`
/// (`value_after`), where the mean is that of the anchors of its key. Rounds only count
/// halvings, so every setting stays exact and no round changes a key's mean.
#[derive(Debug, Clone)]
pub struct RoomConsensus {
    proposals: Vec<RoomConfig>,
    /// Halvings of every setting's distance to its key's mean since the anchors were set.
    halvings: u64,
    /// The proposals as the rooms joined, before any round moved them.
    joined: Vec<RoomConfig>,
    convergence_threshold: i64,
    max_rounds: u32,
}

/// An exact mean: `total / count` millionths.
#[derive(Debug, Clone, Copy, PartialEq, Eq, Structural)]
pub struct Mean {
    pub total: i128,
    pub count: u64,
}

/// Every key of the proposals with the exact mean of the values they give it, as the sum
/// and the number of those values.
pub open spec fn consensus_means(props: Proposals) -> Seq<(Seq<char>, int, nat)> {
    all_keys(props).map_values(|k: Seq<char>| (k, sum_of(values_for(props, k)), values_for(props, k).len()))
}

/// The consensus of a negotiation: every key with the exact mean of its values.
#[derive(Debug, Clone)]
pub struct ConsensusConfig {
    pub room_id: String,
    pub settings: Vec<(String, Mean)>,
}

impl ConsensusConfig {
    /// The settings as keys with the sum and the count of their mean.
    pub open spec fn means(&self) -> Seq<(Seq<char>, int, nat)> {
        self.settings@.map_values(|e: (String, Mean)| (e.0@, e.1.total as int, e.1.count as nat))
    }

    /// The exact mean of a key, if the consensus has it.
    pub fn get(&self, key: &str) -> (r: Option<Mean>)
        ensures
            r is None <==> !exists|i: int| 0 <= i < self.means().len() && self.means()[i].0 == key@,
            r matches Some(m) ==> exists|i: int|
                0 <= i < self.means().len() && self.means()[i] == (key@, m.total as int, m.count as nat),
    {
        let k = key.to_owned();
        let mut i: usize = 0;
        while i < self.settings.len()
            invariant
                0 <= i <= self.settings@.len(),
                k@ == key@,
                forall|j: int| 0 <= j < i ==> self.means()[j].0 != key@,
            decreases self.settings@.len() - i,
        {
            assert(self.means()[i as int].0 == self.settings@[i as int].0@);
            if self.settings[i].0 == k {
                let m = self.settings[i].1;
                assert(self.means()[i as int] == (key@, m.total as int, m.count as nat));
                return Some(m);
            }
            i += 1;
        }
        None
    }
}

/// Every key of every proposal, once, in order of first appearance.
fn collect_keys(proposals: &Vec<RoomConfig>) -> (keys: Vec<String>)
    ensures
        keys@.map_values(|k: String| k@) == all_keys(proposals@.map_values(|c: RoomConfig| c.entries())),
{
    let ghost props = proposals@.map_values(|c: RoomConfig| c.entries());
    let mut keys: Vec<String> = Vec::new();
    let mut p: usize = 0;
    assert(props.subrange(0, 0) =~= Seq::<Entries>::empty());
    assert(keys@.map_values(|k: String| k@) =~= Seq::<Seq<char>>::empty());
    while p < proposals.len()
        invariant
            props == proposals@.map_values(|c: RoomConfig| c.entries()),
            0 <= p <= props.len(),
            keys@.map_values(|k: String| k@) == all_keys(props.subrange(0, p as int)),
        decreases props.len() - p,
    {
        let ghost acc = all_keys(props.subrange(0, p as int));
        let settings = &proposals[p].settings;
        let ghost s = props[p as int];
        assert(s == settings@.map_values(|e: (String, i64)| (e.0@, e.1)));
        let mut e: usize = 0;
        assert(s.subrange(0, 0) =~= Seq::<(Seq<char>, i64)>::empty());
        while e < settings.len()
            invariant
                s == settings@.map_values(|e: (String, i64)| (e.0@, e.1)),
                0 <= e <= s.len(),
                keys@.map_values(|k: String| k@) == keys_with(acc, s.subrange(0, e as int)),
            decreases s.len() - e,
        {
            let key = &settings[e].0;
            assert(key@ == s[e as int].0);
            let ghost kv = keys@.map_values(|k: String| k@);
            let mut found = false;
            let mut q: usize = 0;
            while q < keys.len()
                invariant
                    kv == keys@.map_values(|k: String| k@),
                    0 <= q <= keys@.len(),
                    found <==> exists|r: int| 0 <= r < q && kv[r] == key@,
                decreases keys@.len() - q,
            {
                assert(kv[q as int] == keys@[q as int]@);
                if keys[q] == *key {
                    found = true;
                }
                q += 1;
            }
            let ghost next = s.subrange(0, e + 1);
            assert(next.drop_last() =~= s.subrange(0, e as int));
            assert(next.last() == s[e as int]);
            if !found {
                keys.push(key.clone());
                assert(keys@.map_values(|k: String| k@) =~= kv.push(key@));
            } else {
                proof {
                    let r = choose|r: int| 0 <= r < q && kv[r] == key@;
                    assert(kv.contains(key@));
                }
            }
            e += 1;
        }
        assert(s.subrange(0, s.len() as int) =~= s);
        let ghost nextp = props.subrange(0, p + 1);
        assert(nextp.drop_last() =~= props.subrange(0, p as int));
        assert(nextp.last() == s);
        p += 1;
    }
    assert(props.subrange(0, props.len() as int) =~= props);
    keys
}

/// Sum and number of the values the proposals give `key`.
fn sum_of_key(proposals: &Vec<RoomConfig>, key: &String) -> (r: (i128, usize))
    ensures
        r.0 == sum_of(values_for(proposals@.map_values(|c: RoomConfig| c.entries()), key@)),
        r.1 == values_for(proposals@.map_values(|c: RoomConfig| c.entries()), key@).len(),
{
    let ghost props = proposals@.map_values(|c: RoomConfig| c.entries());
    let mut sum: i128 = 0;
    let mut count: usize = 0;
    let mut p: usize = 0;
    assert(props.subrange(0, 0) =~= Seq::<Entries>::empty());
    while p < proposals.len()
        invariant
            props == proposals@.map_values(|c: RoomConfig| c.entries()),
            0 <= p <= props.len(),
            count <= p,
            sum == sum_of(values_for(props.subrange(0, p as int), key@)),
            count == values_for(props.subrange(0, p as int), key@).len(),
            -0x8000_0000_0000_0000 * count <= sum <= 0x7fff_ffff_ffff_ffff * count,
        decreases props.len() - p,
    {
        let ghost next = props.subrange(0, p + 1);
        assert(next.drop_last() =~= props.subrange(0, p as int));
        assert(next.last() == props[p as int]);
        match proposals[p].get(key.as_str()) {
            Some(v) => {
                let ghost vs = values_for(next, key@);
                assert(vs.drop_last() =~= values_for(props.subrange(0, p as int), key@));
                sum = sum + v as i128;
                count = count + 1;
            },
            None => {},
        }
        p += 1;
    }
    assert(props.subrange(0, props.len() as int) =~= props);
    (sum, count)
}

/// A copy of a proposal.
fn copy_config(c: &RoomConfig) -> (r: RoomConfig)
    ensures
        r.room_id@ == c.room_id@,
        r.entries() == c.entries(),
{
    let mut settings: Vec<(String, i64)> = Vec::new();
    let mut i: usize = 0;
    while i < c.settings.len()
        invariant
            0 <= i <= c.settings@.len(),
            settings@.map_values(|e: (String, i64)| (e.0@, e.1)) == c.entries().subrange(0, i as int),
        decreases c.settings@.len() - i,
    {
        let ghost before = settings@.map_values(|e: (String, i64)| (e.0@, e.1));
        let k = c.settings[i].0.clone();
        let v = c.settings[i].1;
        settings.push((k, v));
        assert(settings@.map_values(|e: (String, i64)| (e.0@, e.1)) =~= before.push((c.settings@[i as int].0@, v)));
        assert(c.entries().subrange(0, i + 1) =~= c.entries().subrange(0, i as int).push(c.entries()[i as int]));
        i += 1;
    }
    assert(c.entries().subrange(0, c.settings@.len() as int) =~= c.entries());
    RoomConfig { room_id: c.room_id.clone(), settings }
}

/// `n / d`, rounded down.
fn floor_div(n: i128, d: i128) -> (q: i128)
    requires
        d > 0,
        n > i128::MIN,
    ensures
        q == (n as int) / (d as int),
{
    if n >= 0 {
        (n as u128 / d as u128) as i128
    } else {
        let m: u128 = (-n - 1) as u128;
        let t: u128 = m / d as u128;
        let q: i128 = -(t as i128) - 1;
        proof {
            let r = m as int % d as int;
            lemma_fundamental_div_mod(m as int, d as int);
            assert(m as int == d * t + r);
            assert(n as int == q * d + (d - r - 1)) by (nonlinear_arith)
                requires
                    m as int == d * t + r,
                    n as int == -(m as int) - 1,
                    q as int == -(t as int) - 1,
            ;
            lemma_fundamental_div_mod_converse_div(n as int, d as int, q as int, d - r - 1);
        }
        q
    }
}

/// `2^h`.
fn pow2_u128(h: u64) -> (r: u128)
    requires
        h < 96,
    ensures
        r == pow2(h as nat),
{
    proof {
        lemma2_to64();
        lemma_pow2_adds(64, 32);
    }
    let mut r: u128 = 1;
    let mut i: u64 = 0;
    while i < h
        invariant
            0 <= i <= h < 96,
            r == pow2(i as nat),
            pow2(96) == 0x1_0000_0000_0000_0000_0000_0000,
        decreases h - i,
    {
        proof {
            lemma_pow2_unfold((i + 1) as nat);
            lemma_pow2_strictly_increases((i + 1) as nat, 96);
        }
        r = r * 2;
        i += 1;
    }
    r
}

/// `n / 2^h`, rounded down.
fn floor_halvings(n: i128, h: u64) -> (q: i128)
    requires
        -0x1_0000_0000_0000_0000_0000_0000 < n < 0x1_0000_0000_0000_0000_0000_0000,
    ensures
        q == (n as int) / (pow2(h as nat) as int),
        n >= 0 ==> 0 <= q <= n,
        n < 0 ==> n <= q < 0,
{
    proof {
        lemma2_to64();
        lemma_pow2_adds(64, 32);
        lemma_pow2_pos(h as nat);
    }
    let ghost d = pow2(h as nat) as int;
    if h >= 96 {
        proof {
            if h > 96 {
                lemma_pow2_strictly_increases(96, h as nat);
            }
        }
        if n >= 0 {
            proof {
                lemma_fundamental_div_mod_converse_div(n as int, d, 0, n as int);
            }
            0
        } else {
            proof {
                lemma_fundamental_div_mod_converse_div(n as int, d, -1, n + d);
            }
            -1
        }
    } else {
        proof {
            lemma_pow2_strictly_increases(h as nat, 96);
        }
        let p = pow2_u128(h);
        let q = floor_div(n, p as i128);
        proof {
            let r = n as int % d;
            lemma_fundamental_div_mod(n as int, d);
            assert(n as int == d * q + r);
            if n >= 0 {
                assert(0 <= q <= n) by (nonlinear_arith)
                    requires n as int == d * q + r, 0 <= r < d, d >= 1, n >= 0;
            } else {
                assert(n <= q < 0) by (nonlinear_arith)
                    requires n as int == d * q + r, 0 <= r < d, d >= 1, n < 0;
            }
        }
        q
    }
}

/// Whether `x / (c · 2^h) < t`.
fn below_threshold(x: u128, c: u64, h: u64, t: i64) -> (r: bool)
    requires
        x < 0x1_0000_0000_0000_0000_0000_0000,
        0 < c < 0x1_0000_0000,
    ensures
        r == (x < t * c * pow2(h as nat)),
{
    proof {
        lemma_pow2_pos(h as nat);
    }
    if t <= 0 {
        assert(t * c * pow2(h as nat) <= 0) by (nonlinear_arith)
            requires t <= 0, c > 0, pow2(h as nat) > 0;
        false
    } else {
        assert((t as u128) * (c as u128) < 0x8000_0000_0000_0000_0000_0000) by (nonlinear_arith)
            requires 0 < t < 0x8000_0000_0000_0000, 0 < c < 0x1_0000_0000;
        let tc: u128 = t as u128 * c as u128;
        assert(tc == t * c);
        assert(tc >= 1) by (nonlinear_arith)
            requires tc == t * c, t >= 1, c >= 1;
        if h >= 96 {
            proof {
                lemma2_to64();
                lemma_pow2_adds(64, 32);
                if h > 96 {
                    lemma_pow2_strictly_increases(96, h as nat);
                }
                assert(tc * pow2(h as nat) >= pow2(h as nat)) by (nonlinear_arith)
                    requires tc >= 1, pow2(h as nat) > 0;
            }
            true
        } else {
            let d = pow2_u128(h);
            let q = x / d;
            proof {
                let r = x as int % d as int;
                lemma_fundamental_div_mod(x as int, d as int);
                assert((q < tc) == (x < tc * d)) by (nonlinear_arith)
                    requires x as int == d * q + r, 0 <= r < d, d >= 1, q >= 0;
            }
            q < tc
        }
    }
}

impl RoomConsensus {
    /// The anchors of the proposals' settings, in the order the rooms joined.
    pub closed spec fn spec_proposals(&self) -> Proposals {
        self.proposals@.map_values(|c: RoomConfig| c.entries())
    }

    /// How many times every setting's distance to its key's mean has been halved since the
    /// anchors were set.
    pub closed spec fn spec_halvings(&self) -> nat {
        self.halvings as nat
    }

    /// The rooms' identifiers, in the order the rooms joined.
    pub closed spec fn spec_room_ids(&self) -> Seq<Seq<char>> {
        self.proposals@.map_values(|c: RoomConfig| c.room_id@)
    }

    /// A round converges when its largest move is below this (in millionths).
    pub closed spec fn spec_threshold(&self) -> i64 {
        self.convergence_threshold
    }

    /// Most rounds a negotiation runs.
    pub closed spec fn spec_max_rounds(&self) -> u32 {
        self.max_rounds
    }

    /// The proposals as the rooms joined, before any round moved them.
    pub closed spec fn spec_joined(&self) -> Proposals {
        self.joined@.map_values(|c: RoomConfig| c.entries())
    }

    /// Every proposal has distinct keys, and there are fewer than 2^32 rooms.
    pub open spec fn well_formed(&self) -> bool {
        &&& all_distinct(self.spec_proposals())
        &&& all_distinct(self.spec_joined())
        &&& self.spec_proposals().len() < 0x1_0000_0000
        &&& self.spec_joined().len() == self.spec_proposals().len()
    }

    /// A negotiation with no rooms yet.
    pub fn new(convergence_threshold: i64, max_rounds: u32) -> (c: Self)
        ensures
            c.well_formed(),
            c.spec_proposals() == Seq::<Entries>::empty(),
            c.spec_halvings() == 0,
            c.spec_joined() == Seq::<Entries>::empty(),
            c.spec_room_ids() == Seq::<Seq<char>>::empty(),
            c.spec_threshold() == convergence_threshold,
            c.spec_max_rounds() == max_rounds,
    {
        let c = RoomConsensus {
            proposals: Vec::new(),
            halvings: 0,
            joined: Vec::new(),
            convergence_threshold,
            max_rounds,
        };
        assert(c.spec_proposals() =~= Seq::<Entries>::empty());
        assert(c.spec_joined() =~= Seq::<Entries>::empty());
        assert(c.spec_room_ids() =~= Seq::<Seq<char>>::empty());
        c
    }

    /// Setting `e` of proposal `p` after the halvings so far, rounded down to whole millionths.
    fn settle_entry(&self, p: usize, e: usize) -> (v: i64)
        requires
            self.well_formed(),
            is_entry(self.spec_proposals(), p as int, e as int),
        ensures
            v == settled_value(self.spec_proposals(), self.spec_halvings(), p as int, e as int),
    {
        let ghost props = self.spec_proposals();
        let key = &self.proposals[p].settings[e].0;
        let a = self.proposals[p].settings[e].1;
        assert(props[p as int][e as int] == (key@, a));
        let (s, c) = sum_of_key(&self.proposals, key);
        proof {
            lemma_values_for_nonempty(props, p as int, e as int);
            lemma_values_for_bounds(props, key@);
            assert(-0x8000_0000_0000_0000 * c <= c * a <= 0x7fff_ffff_ffff_ffff * c) by (nonlinear_arith)
                requires c >= 0, -0x8000_0000_0000_0000 <= a <= 0x7fff_ffff_ffff_ffff;
        }
        let off: i128 = c as i128 * a as i128 - s;
        let y = floor_halvings(off, self.halvings);
        let t: i128 = s + y;
        let v = floor_div(t, c as i128);
        proof {
            let ci = c as int;
            lemma_div_multiples_vanish(a as int, ci);
            lemma_div_multiples_vanish(-0x8000_0000_0000_0000, ci);
            lemma_div_multiples_vanish(0x7fff_ffff_ffff_ffff, ci);
            assert(ci * (-0x8000_0000_0000_0000) == -0x8000_0000_0000_0000 * ci) by (nonlinear_arith);
            assert(ci * 0x7fff_ffff_ffff_ffff == 0x7fff_ffff_ffff_ffff * ci) by (nonlinear_arith);
            assert(ci * a == c * a);
            if off >= 0 {
                lemma_div_is_ordered(-0x8000_0000_0000_0000 * ci, t as int, ci);
                lemma_div_is_ordered(t as int, ci * a, ci);
            } else {
                lemma_div_is_ordered(ci * a, t as int, ci);
                lemma_div_is_ordered(t as int, 0x7fff_ffff_ffff_ffff * ci, ci);
            }
        }
        v as i64
    }

    /// Every setting after the halvings so far, rounded down to whole millionths.
    fn settle(&self) -> (r: Vec<RoomConfig>)
        requires
            self.well_formed(),
        ensures
            r@.map_values(|c: RoomConfig| c.entries()) == settled(self.spec_proposals(), self.spec_halvings()),
            r@.map_values(|c: RoomConfig| c.room_id@) == self.spec_room_ids(),
    {
        let ghost props = self.spec_proposals();
        let ghost goal = settled(props, self.spec_halvings());
        let mut r: Vec<RoomConfig> = Vec::new();
        let n = self.proposals.len();
        let mut p: usize = 0;
        while p < n
            invariant
                self.well_formed(),
                props == self.spec_proposals(),
                goal == settled(props, self.spec_halvings()),
                n == props.len(),
                0 <= p <= n,
                r@.len() == p,
                forall|q: int| 0 <= q < p ==> (#[trigger] r@[q]).entries() == goal[q],
                forall|q: int| 0 <= q < p ==> (#[trigger] r@[q]).room_id@ == self.spec_room_ids()[q],
            decreases n - p,
        {
            let m = self.proposals[p].settings.len();
            assert(props[p as int].len() == m);
            let mut settings: Vec<(String, i64)> = Vec::new();
            let mut e: usize = 0;
            while e < m
                invariant
                    self.well_formed(),
                    props == self.spec_proposals(),
                    goal == settled(props, self.spec_halvings()),
                    n == props.len(),
                    p < n,
                    m == props[p as int].len(),
                    0 <= e <= m,
                    settings@.map_values(|s: (String, i64)| (s.0@, s.1)) == goal[p as int].subrange(0, e as int),
                decreases m - e,
            {
                let ghost before = settings@.map_values(|s: (String, i64)| (s.0@, s.1));
                let v = self.settle_entry(p, e);
                let k = self.proposals[p].settings[e].0.clone();
                assert(props[p as int][e as int].0 == k@);
                settings.push((k, v));
                assert(goal[p as int][e as int] == (k@, v));
                assert(settings@.map_values(|s: (String, i64)| (s.0@, s.1)) =~= before.push((k@, v)));
                assert(goal[p as int].subrange(0, e + 1) =~= goal[p as int].subrange(0, e as int).push(
                    goal[p as int][e as int],
                ));
                e += 1;
            }
            assert(goal[p as int].subrange(0, m as int) =~= goal[p as int]);
            let id = self.proposals[p].room_id.clone();
            r.push(RoomConfig { room_id: id, settings });
            p += 1;
        }
        assert(r@.map_values(|c: RoomConfig| c.entries()) =~= goal);
        assert(r@.map_values(|c: RoomConfig| c.room_id@) =~= self.spec_room_ids());
        r
    }

    /// Add a room with its configuration proposal. Once rounds have run, the settings of the
    /// rooms already present are first fixed at their current values, rounded down to whole
    /// millionths, and become the new anchors.
    pub fn add_room(&mut self, _room_id: String, config: RoomConfig)
        requires
            old(self).well_formed(),
            config.well_formed(),
            old(self).spec_proposals().len() < 0xffff_ffff,
        ensures
            final(self).well_formed(),
            final(self).spec_proposals() == (if old(self).spec_halvings() == 0 {
                old(self).spec_proposals()
            } else {
                settled(old(self).spec_proposals(), old(self).spec_halvings())
            }).push(config.entries()),
            final(self).spec_halvings() == 0,
            final(self).spec_joined() == old(self).spec_joined().push(config.entries()),
            final(self).spec_room_ids() == old(self).spec_room_ids().push(config.room_id@),
            final(self).spec_threshold() == old(self).spec_threshold(),
            final(self).spec_max_rounds() == old(self).spec_max_rounds(),
    {
        let ghost e = config.entries();
        let ghost r = config.room_id@;
        let ghost props0 = self.spec_proposals();
        let ghost ids0 = self.spec_room_ids();
        if self.halvings > 0 {
            let settled_now = self.settle();
            self.proposals = settled_now;
            self.halvings = 0;
            proof {
                let s = settled(props0, old(self).spec_halvings());
                assert forall|q: int| 0 <= q < s.len() implies keys_distinct(#[trigger] s[q]) by {
                    assert(keys_distinct(props0[q]));
                    assert forall|a: int, b: int| 0 <= a < b < s[q].len() implies s[q][a].0 != s[q][b].0 by {
                        assert(s[q][a].0 == props0[q][a].0);
                        assert(s[q][b].0 == props0[q][b].0);
                    }
                }
            }
        }
        let copy = copy_config(&config);
        self.joined.push(copy);
        assert(self.spec_joined() =~= old(self).spec_joined().push(e));
        let ghost mid = self.spec_proposals();
        let ghost mid_ids = self.spec_room_ids();
        self.proposals.push(config);
        assert(self.spec_proposals() =~= mid.push(e));
        assert(self.spec_room_ids() =~= mid_ids.push(r));
    }

    /// The largest distance `x / c` of any setting from the mean of its key.
    fn find_largest_spread(&self) -> (r: (u128, u64))
        requires
            self.well_formed(),
        ensures
            largest_spread(self.spec_proposals(), r.0 as nat, r.1 as nat),
            r.0 < 0x1_0000_0000_0000_0000_0000_0000,
            0 < r.1 < 0x1_0000_0000,
    {
        let ghost props = self.spec_proposals();
        let mut bx: u128 = 0;
        let mut bc: u64 = 1;
        let n = self.proposals.len();
        let mut p: usize = 0;
        while p < n
            invariant
                self.well_formed(),
                props == self.spec_proposals(),
                n == props.len(),
                0 <= p <= n,
                0 < bc < 0x1_0000_0000,
                bx < 0x1_0000_0000_0000_0000_0000_0000,
                forall|q: int, f: int|
                    #![trigger spread(props, q, f)]
                    is_entry(props, q, f) && q < p ==> spread(props, q, f) * bc <= bx * spread_count(props, q, f),
                (bx == 0 && forall|q: int, f: int| is_entry(props, q, f) ==> q >= p) || exists|q: int, f: int|
                    #![trigger spread(props, q, f)]
                    is_entry(props, q, f) && q < p && spread(props, q, f) * bc == bx * spread_count(props, q, f),
            decreases n - p,
        {
            let m = self.proposals[p].settings.len();
            assert(props[p as int].len() == m);
            let mut e: usize = 0;
            while e < m
                invariant
                    self.well_formed(),
                    props == self.spec_proposals(),
                    n == props.len(),
                    0 <= p < n,
                    m == props[p as int].len(),
                    0 <= e <= m,
                    0 < bc < 0x1_0000_0000,
                    bx < 0x1_0000_0000_0000_0000_0000_0000,
                    forall|q: int, f: int|
                        #![trigger spread(props, q, f)]
                        is_entry(props, q, f) && (q < p || (q == p && f < e)) ==> spread(props, q, f) * bc <= bx
                            * spread_count(props, q, f),
                    (bx == 0 && forall|q: int, f: int| is_entry(props, q, f) ==> (q > p || (q == p && f >= e)))
                        || exists|q: int, f: int|
                        #![trigger spread(props, q, f)]
                        is_entry(props, q, f) && (q < p || (q == p && f < e)) && spread(props, q, f) * bc == bx
                            * spread_count(props, q, f),
                decreases m - e,
            {
                let key = &self.proposals[p].settings[e].0;
                let a = self.proposals[p].settings[e].1;
                assert(props[p as int][e as int] == (key@, a));
                let (s, c) = sum_of_key(&self.proposals, key);
                proof {
                    lemma_values_for_nonempty(props, p as int, e as int);
                    lemma_values_for_bounds(props, key@);
                    assert(-0x8000_0000_0000_0000 * c <= c * a <= 0x7fff_ffff_ffff_ffff * c) by (nonlinear_arith)
                        requires c >= 0, -0x8000_0000_0000_0000 <= a <= 0x7fff_ffff_ffff_ffff;
                }
                let off: i128 = c as i128 * a as i128 - s;
                let x: u128 = if off >= 0 { off as u128 } else { (-off) as u128 };
                assert(x == spread(props, p as int, e as int));
                assert(c == spread_count(props, p as int, e as int));
                assert(x < 0x1_0000_0000_0000_0000_0000_0000) by (nonlinear_arith)
                    requires
                        x == abs(c * a - s),
                        -0x8000_0000_0000_0000 * c <= c * a <= 0x7fff_ffff_ffff_ffff * c,
                        -0x8000_0000_0000_0000 * c <= s <= 0x7fff_ffff_ffff_ffff * c,
                        c < 0x1_0000_0000;
                assert(x * (bc as u128) < 0x1_0000_0000_0000_0000_0000_0000_0000_0000) by (nonlinear_arith)
                    requires x < 0x1_0000_0000_0000_0000_0000_0000, bc < 0x1_0000_0000;
                assert(bx * (c as u128) < 0x1_0000_0000_0000_0000_0000_0000_0000_0000) by (nonlinear_arith)
                    requires bx < 0x1_0000_0000_0000_0000_0000_0000, c < 0x1_0000_0000;
                let lhs: u128 = x * bc as u128;
                let rhs: u128 = bx * c as u128;
                if lhs > rhs {
                    proof {
                        assert forall|q: int, f: int|
                            is_entry(props, q, f) && (q < p || (q == p && f < e + 1)) implies #[trigger] spread(
                            props,
                            q,
                            f,
                        ) * c <= x * spread_count(props, q, f) by {
                            if q == p && f == e {
                            } else {
                                lemma_spread_order(
                                    spread(props, q, f),
                                    spread_count(props, q, f),
                                    bx as nat,
                                    bc as nat,
                                    x as nat,
                                    c as nat,
                                );
                            }
                        }
                        assert(spread(props, p as int, e as int) * c == x * spread_count(props, p as int, e as int));
                    }
                    bx = x;
                    bc = c as u64;
                } else {
                    proof {
                        if !(exists|q: int, f: int|
                            #![trigger spread(props, q, f)]
                            is_entry(props, q, f) && (q < p || (q == p && f < e)) && spread(props, q, f) * bc == bx
                                * spread_count(props, q, f)) {
                            assert(bx == 0);
                            assert(x == 0) by (nonlinear_arith)
                                requires x * bc <= 0, bc > 0;
                            assert(spread(props, p as int, e as int) * bc == bx * spread_count(
                                props,
                                p as int,
                                e as int,
                            ));
                        }
                    }
                }
                e += 1;
            }
            p += 1;
        }
        (bx, bc)
    }

    /// The consensus: every key the rooms proposed, with the exact mean of the values they
    /// proposed for it when they joined.
    fn compute_consensus(&self) -> (c: ConsensusConfig)
        requires
            self.well_formed(),
        ensures
            c.room_id@ == "consensus"@,
            c.means() == consensus_means(self.spec_joined()),
    {
        let ghost props = self.spec_joined();
        let mut settings: Vec<(String, Mean)> = Vec::new();
        let keys = collect_keys(&self.joined);
        let ghost kv = keys@.map_values(|k: String| k@);
        let mut q: usize = 0;
        assert(settings@.map_values(|e: (String, Mean)| (e.0@, e.1.total as int, e.1.count as nat)) =~= consensus_means(
            props,
        ).subrange(0, 0));
        while q < keys.len()
            invariant
                props == self.spec_joined(),
                kv == keys@.map_values(|k: String| k@),
                kv == all_keys(props),
                0 <= q <= keys@.len(),
                settings@.map_values(|e: (String, Mean)| (e.0@, e.1.total as int, e.1.count as nat)) == consensus_means(
                    props,
                ).subrange(0, q as int),
            decreases keys@.len() - q,
        {
            assert(kv[q as int] == keys@[q as int]@);
            let (total, count) = sum_of_key(&self.joined, &keys[q]);
            let ghost before = settings@.map_values(|e: (String, Mean)| (e.0@, e.1.total as int, e.1.count as nat));
            let kc = keys[q].clone();
            settings.push((kc, Mean { total, count: count as u64 }));
            assert(consensus_means(props)[q as int] == (kv[q as int], total as int, count as nat));
            assert(settings@.map_values(|e: (String, Mean)| (e.0@, e.1.total as int, e.1.count as nat)) =~= before.push(
                (kv[q as int], total as int, count as nat),
            ));
            assert(consensus_means(props).subrange(0, q + 1) =~= consensus_means(props).subrange(0, q as int).push(
                consensus_means(props)[q as int],
            ));
            q += 1;
        }
        assert(consensus_means(props).subrange(0, keys@.len() as int) =~= consensus_means(props));
        ConsensusConfig { room_id: "consensus".to_owned(), settings }
    }

    /// Run the negotiation for at most `rounds` rounds (and at most the configured maximum).
    /// Each round every setting moves half the way toward the mean of its key; the
    /// negotiation stops early once a round's largest move falls below the convergence
    /// threshold. Every move is exact: round `i` (from 1) moves the farthest setting by
    /// `x / (c · 2^(halvings + i))`, where `x / c` is the largest distance of an anchor from the
    /// mean of its key, so each round's largest move is half the one before. Returns the
    /// consensus and the convergence of every round run. Rounds never change a key's mean,
    /// so the consensus is the exact mean of the values the rooms proposed when they joined.
    pub fn negotiate(&mut self, rounds: u32) -> (result: (ConsensusConfig, Vec<ConvergenceState>))
        requires
            old(self).well_formed(),
            old(self).spec_halvings() + rounds <= u64::MAX,
        ensures
            ({
                let (consensus, history) = result;
                let start = old(self).spec_proposals();
                let h0 = old(self).spec_halvings();
                let limit: int = if rounds < old(self).spec_max_rounds() {
                    rounds as int
                } else {
                    old(self).spec_max_rounds() as int
                };
                let h = history@.len() as int;
                &&& h <= limit
                &&& start.len() == 0 ==> h == 0
                &&& forall|i: int|
                    0 <= i < h ==> {
                        &&& (#[trigger] history@[i]).round == i + 1
                        &&& largest_spread(
                            start,
                            history@[i].max_delta.numerator as nat,
                            history@[i].max_delta.count as nat,
                        )
                        &&& history@[i].max_delta.numerator == history@[0].max_delta.numerator
                        &&& history@[i].max_delta.count == history@[0].max_delta.count
                        &&& history@[i].max_delta.halvings == h0 + i + 1
                        &&& history@[i].converged == move_below(history@[i].max_delta, old(self).spec_threshold() as int)
                    }
                &&& forall|i: int| 0 <= i < h - 1 ==> !(#[trigger] history@[i]).converged
                &&& (start.len() > 0 && (h == 0 || !history@[h - 1].converged)) ==> h == limit
                &&& final(self).spec_proposals() == start
                &&& final(self).spec_halvings() == h0 + h
                &&& final(self).spec_room_ids() == old(self).spec_room_ids()
                &&& final(self).spec_threshold() == old(self).spec_threshold()
                &&& final(self).spec_max_rounds() == old(self).spec_max_rounds()
                &&& final(self).well_formed()
                &&& consensus.room_id@ == "consensus"@
                &&& consensus.means() == consensus_means(old(self).spec_joined())
                &&& final(self).spec_joined() == old(self).spec_joined()
            }),
    {
        let ghost start = self.spec_proposals();
        let limit = if rounds < self.max_rounds { rounds } else { self.max_rounds };
        let (x, c) = self.find_largest_spread();
        let h0 = self.halvings;
        let t = self.convergence_threshold;
        let mut history: Vec<ConvergenceState> = Vec::new();
        let mut done: u32 = 0;
        if self.proposals.len() > 0 {
            loop
                invariant_except_break
                    forall|i: int| 0 <= i < history@.len() ==> !(#[trigger] history@[i]).converged,
                invariant
                    limit as int == if rounds < old(self).spec_max_rounds() {
                        rounds as int
                    } else {
                        old(self).spec_max_rounds() as int
                    },
                    h0 == old(self).spec_halvings(),
                    h0 + rounds <= u64::MAX,
                    t == old(self).spec_threshold(),
                    x < 0x1_0000_0000_0000_0000_0000_0000,
                    0 < c < 0x1_0000_0000,
                    done <= limit,
                    history@.len() == done,
                    forall|i: int|
                        0 <= i < done ==> #[trigger] history@[i] == (ConvergenceState {
                            round: (i + 1) as u32,
                            max_delta: Move { numerator: x, count: c, halvings: (h0 + i + 1) as u64 },
                            converged: move_below(
                                Move { numerator: x, count: c, halvings: (h0 + i + 1) as u64 },
                                t as int,
                            ),
                        }),
                ensures
                    done <= limit,
                    history@.len() == done,
                    forall|i: int|
                        0 <= i < done ==> #[trigger] history@[i] == (ConvergenceState {
                            round: (i + 1) as u32,
                            max_delta: Move { numerator: x, count: c, halvings: (h0 + i + 1) as u64 },
                            converged: move_below(
                                Move { numerator: x, count: c, halvings: (h0 + i + 1) as u64 },
                                t as int,
                            ),
                        }),
                    forall|i: int| 0 <= i < done - 1 ==> !(#[trigger] history@[i]).converged,
                    (done == 0 || !history@[done - 1].converged) ==> done == limit,
                decreases limit - done,
            {
                if done >= limit {
                    break;
                }
                let ghost prev = history@;
                done += 1;
                let h: u64 = h0 + done as u64;
                let converged = below_threshold(x, c, h, t);
                let step = Move { numerator: x, count: c, halvings: h };
                history.push(ConvergenceState { round: done, max_delta: step, converged });
                proof {
                    assert forall|i: int| 0 <= i < done - 1 implies #[trigger] history@[i] == prev[i] by {}
                }
                if converged {
                    break;
                }
            }
            self.halvings = h0 + done as u64;
        }
        assert(self.spec_proposals() == start);
        let consensus = self.compute_consensus();
        (consensus, history)
    }

    /// How many times every setting's distance to its key's mean has been halved since the
    /// anchors were set.
    pub fn halvings(&self) -> (h: u64)
        ensures
            h == self.spec_halvings(),
    {
        self.halvings
    }

    /// Number of participating rooms.
    pub fn room_count(&self) -> (n: usize)
        ensures
            n == self.spec_proposals().len(),
    {
        self.proposals.len()
    }
}

/// Palaver consensus manager.
#[derive(Debug, Clone)]
pub struct PalaverConsensus;

impl PalaverConsensus {
    /// A negotiation with the given convergence threshold (in millionths), at most 100 rounds.
    pub fn create_consensus(threshold: i64) -> (c: RoomConsensus)
        ensures
            c.well_formed(),
            c.spec_proposals() == Seq::<Entries>::empty(),
            c.spec_halvings() == 0,
            c.spec_threshold() == threshold,
            c.spec_max_rounds() == 100,
    {
        RoomConsensus::new(threshold, 100)
    }
}

} // verus!
