//! The common fractions numbers are approximated with, in a table sorted by
//! their value in fixed point.

use vstd::prelude::*;

verus! {

/// A fraction in the table: its value in fixed point and its numerator and
/// denominator
pub type FractionEntry = (i16, (u8, u8));

/// The ratio of the fixed point representation
pub const FIX_RATIO: i32 = 10000;

/// Number of denominators fractions are built with
pub const NUM_DENOMS: usize = 6;

/// The denominators fractions are built with, smallest first
pub open spec fn denoms() -> Seq<u8> {
    seq![2u8, 3u8, 4u8, 8u8, 10u8, 16u8]
}

/// The position of the denominator `den` in [`denoms`], -1 if it is none
pub open spec fn denom_pos(den: u8) -> int {
    if den == 2 {
        0
    } else if den == 3 {
        1
    } else if den == 4 {
        2
    } else if den == 8 {
        3
    } else if den == 10 {
        4
    } else if den == 16 {
        5
    } else {
        -1
    }
}

/// The fixed point value of `num / den`, truncated
///
/// For every fraction of the table this is what truncating the floating
/// point product `num / den * 10000` gives.
pub open spec fn fixed(num: int, den: int) -> int {
    (num * FIX_RATIO) / den
}

/// The fixed point value of `num / denoms()[a]`
pub open spec fn frac_value(a: int, num: int) -> int {
    fixed(num, denoms()[a] as int)
}

/// The fraction `num / denoms()[a]` is one the table is built from
pub open spec fn is_candidate(a: int, num: int) -> bool {
    0 <= a < NUM_DENOMS && 1 <= num < denoms()[a]
}

/// The fraction `(a1, n1)` comes before `(a2, n2)` when building the table:
/// by denominator, then by numerator
pub open spec fn precedes(a1: int, n1: int, a2: int, n2: int) -> bool {
    a1 < a2 || (a1 == a2 && n1 < n2)
}

/// The keys of the table increase strictly
pub open spec fn sorted(t: Seq<FractionEntry>) -> bool {
    forall|i: int, j: int| 0 <= i < j < t.len() ==> (#[trigger] t[i]).0 < (#[trigger] t[j]).0
}

/// Entry `e` is a fraction the table is built from with its fixed point
/// value, and no fraction before it has that value
pub open spec fn first_with_value(e: FractionEntry) -> bool {
    let a = denom_pos(e.1.1);
    &&& is_candidate(a, e.1.0 as int)
    &&& e.1.1 == denoms()[a]
    &&& e.0 == fixed(e.1.0 as int, denoms()[a] as int)
    &&& forall|a2: int, n2: int|
        #![trigger frac_value(a2, n2)]
        is_candidate(a2, n2) && precedes(a2, n2, a, e.1.0 as int) ==> frac_value(a2, n2) != e.0
}

/// The table holds, sorted by value, the first fraction with each value
/// among those built from the denominators
pub open spec fn table_wf(t: Seq<FractionEntry>) -> bool {
    &&& sorted(t)
    &&& forall|i: int| 0 <= i < t.len() ==> first_with_value(#[trigger] t[i])
    &&& forall|a: int, n: int|
        #![trigger frac_value(a, n)]
        is_candidate(a, n) ==> has_value(t, frac_value(a, n))
}

/// Lookup table of the common fractions
pub struct FractionLookupTable(Vec<FractionEntry>);

impl FractionLookupTable {
    /// The entries of the table
    pub closed spec fn entries(self) -> Seq<FractionEntry> {
        self.0@
    }

    #[verifier::type_invariant]
    closed spec fn inv(self) -> bool {
        table_wf(self.0@)
    }
}

/// Some entry of `t` has the value `key`
pub open spec fn has_value(t: Seq<FractionEntry>, key: int) -> bool {
    exists|i: int| 0 <= i < t.len() && #[trigger] t[i].0 == key
}

/// The keys of `t` before `p` are below `key`, the others are not
pub open spec fn splits_at(t: Seq<FractionEntry>, key: int, p: int) -> bool {
    &&& 0 <= p <= t.len()
    &&& forall|j: int| 0 <= j < p ==> (#[trigger] t[j]).0 < key
    &&& forall|j: int| p <= j < t.len() ==> (#[trigger] t[j]).0 >= key
}

/// Every fraction built before `(a, n)` has its value in the table
pub open spec fn covers_before(t: Seq<FractionEntry>, a: int, n: int) -> bool {
    forall|a2: int, n2: int|
        #![trigger frac_value(a2, n2)]
        is_candidate(a2, n2) && precedes(a2, n2, a, n) ==> has_value(t, frac_value(a2, n2))
}

/// Covering the fractions before `(a, n)` covers those before `(a2, n2)`
/// when no fraction lies between them
proof fn lemma_covers_more(t: Seq<FractionEntry>, a: int, n: int, a2: int, n2: int)
    requires
        covers_before(t, a, n),
        0 <= a < NUM_DENOMS ==> n >= denoms()[a],
        a2 == a + 1 || (a2 == a && n2 <= n),
        n2 == 1 || a2 == a,
    ensures
        covers_before(t, a2, n2),
{
    assert forall|a3: int, n3: int|
        #![trigger frac_value(a3, n3)]
        is_candidate(a3, n3) && precedes(a3, n3, a2, n2) implies has_value(t, frac_value(a3, n3)) by {
        if a3 == a {
            assert(n3 < denoms()[a3]);
            assert(n3 < n);
        }
        assert(precedes(a3, n3, a, n));
    }
}

proof fn lemma_fixed_bounds(num: int, den: int)
    by (nonlinear_arith)
    requires
        1 <= num < den <= 16,
    ensures
        0 <= fixed(num, den) < FIX_RATIO,
        num * FIX_RATIO <= 160000,
{
}

impl FractionLookupTable {
    /// Builds the table of the fractions with denominators 2, 3, 4, 8, 10
    /// and 16 and a numerator between 1 and the denominator
    ///
    /// Fractions with the same value in fixed point appear once, with the
    /// smallest denominator.
    pub fn new() -> (r: Self)
        ensures
            table_wf(r.entries()),
    {
        let dens: [u8; NUM_DENOMS] = [2, 3, 4, 8, 10, 16];
        assert(dens@ =~= denoms());
        let mut table: Vec<FractionEntry> = Vec::new();
        let mut a: usize = 0;
        while a < NUM_DENOMS
            invariant
                a <= NUM_DENOMS,
                dens@ == denoms(),
                sorted(table@),
                forall|i: int| 0 <= i < table@.len() ==> first_with_value(#[trigger] table@[i]),
                covers_before(table@, a as int, 1),
            decreases NUM_DENOMS - a,
        {
            let den = dens[a];
            let mut num: u8 = 1;
            while num < den
                invariant
                    a < NUM_DENOMS,
                    dens@ == denoms(),
                    den == denoms()[a as int],
                    1 <= num <= den,
                    sorted(table@),
                    forall|i: int| 0 <= i < table@.len() ==> first_with_value(#[trigger] table@[i]),
                    covers_before(table@, a as int, num as int),
                decreases den - num,
            {
                proof {
                    lemma_fixed_bounds(num as int, den as int);
                }
                let value = (num as i32 * FIX_RATIO / den as i32) as i16;
                assert(value == frac_value(a as int, num as int));
                // only insert if not already in: iterating from low to high
                // denominator, each value is kept with its smallest one
                match search(&table, value) {
                    Ok(_) => {},
                    Err(pos) => {
                        let ghost before = table@;
                        table.insert(pos, (value, (num, den)));
                        proof {
                            assert(forall|j: int| 0 <= j < pos ==> table@[j] == before[j]);
                            assert(forall|j: int| pos < j < table@.len() ==> table@[j] == before[j - 1]);
                            assert(table@[pos as int] == (value, (num, den)));
                            assert(denom_pos(den) == a);
                            assert forall|i: int| 0 <= i < table@.len() implies first_with_value(#[trigger] table@[i]) by {
                                if i < pos {
                                    assert(first_with_value(before[i]));
                                } else if i > pos {
                                    assert(first_with_value(before[i - 1]));
                                } else {
                                    assert forall|a2: int, n2: int|
                                        #![trigger frac_value(a2, n2)]
                                        is_candidate(a2, n2) && precedes(a2, n2, a as int, num as int) implies frac_value(a2, n2) != value by {
                                        assert(has_value(before, frac_value(a2, n2)));
                                        let w = choose|w: int| 0 <= w < before.len() && #[trigger] before[w].0 == frac_value(a2, n2);
                                        assert(before[w].0 != value);
                                    }
                                }
                            }
                            assert(sorted(table@)) by {
                                assert forall|i: int, j: int| 0 <= i < j < table@.len() implies (#[trigger] table@[i]).0 < (#[trigger] table@[j]).0 by {
                                    if j < pos {
                                        assert(before[i].0 < before[j].0);
                                    } else if i > pos {
                                        assert(before[i - 1].0 < before[j - 1].0);
                                    } else if i < pos && j > pos {
                                        assert(before[i].0 < before[j - 1].0);
                                    } else if i == pos {
                                        assert(before[j - 1].0 >= value);
                                        assert(before[j - 1].0 != value);
                                    } else {
                                        assert(before[i].0 < value);
                                    }
                                }
                            }
                            assert forall|a2: int, n2: int|
                                #![trigger frac_value(a2, n2)]
                                is_candidate(a2, n2) && precedes(a2, n2, a as int, num as int) implies has_value(table@, frac_value(a2, n2)) by {
                                assert(has_value(before, frac_value(a2, n2)));
                                let w = choose|w: int| 0 <= w < before.len() && #[trigger] before[w].0 == frac_value(a2, n2);
                                if w < pos {
                                    assert(table@[w].0 == frac_value(a2, n2));
                                } else {
                                    assert(table@[w + 1].0 == frac_value(a2, n2));
                                }
                            }
                        }
                    },
                }
                proof {
                    assert(has_value(table@, frac_value(a as int, num as int)));
                    assert forall|a2: int, n2: int|
                        #![trigger frac_value(a2, n2)]
                        is_candidate(a2, n2) && precedes(a2, n2, a as int, num + 1) implies has_value(table@, frac_value(a2, n2)) by {
                        if !(a2 == a && n2 == num) {
                            assert(precedes(a2, n2, a as int, num as int));
                        }
                    }
                }
                num = num + 1;
            }
            proof {
                lemma_covers_more(table@, a as int, num as int, a + 1, 1);
            }
            a = a + 1;
        }
        proof {
            lemma_covers_more(table@, a as int, 1, NUM_DENOMS as int, 1);
            assert(table_wf(table@));
        }
        FractionLookupTable(table)
    }
}

/// Where `key` is or would be inserted in the sorted table `t`
pub open spec fn position(t: Seq<FractionEntry>, key: int) -> int {
    choose|p: int| #[trigger] splits_at(t, key, p)
}

proof fn lemma_position(t: Seq<FractionEntry>, key: int, p: int)
    requires
        sorted(t),
        0 <= p <= t.len(),
        forall|j: int| 0 <= j < p ==> (#[trigger] t[j]).0 < key,
        forall|j: int| p <= j < t.len() ==> (#[trigger] t[j]).0 >= key,
    ensures
        position(t, key) == p,
{
    assert(splits_at(t, key, p));
    let c = position(t, key);
    assert(splits_at(t, key, c));
    if c < p {
        assert(t[c].0 < key);
    }
    if c > p {
        assert(t[p].0 < key);
    }
}

/// Binary search of `key` in the sorted table `t`: its index when present,
/// else where it would be inserted
fn search(t: &Vec<FractionEntry>, key: i16) -> (r: Result<usize, usize>)
    requires
        sorted(t@),
    ensures
        match r {
            Ok(i) => i < t@.len() && t@[i as int].0 == key && position(t@, key as int) == i
                && splits_at(t@, key as int, i as int),
            Err(p) => {
                &&& p <= t@.len()
                &&& splits_at(t@, key as int, p as int)
                &&& position(t@, key as int) == p
                &&& forall|j: int| 0 <= j < t@.len() ==> (#[trigger] t@[j]).0 != key
            },
        },
{
    let mut lo: usize = 0;
    let mut hi: usize = t.len();
    while lo < hi
        invariant
            sorted(t@),
            lo <= hi <= t@.len(),
            forall|j: int| 0 <= j < lo ==> (#[trigger] t@[j]).0 < key,
            forall|j: int| hi <= j < t@.len() ==> (#[trigger] t@[j]).0 > key,
        decreases hi - lo,
    {
        let mid = lo + (hi - lo) / 2;
        let k = t[mid].0;
        if k < key {
            lo = mid + 1;
        } else if k > key {
            hi = mid;
        } else {
            proof {
                lemma_position(t@, key as int, mid as int);
            }
            return Ok(mid);
        }
    }
    proof {
        lemma_position(t@, key as int, lo as int);
    }
    Err(lo)
}


/// The entry `i` of `t` has a denominator of at most `max_den`
pub open spec fn eligible(t: Seq<FractionEntry>, max_den: u8, i: int) -> bool {
    t[i].1.1 <= max_den
}

/// The first eligible entry of `t` from `from` on
pub open spec fn first_eligible(t: Seq<FractionEntry>, max_den: u8, from: int) -> Option<int>
    decreases t.len() - from,
{
    if from < 0 || from >= t.len() {
        None
    } else if eligible(t, max_den, from) {
        Some(from)
    } else {
        first_eligible(t, max_den, from + 1)
    }
}

/// The last eligible entry of `t` before `to`
pub open spec fn last_eligible(t: Seq<FractionEntry>, max_den: u8, to: int) -> Option<int>
    decreases to,
{
    if to <= 0 || to > t.len() {
        None
    } else if eligible(t, max_den, to - 1) {
        Some(to - 1)
    } else {
        last_eligible(t, max_den, to - 1)
    }
}

/// Distance between two fixed point values
pub open spec fn distance(a: int, b: int) -> int {
    if a >= b {
        a - b
    } else {
        b - a
    }
}

/// The fraction [`FractionLookupTable::lookup`] finds for the fixed point
/// value `key` with denominators up to `max_den`: the one with exactly that
/// value, else the nearest from below or from above (by distance, then
/// smaller denominator, then the one below)
pub open spec fn lookup_spec(t: Seq<FractionEntry>, key: int, max_den: u8) -> Option<(u8, u8)> {
    let p = position(t, key);
    if p < t.len() && t[p].0 == key && eligible(t, max_den, p) {
        Some(t[p].1)
    } else {
        match (last_eligible(t, max_den, p), first_eligible(t, max_den, p)) {
            (None, Some(h)) => Some(t[h].1),
            (Some(l), None) => Some(t[l].1),
            (Some(l), Some(h)) => {
                let low_err = distance(t[l].0 as int, key);
                let high_err = distance(t[h].0 as int, key);
                if low_err < high_err || (low_err == high_err && t[l].1.1 <= t[h].1.1) {
                    Some(t[l].1)
                } else {
                    Some(t[h].1)
                }
            },
            (None, None) => None,
        }
    }
}

proof fn lemma_first_eligible(t: Seq<FractionEntry>, max_den: u8, from: int)
    requires
        0 <= from,
    ensures
        match first_eligible(t, max_den, from) {
            Some(h) => from <= h < t.len() && eligible(t, max_den, h) && forall|j: int|
                from <= j < h ==> !eligible(t, max_den, j),
            None => forall|j: int| from <= j < t.len() ==> !eligible(t, max_den, j),
        },
    decreases t.len() - from,
{
    if from < t.len() && !eligible(t, max_den, from) {
        lemma_first_eligible(t, max_den, from + 1);
    }
}

proof fn lemma_last_eligible(t: Seq<FractionEntry>, max_den: u8, to: int)
    requires
        to <= t.len(),
    ensures
        match last_eligible(t, max_den, to) {
            Some(l) => 0 <= l < to && eligible(t, max_den, l) && forall|j: int|
                l < j < to ==> !eligible(t, max_den, j),
            None => forall|j: int| 0 <= j < to ==> !eligible(t, max_den, j),
        },
    decreases to,
{
    if to > 0 && !eligible(t, max_den, to - 1) {
        lemma_last_eligible(t, max_den, to - 1);
    }
}

proof fn lemma_splits_exist(t: Seq<FractionEntry>, key: int)
    requires
        sorted(t),
    ensures
        splits_at(t, key, position(t, key)),
    decreases t.len(),
{
    if t.len() == 0 {
        assert(splits_at(t, key, 0));
    } else {
        let s = t.drop_last();
        assert(sorted(s));
        lemma_splits_exist(s, key);
        let q = position(s, key);
        assert(forall|j: int| 0 <= j < s.len() ==> s[j] == t[j]);
        if q == s.len() && t.last().0 < key {
            assert(splits_at(t, key, t.len() as int));
        } else if q == s.len() {
            assert(splits_at(t, key, s.len() as int));
        } else {
            assert(s[q].0 >= key);
            assert(t[q].0 >= key);
            assert(t[q].0 < t[t.len() - 1].0);
            assert(splits_at(t, key, q));
        }
    }
}

/// The fraction found for a fixed point value is the nearest to it among
/// those with an allowed denominator, and one is found whenever the table
/// has any with an allowed denominator.
pub proof fn lemma_lookup_nearest(t: Seq<FractionEntry>, key: int, max_den: u8)
    requires
        table_wf(t),
    ensures
        lookup_spec(t, key, max_den) is None <==> forall|i: int|
            0 <= i < t.len() ==> !eligible(t, max_den, i),
        lookup_spec(t, key, max_den) matches Some(f) ==> exists|k: int|
            {
                &&& 0 <= k < t.len()
                &&& eligible(t, max_den, k)
                &&& t[k].1 == f
                &&& forall|j: int|
                    0 <= j < t.len() && eligible(t, max_den, j) ==> distance(t[k].0 as int, key)
                        <= distance(t[j].0 as int, key)
            },
{
    lemma_splits_exist(t, key);
    let p = position(t, key);
    lemma_first_eligible(t, max_den, p);
    lemma_last_eligible(t, max_den, p);
    if p < t.len() && t[p].0 == key && eligible(t, max_den, p) {
        assert(distance(t[p].0 as int, key) == 0);
    } else {
        match (last_eligible(t, max_den, p), first_eligible(t, max_den, p)) {
            (Some(l), Some(h)) => {
                let low_err = distance(t[l].0 as int, key);
                let high_err = distance(t[h].0 as int, key);
                assert forall|j: int| 0 <= j < t.len() && eligible(t, max_den, j) implies (j < p ==> low_err <= distance(t[j].0 as int, key)) && (j >= p ==> high_err <= distance(t[j].0 as int, key)) by {
                    if j < p {
                        if j < l {
                            assert(t[j].0 < t[l].0);
                        }
                    } else {
                        if j > h {
                            assert(t[h].0 < t[j].0);
                        }
                    }
                }
            },
            (Some(l), None) => {
                assert forall|j: int| 0 <= j < t.len() && eligible(t, max_den, j) implies distance(t[l].0 as int, key) <= distance(t[j].0 as int, key) by {
                    if j < l {
                        assert(t[j].0 < t[l].0);
                    }
                }
            },
            (None, Some(h)) => {
                assert forall|j: int| 0 <= j < t.len() && eligible(t, max_den, j) implies distance(t[h].0 as int, key) <= distance(t[j].0 as int, key) by {
                    if j > h {
                        assert(t[h].0 < t[j].0);
                    }
                }
            },
            (None, None) => {},
        }
    }
}

impl FractionLookupTable {
    /// Finds the fraction closest to the fixed point value `fixed` (a
    /// decimal part times 10000) with a denominator of at most `max_den`
    pub fn lookup(&self, fixed: i16, max_den: u8) -> (r: Option<(u8, u8)>)
        ensures
            r == lookup_spec(self.entries(), fixed as int, max_den),
    {
        proof {
            use_type_invariant(self);
        }
        let t = &self.0;
        let pos = search(t, fixed);
        let found = match pos {
            Ok(i) => t[i].1.1 <= max_den,
            Err(_) => false,
        };
        if found {
            match pos {
                Ok(i) => {
                    return Some(t[i].1);
                },
                Err(_) => {},
            }
        }
        let pos = match pos {
            Ok(i) => i,
            Err(i) => i,
        };
        // the first eligible from `pos` on
        let mut h: usize = pos;
        while h < t.len() && t[h].1.1 > max_den
            invariant
                pos <= h <= t@.len(),
                first_eligible(t@, max_den, pos as int) == first_eligible(t@, max_den, h as int),
            decreases t@.len() - h,
        {
            h = h + 1;
        }
        let high = if h < t.len() {
            Some(t[h])
        } else {
            None
        };
        // the last eligible before `pos`
        let mut l: usize = pos;
        while l > 0 && t[l - 1].1.1 > max_den
            invariant
                l <= pos <= t@.len(),
                last_eligible(t@, max_den, pos as int) == last_eligible(t@, max_den, l as int),
            decreases l,
        {
            l = l - 1;
        }
        let low = if l > 0 {
            Some(t[l - 1])
        } else {
            None
        };
        match (low, high) {
            (None, Some((_, f))) => Some(f),
            (Some((_, f)), None) => Some(f),
            (Some((a_val, a)), Some((b_val, b))) => {
                // in 32 bits, so no value of 16 bits overflows
                let a_err: i32 = if a_val >= fixed {
                    a_val as i32 - fixed as i32
                } else {
                    fixed as i32 - a_val as i32
                };
                let b_err: i32 = if b_val >= fixed {
                    b_val as i32 - fixed as i32
                } else {
                    fixed as i32 - b_val as i32
                };
                if a_err < b_err || (a_err == b_err && a.1 <= b.1) {
                    Some(a)
                } else {
                    Some(b)
                }
            },
            (None, None) => None,
        }
    }
}

} // verus!
