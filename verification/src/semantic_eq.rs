//! Equality in meaning rather than in spelling
//!
//! `PartialEq` compares the parsed recipe as it was written. [`SemanticEq`]
//! compares what it means: `500 g` equals `0.5 kg`, `1 h` equals `60 min`.
//!
//! This needs a unit converter to resolve units, so it cannot be a
//! `PartialEq` implementation: the converter is the parameter `C`.

use vstd::prelude::*;

verus! {

/// Compares two values for equality in meaning, resolving units with a
/// converter of type `C`.
///
/// It composes through [`Option`], slices and [`Vec`], so a whole recipe is
/// compared by comparing its parts.
///
/// # Not an equivalence relation
/// Numbers are compared allowing the error their units tolerate, so this
/// relation is reflexive and symmetric but **not transitive**.
pub trait SemanticEq<C> {
    /// What [`SemanticEq::equals`] answers
    spec fn semantically_equals(&self, other: &Self, converter: &C) -> bool;

    /// Compares `self` with `other`, resolving units with `converter`
    fn equals(&self, other: &Self, converter: &C) -> (r: bool)
        ensures
            r == self.semantically_equals(other, converter),
    ;
}

/// Two sequences are equal in meaning when they have the same length and are
/// equal item by item
pub open spec fn seq_semantically_equal<C, T: SemanticEq<C>>(
    a: Seq<T>,
    b: Seq<T>,
    converter: &C,
) -> bool {
    &&& a.len() == b.len()
    &&& forall|i: int| 0 <= i < a.len() ==> #[trigger] a[i].semantically_equals(&b[i], converter)
}

impl<C, T: SemanticEq<C>> SemanticEq<C> for Option<T> {
    open spec fn semantically_equals(&self, other: &Self, converter: &C) -> bool {
        match (self, other) {
            (Some(a), Some(b)) => a.semantically_equals(b, converter),
            (None, None) => true,
            _ => false,
        }
    }

    fn equals(&self, other: &Self, converter: &C) -> (r: bool) {
        match (self, other) {
            (Some(a), Some(b)) => a.equals(b, converter),
            (None, None) => true,
            _ => false,
        }
    }
}

impl<C, T: SemanticEq<C>> SemanticEq<C> for [T] {
    open spec fn semantically_equals(&self, other: &Self, converter: &C) -> bool {
        seq_semantically_equal(self@, other@, converter)
    }

    fn equals(&self, other: &Self, converter: &C) -> (r: bool) {
        if self.len() != other.len() {
            return false;
        }
        let mut i: usize = 0;
        while i < self.len()
            invariant
                self@.len() == other@.len(),
                i <= self@.len(),
                forall|j: int| 0 <= j < i ==> #[trigger] self@[j].semantically_equals(&other@[j], converter),
            decreases self@.len() - i,
        {
            if !self[i].equals(&other[i], converter) {
                return false;
            }
            i = i + 1;
        }
        true
    }

}

impl<'a, C, T: SemanticEq<C> + ?Sized> SemanticEq<C> for &'a T {
    open spec fn semantically_equals(&self, other: &Self, converter: &C) -> bool {
        (**self).semantically_equals(&**other, converter)
    }

    fn equals(&self, other: &Self, converter: &C) -> (r: bool) {
        T::equals(*self, *other, converter)
    }
}

impl<C, T: SemanticEq<C>> SemanticEq<C> for Vec<T> {
    open spec fn semantically_equals(&self, other: &Self, converter: &C) -> bool {
        seq_semantically_equal(self@, other@, converter)
    }

    fn equals(&self, other: &Self, converter: &C) -> (r: bool) {
        self.as_slice().equals(other.as_slice(), converter)
    }
}

/// Optional values are compared by what they hold: two missing values are
/// equal, a missing value never equals a present one, and two present values
/// are equal exactly when what they hold is.
pub proof fn lemma_options_equal_by_contents<C, T: SemanticEq<C>>(x: T, y: T, converter: &C)
    ensures
        Option::<T>::None.semantically_equals(&None, converter),
        !Some(x).semantically_equals(&None, converter),
        !Option::<T>::None.semantically_equals(&Some(y), converter),
        Some(x).semantically_equals(&Some(y), converter) == x.semantically_equals(&y, converter),
{
}

/// Lists are compared item by item: two empty lists are equal, lists of
/// different lengths are not, and two lists extended by one item each are
/// equal exactly when they were before and the new items are equal too, so a
/// list differing from another in any item, the last one included, is not
/// equal to it.
pub proof fn lemma_lists_equal_item_by_item<C, T: SemanticEq<C>>(
    s: Seq<T>,
    t: Seq<T>,
    x: T,
    y: T,
    converter: &C,
)
    ensures
        seq_semantically_equal(Seq::<T>::empty(), Seq::<T>::empty(), converter),
        s.len() != t.len() ==> !seq_semantically_equal(s, t, converter),
        seq_semantically_equal(s.push(x), t.push(y), converter) == (seq_semantically_equal(
            s,
            t,
            converter,
        ) && x.semantically_equals(&y, converter)),
{
    let (a, b) = (s.push(x), t.push(y));
    if seq_semantically_equal(a, b, converter) {
        assert(a[a.len() - 1] == x && b[b.len() - 1] == y);
        assert(a[s.len() as int].semantically_equals(&b[s.len() as int], converter));
        assert forall|i: int| 0 <= i < s.len() implies #[trigger] s[i].semantically_equals(
            &t[i],
            converter,
        ) by {
            assert(a[i] == s[i] && b[i] == t[i]);
            assert(a[i].semantically_equals(&b[i], converter));
        }
    }
    if seq_semantically_equal(s, t, converter) && x.semantically_equals(&y, converter) {
        assert forall|i: int| 0 <= i < a.len() implies #[trigger] a[i].semantically_equals(
            &b[i],
            converter,
        ) by {
            if i < s.len() {
                assert(a[i] == s[i] && b[i] == t[i]);
                assert(s[i].semantically_equals(&t[i], converter));
            }
        }
    }
}

/// The relation of `T` is reflexive
pub open spec fn reflexive<C, T: SemanticEq<C>>(converter: &C) -> bool {
    forall|x: T| #[trigger] x.semantically_equals(&x, converter)
}

/// The relation of `T` is symmetric
pub open spec fn symmetric<C, T: SemanticEq<C>>(converter: &C) -> bool {
    forall|x: T, y: T| #[trigger] x.semantically_equals(&y, converter) ==> y.semantically_equals(&x, converter)
}

/// Comparing optional values or sequences keeps the relation of their items
/// reflexive and symmetric.
pub proof fn lemma_compositions_keep_reflexive_symmetric<C, T: SemanticEq<C>>(
    a: Option<T>,
    b: Option<T>,
    s: Seq<T>,
    t: Seq<T>,
    converter: &C,
)
    ensures
        reflexive::<C, T>(converter) ==> a.semantically_equals(&a, converter),
        reflexive::<C, T>(converter) ==> seq_semantically_equal(s, s, converter),
        symmetric::<C, T>(converter) ==> (a.semantically_equals(&b, converter) ==> b.semantically_equals(&a, converter)),
        symmetric::<C, T>(converter) ==> (seq_semantically_equal(s, t, converter) ==> seq_semantically_equal(t, s, converter)),
{
    if reflexive::<C, T>(converter) {
        assert forall|i: int| 0 <= i < s.len() implies #[trigger] s[i].semantically_equals(&s[i], converter) by {
            let x = s[i];
            assert(x.semantically_equals(&x, converter));
        }
    }
    if symmetric::<C, T>(converter) && seq_semantically_equal(s, t, converter) {
        assert forall|i: int| 0 <= i < t.len() implies #[trigger] t[i].semantically_equals(&s[i], converter) by {
            assert(s[i].semantically_equals(&t[i], converter));
        }
    }
}

/// `item` can be paired with `b[j]`: `b[j]` is not taken yet and both are
/// equal in meaning
pub open spec fn can_pair<C, T: SemanticEq<C>>(
    item: T,
    b: Seq<T>,
    taken: Seq<int>,
    converter: &C,
    j: int,
) -> bool {
    !taken.contains(j) && item.semantically_equals(&b[j], converter)
}

/// The first index below `n` that `item` can be paired with
pub open spec fn first_pair<C, T: SemanticEq<C>>(
    item: T,
    b: Seq<T>,
    taken: Seq<int>,
    converter: &C,
    n: int,
) -> Option<int>
    decreases n,
{
    if n <= 0 {
        None
    } else {
        match first_pair(item, b, taken, converter, n - 1) {
            Some(j) => Some(j),
            None => if can_pair(item, b, taken, converter, n - 1) {
                Some(n - 1)
            } else {
                None
            },
        }
    }
}

/// The indices of `b` the first `k` items of `a` are greedily paired with,
/// each taking the first free item of `b` equal to it; `None` when one of
/// them finds none
pub open spec fn greedy_pairs<C, T: SemanticEq<C>>(
    a: Seq<T>,
    b: Seq<T>,
    converter: &C,
    k: int,
) -> Option<Seq<int>>
    decreases k,
{
    if k <= 0 {
        Some(Seq::empty())
    } else {
        match greedy_pairs(a, b, converter, k - 1) {
            Some(taken) => match first_pair(a[k - 1], b, taken, converter, b.len() as int) {
                Some(j) => Some(taken.push(j)),
                None => None,
            },
            None => None,
        }
    }
}

/// `pairs` matches every item of `a` with a distinct item of `b` equal to it
pub open spec fn is_pairing<C, T: SemanticEq<C>>(
    a: Seq<T>,
    b: Seq<T>,
    converter: &C,
    pairs: Seq<int>,
) -> bool {
    &&& pairs.len() == a.len()
    &&& forall|i: int| 0 <= i < pairs.len() ==> 0 <= #[trigger] pairs[i] < b.len()
    &&& forall|i: int, j: int| 0 <= i < j < pairs.len() ==> pairs[i] != pairs[j]
    &&& forall|i: int|
        0 <= i < pairs.len() ==> #[trigger] a[i].semantically_equals(&b[pairs[i]], converter)
}

proof fn lemma_first_pair<C, T: SemanticEq<C>>(
    item: T,
    b: Seq<T>,
    taken: Seq<int>,
    converter: &C,
    n: int,
)
    requires
        n <= b.len(),
    ensures
        first_pair(item, b, taken, converter, n) matches Some(j) ==> {
            &&& 0 <= j < n
            &&& can_pair(item, b, taken, converter, j)
        },
    decreases n,
{
    if n > 0 {
        lemma_first_pair(item, b, taken, converter, n - 1);
    }
}

proof fn lemma_greedy_pairs<C, T: SemanticEq<C>>(a: Seq<T>, b: Seq<T>, converter: &C, k: int)
    requires
        0 <= k <= a.len(),
    ensures
        greedy_pairs(a, b, converter, k) matches Some(pairs) ==> is_pairing(
            a.take(k),
            b,
            converter,
            pairs,
        ),
    decreases k,
{
    if k > 0 {
        lemma_greedy_pairs(a, b, converter, k - 1);
        if let Some(taken) = greedy_pairs(a, b, converter, k - 1) {
            lemma_first_pair(a[k - 1], b, taken, converter, b.len() as int);
            if let Some(j) = first_pair(a[k - 1], b, taken, converter, b.len() as int) {
                let pairs = taken.push(j);
                assert forall|i: int, l: int| 0 <= i < l < pairs.len() implies pairs[i]
                    != pairs[l] by {
                    if l == pairs.len() - 1 {
                        assert(taken[i] == pairs[i]);
                        assert(taken.contains(pairs[i]));
                    }
                }
                assert forall|i: int| 0 <= i < pairs.len() implies #[trigger] a.take(
                    k,
                )[i].semantically_equals(&b[pairs[i]], converter) by {
                    if i < pairs.len() - 1 {
                        assert(a.take(k - 1)[i] == a.take(k)[i]);
                    }
                }
            }
        }
    }
}

/// The first `k` items of a list are greedily paired with themselves, in
/// order, when the relation is reflexive
proof fn lemma_greedy_pairs_itself<C, T: SemanticEq<C>>(a: Seq<T>, converter: &C, k: int)
    requires
        reflexive::<C, T>(converter),
        0 <= k <= a.len(),
    ensures
        greedy_pairs(a, a, converter, k) == Some(Seq::new(k as nat, |i: int| i)),
    decreases k,
{
    if k > 0 {
        lemma_greedy_pairs_itself(a, converter, k - 1);
        let taken = Seq::new((k - 1) as nat, |i: int| i);
        let item = a[k - 1];
        assert(item.semantically_equals(&item, converter));
        assert(!taken.contains(k - 1));
        assert forall|j: int| 0 <= j < k - 1 implies taken.contains(j) by {
            assert(taken[j] == j);
        }
        lemma_first_pair_none_before(item, a, taken, converter, k - 1);
        assert(can_pair(item, a, taken, converter, k - 1));
        assert(first_pair(item, a, taken, converter, k) == Some(k - 1));
        lemma_first_pair_stable(item, a, taken, converter, k, a.len() as int);
        assert(taken.push(k - 1) =~= Seq::new(k as nat, |i: int| i));
    }
}

/// Nothing below `n` can be paired when all of it is taken
proof fn lemma_first_pair_none_before<C, T: SemanticEq<C>>(
    item: T,
    b: Seq<T>,
    taken: Seq<int>,
    converter: &C,
    n: int,
)
    requires
        forall|j: int| 0 <= j < n ==> taken.contains(j),
    ensures
        first_pair(item, b, taken, converter, n) is None,
    decreases n,
{
    if n > 0 {
        lemma_first_pair_none_before(item, b, taken, converter, n - 1);
        assert(taken.contains(n - 1));
    }
}

/// A list compares equal to itself without regard to order when the items
/// are equal to themselves: [`unordered_equals`] answers `true` for it.
pub proof fn lemma_unordered_equals_itself<C, T: SemanticEq<C>>(a: Seq<T>, converter: &C)
    requires
        reflexive::<C, T>(converter),
    ensures
        greedy_pairs(a, a, converter, a.len() as int) is Some,
{
    lemma_greedy_pairs_itself(a, converter, a.len() as int);
}

/// Each item of `a` is paired by `pairs` with the first item of `b` equal to
/// it that no earlier item of `a` is paired with
pub open spec fn takes_first<C, T: SemanticEq<C>>(
    a: Seq<T>,
    b: Seq<T>,
    converter: &C,
    pairs: Seq<int>,
) -> bool {
    forall|i: int, j: int|
        0 <= i < pairs.len() && 0 <= j < pairs[i] && #[trigger] a[i].semantically_equals(
            &b[j],
            converter,
        ) ==> exists|k: int| 0 <= k < i && pairs[k] == j
}

/// Some index below `n` is mapped by `f` to `j`
pub open spec fn reaches(f: spec_fn(int) -> int, n: int, j: int) -> bool {
    exists|i: int| 0 <= i < n && #[trigger] f(i) == j
}

/// A one to one map of the indices below `n` to indices below `n` reaches
/// each of them
pub(crate) proof fn lemma_injective_onto(f: spec_fn(int) -> int, n: int)
    requires
        0 <= n,
        forall|i: int| 0 <= i < n ==> 0 <= #[trigger] f(i) < n,
        forall|i: int, j: int| 0 <= i < j < n ==> #[trigger] f(i) != #[trigger] f(j),
    ensures
        forall|j: int| 0 <= j < n ==> #[trigger] reaches(f, n, j),
{
    let dom = vstd::set_lib::set_int_range(0, n);
    let image = dom.map(f);
    vstd::set_lib::lemma_int_range(0, n);
    assert(vstd::relations::injective_on(f, dom)) by {
        assert forall|x: int, y: int| dom.contains(x) && dom.contains(y) && #[trigger] f(x) == #[trigger] f(y) implies x == y by {
            if x < y {
                assert(f(x) != f(y));
            }
            if y < x {
                assert(f(y) != f(x));
            }
        }
    }
    vstd::set_lib::lemma_map_size(dom, image, f);
    assert(image.subset_of(dom)) by {
        assert forall|j: int| image.contains(j) implies dom.contains(j) by {
            let i = choose|i: int| dom.contains(i) && f(i) == j;
            assert(0 <= f(i) < n);
        }
    }
    vstd::set_lib::lemma_subset_equality(image, dom);
    assert forall|j: int| 0 <= j < n implies #[trigger] reaches(f, n, j) by {
        assert(dom.contains(j));
        assert(image.contains(j));
        let i = choose|i: int| dom.contains(i) && f(i) == j;
        assert(0 <= i < n && f(i) == j);
    }
}

/// The index [`first_pair`] finds is the first one that can be paired, and
/// when it finds none, none below `n` can
proof fn lemma_first_pair_is_first<C, T: SemanticEq<C>>(
    item: T,
    b: Seq<T>,
    taken: Seq<int>,
    converter: &C,
    n: int,
)
    ensures
        first_pair(item, b, taken, converter, n) matches Some(j) ==> forall|l: int|
            0 <= l < j ==> !can_pair(item, b, taken, converter, l),
        first_pair(item, b, taken, converter, n) is None ==> forall|l: int|
            0 <= l < n ==> !can_pair(item, b, taken, converter, l),
    decreases n,
{
    if n > 0 {
        lemma_first_pair_is_first(item, b, taken, converter, n - 1);
    }
}

/// [`first_pair`] finds `j` when it can be paired and nothing before it can
proof fn lemma_first_pair_finds<C, T: SemanticEq<C>>(
    item: T,
    b: Seq<T>,
    taken: Seq<int>,
    converter: &C,
    j: int,
    n: int,
)
    requires
        0 <= j < n <= b.len(),
        can_pair(item, b, taken, converter, j),
        forall|l: int| 0 <= l < j ==> !can_pair(item, b, taken, converter, l),
    ensures
        first_pair(item, b, taken, converter, n) == Some(j),
{
    lemma_first_pair(item, b, taken, converter, j);
    assert(first_pair(item, b, taken, converter, j + 1) == Some(j));
    lemma_first_pair_stable(item, b, taken, converter, j + 1, n);
}

/// What [`greedy_pairs`] builds pairs each item with the first free item
/// equal to it
proof fn lemma_greedy_takes_first<C, T: SemanticEq<C>>(a: Seq<T>, b: Seq<T>, converter: &C, k: int)
    requires
        0 <= k <= a.len(),
    ensures
        greedy_pairs(a, b, converter, k) matches Some(p) ==> p.len() == k && takes_first(
            a,
            b,
            converter,
            p,
        ),
    decreases k,
{
    if k > 0 {
        lemma_greedy_takes_first(a, b, converter, k - 1);
        if let Some(taken) = greedy_pairs(a, b, converter, k - 1) {
            lemma_first_pair_is_first(a[k - 1], b, taken, converter, b.len() as int);
            if let Some(j) = first_pair(a[k - 1], b, taken, converter, b.len() as int) {
                let p = taken.push(j);
                assert forall|i: int, l: int|
                    0 <= i < p.len() && 0 <= l < p[i] && #[trigger] a[i].semantically_equals(
                        &b[l],
                        converter,
                    ) implies exists|m: int| 0 <= m < i && p[m] == l by {
                    if i < k - 1 {
                        assert(taken[i] == p[i]);
                        let m = choose|m: int| 0 <= m < i && taken[m] == l;
                        assert(p[m] == l);
                    } else {
                        assert(!can_pair(a[k - 1], b, taken, converter, l));
                        assert(taken.contains(l));
                        let m = choose|m: int| 0 <= m < taken.len() && taken[m] == l;
                        assert(p[m] == l);
                    }
                }
            }
        }
    }
}

/// A one to one pairing of two lists of the same length, seen from the
/// other list, is one too; when each item took the first free item equal to
/// it, so does each item of the other list, if equality is symmetric
proof fn lemma_pairing_inverse<C, T: SemanticEq<C>>(
    a: Seq<T>,
    b: Seq<T>,
    converter: &C,
    p: Seq<int>,
) -> (q: Seq<int>)
    requires
        symmetric::<C, T>(converter),
        a.len() == b.len(),
        is_pairing(a, b, converter, p),
        takes_first(a, b, converter, p),
    ensures
        is_pairing(b, a, converter, q),
        takes_first(b, a, converter, q),
{
    let n = a.len() as int;
    let f = |i: int| p[i];
    lemma_injective_onto(f, n);
    let q = Seq::new(n as nat, |j: int| choose|i: int| 0 <= i < n && p[i] == j);
    assert forall|j: int| 0 <= j < n implies 0 <= #[trigger] q[j] < n && p[q[j]] == j by {
        assert(reaches(f, n, j));
    }
    assert forall|i: int| 0 <= i < n implies #[trigger] q[p[i]] == i by {
        let j = p[i];
        assert(p[q[j]] == j);
        if q[j] < i {
            assert(p[q[j]] != p[i]);
        }
        if q[j] > i {
            assert(p[i] != p[q[j]]);
        }
    }
    assert forall|j1: int, j2: int| 0 <= j1 < j2 < q.len() implies q[j1] != q[j2] by {
        assert(p[q[j1]] == j1);
        assert(p[q[j2]] == j2);
    }
    assert forall|j: int| 0 <= j < q.len() implies #[trigger] b[j].semantically_equals(
        &a[q[j]],
        converter,
    ) by {
        assert(a[q[j]].semantically_equals(&b[p[q[j]]], converter));
    }
    assert forall|j: int, i: int|
        0 <= j < q.len() && 0 <= i < q[j] && #[trigger] b[j].semantically_equals(
            &a[i],
            converter,
        ) implies exists|k: int| 0 <= k < j && q[k] == i by {
        assert(a[i].semantically_equals(&b[j], converter));
        assert(p[q[j]] == j);
        assert(p[i] != j) by {
            if p[i] == j {
                assert(q[p[i]] == i);
            }
        }
        if p[i] > j {
            let k = choose|k: int| 0 <= k < i && p[k] == j;
            assert(q[p[k]] == k);
        }
        assert(q[p[i]] == i);
    }
    q
}

/// A one to one pairing in which each item took the first free item equal
/// to it is what [`greedy_pairs`] builds
proof fn lemma_greedy_builds<C, T: SemanticEq<C>>(
    a: Seq<T>,
    b: Seq<T>,
    converter: &C,
    p: Seq<int>,
    k: int,
)
    requires
        is_pairing(a, b, converter, p),
        takes_first(a, b, converter, p),
        0 <= k <= a.len(),
    ensures
        greedy_pairs(a, b, converter, k) == Some(p.take(k)),
    decreases k,
{
    if k > 0 {
        lemma_greedy_builds(a, b, converter, p, k - 1);
        let taken = p.take(k - 1);
        let j = p[k - 1];
        assert(!taken.contains(j)) by {
            if taken.contains(j) {
                let m = choose|m: int| 0 <= m < taken.len() && taken[m] == j;
                assert(p[m] != p[k - 1]);
            }
        }
        assert(a[k - 1].semantically_equals(&b[j], converter));
        assert forall|l: int| 0 <= l < j implies !#[trigger] can_pair(a[k - 1], b, taken, converter, l) by {
            if a[k - 1].semantically_equals(&b[l], converter) {
                let m = choose|m: int| 0 <= m < k - 1 && p[m] == l;
                assert(taken[m] == l);
            }
        }
        lemma_first_pair_finds(a[k - 1], b, taken, converter, j, b.len() as int);
        assert(p.take(k) =~= taken.push(j));
    }
}

/// When `a` compares equal to `b` without regard to order, `b` does to `a`,
/// if equality is symmetric
proof fn lemma_greedy_pairs_swap<C, T: SemanticEq<C>>(a: Seq<T>, b: Seq<T>, converter: &C)
    requires
        symmetric::<C, T>(converter),
        a.len() == b.len(),
        greedy_pairs(a, b, converter, a.len() as int) is Some,
    ensures
        greedy_pairs(b, a, converter, b.len() as int) is Some,
{
    let n = a.len() as int;
    lemma_greedy_pairs(a, b, converter, n);
    lemma_greedy_takes_first(a, b, converter, n);
    assert(a.take(n) == a);
    let p = greedy_pairs(a, b, converter, n)->0;
    let q = lemma_pairing_inverse(a, b, converter, p);
    lemma_greedy_builds(b, a, converter, q, n);
}

/// Comparing two lists without regard to order gives the same answer both
/// ways when their items compare symmetrically: [`unordered_equals`] is
/// symmetric.
pub proof fn lemma_unordered_equals_symmetric<C, T: SemanticEq<C>>(
    a: Seq<T>,
    b: Seq<T>,
    converter: &C,
)
    requires
        symmetric::<C, T>(converter),
    ensures
        (a.len() == b.len() && greedy_pairs(a, b, converter, a.len() as int) is Some) == (b.len()
            == a.len() && greedy_pairs(b, a, converter, b.len() as int) is Some),
{
    if a.len() == b.len() {
        if greedy_pairs(a, b, converter, a.len() as int) is Some {
            lemma_greedy_pairs_swap(a, b, converter);
        }
        if greedy_pairs(b, a, converter, b.len() as int) is Some {
            lemma_greedy_pairs_swap(b, a, converter);
        }
    }
}

/// Whenever [`unordered_equals`] answers `true`, the items of `a` can be
/// paired one to one with the items of `b` they are equal to: duplicates
/// appear the same number of times in both.
pub proof fn lemma_unordered_equals_pairs<C, T: SemanticEq<C>>(
    a: Seq<T>,
    b: Seq<T>,
    converter: &C,
)
    requires
        a.len() == b.len(),
        greedy_pairs(a, b, converter, a.len() as int) is Some,
    ensures
        exists|pairs: Seq<int>| is_pairing(a, b, converter, pairs),
{
    lemma_greedy_pairs(a, b, converter, a.len() as int);
    assert(a.take(a.len() as int) == a);
    let pairs = greedy_pairs(a, b, converter, a.len() as int)->0;
    assert(is_pairing(a, b, converter, pairs));
}

/// The relation of `T` is transitive
pub open spec fn transitive<C, T: SemanticEq<C>>(converter: &C) -> bool {
    forall|x: T, y: T, z: T|
        #[trigger] x.semantically_equals(&y, converter) && #[trigger] y.semantically_equals(
            &z,
            converter,
        ) ==> x.semantically_equals(&z, converter)
}

/// Given a one to one pairing `q` of two lists of the same length, the
/// greedy pairing of the first `k` items of `a` is the start of a one to one
/// pairing too, when equality is symmetric and transitive
proof fn lemma_greedy_follows<C, T: SemanticEq<C>>(
    a: Seq<T>,
    b: Seq<T>,
    converter: &C,
    q: Seq<int>,
    k: int,
) -> (r: Seq<int>)
    requires
        symmetric::<C, T>(converter),
        transitive::<C, T>(converter),
        a.len() == b.len(),
        is_pairing(a, b, converter, q),
        0 <= k <= a.len(),
    ensures
        is_pairing(a, b, converter, r),
        greedy_pairs(a, b, converter, k) == Some(r.take(k)),
    decreases k,
{
    if k == 0 {
        assert(q.take(0) =~= Seq::<int>::empty());
        return q;
    }
    let q1 = lemma_greedy_follows(a, b, converter, q, k - 1);
    let n = a.len() as int;
    let taken = q1.take(k - 1);
    let item = a[k - 1];
    let t = q1[k - 1];
    assert(!taken.contains(t)) by {
        if taken.contains(t) {
            let w = choose|w: int| 0 <= w < taken.len() && taken[w] == t;
            assert(q1[w] != q1[k - 1]);
        }
    }
    assert(can_pair(item, b, taken, converter, t));
    lemma_first_pair_is_first(item, b, taken, converter, n);
    lemma_first_pair(item, b, taken, converter, n);
    let j = first_pair(item, b, taken, converter, n)->0;
    assert(0 <= j <= t);
    if j == t {
        assert(q1.take(k) =~= taken.push(t));
        return q1;
    }
    let f = |i: int| q1[i];
    lemma_injective_onto(f, n);
    assert(reaches(f, n, j));
    let m = choose|m: int| 0 <= m < n && #[trigger] f(m) == j;
    assert(m > k - 1) by {
        if m < k - 1 {
            assert(taken[m] == j);
        }
    }
    let r = q1.update(k - 1, j).update(m, t);
    assert(a[m].semantically_equals(&b[t], converter)) by {
        assert(a[m].semantically_equals(&b[j], converter));
        assert(item.semantically_equals(&b[j], converter));
        assert(b[j].semantically_equals(&item, converter));
        assert(a[m].semantically_equals(&item, converter));
        assert(item.semantically_equals(&b[t], converter));
    }
    assert forall|i: int, l: int| 0 <= i < l < r.len() implies r[i] != r[l] by {
        assert(q1[i] != q1[l]);
        if i != k - 1 && i != m && l != k - 1 && l != m {
        } else {
            assert(q1[k - 1] != q1[m]);
            if i != k - 1 && i != m {
                assert(q1[i] != q1[k - 1]) by {
                    if i < k - 1 {
                    } else {
                        assert(q1[k - 1] != q1[i]);
                    }
                }
                assert(q1[i] != q1[m]) by {
                    if i > m {
                        assert(q1[m] != q1[i]);
                    }
                }
            }
            if l != k - 1 && l != m {
                assert(q1[l] != q1[k - 1]) by {
                    if l < k - 1 {
                        assert(q1[l] != q1[k - 1]);
                    }
                }
                assert(q1[l] != q1[m]) by {
                    if l < m {
                        assert(q1[l] != q1[m]);
                    } else {
                        assert(q1[m] != q1[l]);
                    }
                }
            }
        }
    }
    assert forall|i: int| 0 <= i < r.len() implies #[trigger] a[i].semantically_equals(
        &b[r[i]],
        converter,
    ) by {
        if i != k - 1 && i != m {
            assert(a[i].semantically_equals(&b[q1[i]], converter));
        }
    }
    assert(is_pairing(a, b, converter, r));
    assert(r.take(k) =~= taken.push(j));
    r
}

/// When items compare as an equivalence relation (symmetric and transitive
/// is enough), comparing two lists of the same length without regard to
/// order finds a pairing whenever there is one: [`unordered_equals`] answers
/// `true` exactly when the items of `a` can be paired one to one with items
/// of `b` equal to them, as two multisets of equivalence classes are equal.
pub proof fn lemma_unordered_equals_multisets<C, T: SemanticEq<C>>(
    a: Seq<T>,
    b: Seq<T>,
    converter: &C,
)
    requires
        symmetric::<C, T>(converter),
        transitive::<C, T>(converter),
        a.len() == b.len(),
    ensures
        greedy_pairs(a, b, converter, a.len() as int) is Some <==> exists|pairs: Seq<int>|
            is_pairing(a, b, converter, pairs),
{
    if greedy_pairs(a, b, converter, a.len() as int) is Some {
        lemma_unordered_equals_pairs(a, b, converter);
    }
    if exists|pairs: Seq<int>| is_pairing(a, b, converter, pairs) {
        let pairs = choose|pairs: Seq<int>| is_pairing(a, b, converter, pairs);
        lemma_greedy_follows(a, b, converter, pairs, a.len() as int);
    }
}

/// Compares two slices as multisets, ignoring the order of their items
///
/// It pairs each item of `a` with a distinct item of `b`, so duplicates
/// still have to appear the same number of times in both.
///
/// Note that [`SemanticEq`] is not transitive, so which items end up paired
/// can depend on their order. This greedily takes the first match.
pub fn unordered_equals<C, T: SemanticEq<C>>(a: &[T], b: &[T], converter: &C) -> (r: bool)
    ensures
        r == (a@.len() == b@.len() && greedy_pairs(a@, b@, converter, a@.len() as int) is Some),
{
    if a.len() != b.len() {
        return false;
    }
    let mut matched: Vec<bool> = Vec::new();
    let mut j: usize = 0;
    while j < b.len()
        invariant
            j <= b@.len(),
            matched@.len() == j,
            forall|l: int| 0 <= l < j ==> !(#[trigger] matched@[l]),
        decreases b@.len() - j,
    {
        matched.push(false);
        j = j + 1;
    }
    let ghost mut taken: Seq<int> = Seq::empty();
    let mut k: usize = 0;
    while k < a.len()
        invariant
            a@.len() == b@.len(),
            k <= a@.len(),
            matched@.len() == b@.len(),
            greedy_pairs(a@, b@, converter, k as int) == Some(taken),
            forall|l: int| 0 <= l < b@.len() ==> (#[trigger] matched@[l] <==> taken.contains(l)),
        decreases a@.len() - k,
    {
        let mut i: usize = 0;
        let mut found: bool = false;
        while i < b.len()
            invariant_except_break
                !found,
            invariant
                a@.len() == b@.len(),
                k < a@.len(),
                i <= b@.len(),
                matched@.len() == b@.len(),
                forall|l: int| 0 <= l < b@.len() ==> (#[trigger] matched@[l] <==> taken.contains(l)),
                first_pair(a@[k as int], b@, taken, converter, i as int) is None,
            ensures
                found ==> i < b@.len() && first_pair(a@[k as int], b@, taken, converter, i + 1)
                    == Some(i as int),
                !found ==> first_pair(a@[k as int], b@, taken, converter, b@.len() as int) is None,
            decreases b@.len() - i,
        {
            if !matched[i] && a[k].equals(&b[i], converter) {
                found = true;
                break;
            }
            i = i + 1;
        }
        if !found {
            proof {
                lemma_greedy_pairs_stays_none(a@, b@, converter, k as int + 1, a@.len() as int);
            }
            return false;
        }
        proof {
            lemma_first_pair_stable(a@[k as int], b@, taken, converter, i as int + 1, b@.len() as int);
        }
        matched.set(i, true);
        proof {
            let old_taken = taken;
            taken = taken.push(i as int);
            assert forall|l: int| 0 <= l < b@.len() implies (#[trigger] matched@[l] <==> taken.contains(l)) by {
                if l != i {
                    if taken.contains(l) {
                        let w = choose|w: int| 0 <= w < taken.len() && taken[w] == l;
                        assert(old_taken[w] == l);
                    }
                    if old_taken.contains(l) {
                        let w = choose|w: int| 0 <= w < old_taken.len() && old_taken[w] == l;
                        assert(taken[w] == l);
                    }
                } else {
                    assert(taken[taken.len() - 1] == l);
                }
            }
        }
        k = k + 1;
    }
    true
}

proof fn lemma_greedy_pairs_stays_none<C, T: SemanticEq<C>>(
    a: Seq<T>,
    b: Seq<T>,
    converter: &C,
    k: int,
    n: int,
)
    requires
        0 < k <= n,
        greedy_pairs(a, b, converter, k) is None,
    ensures
        greedy_pairs(a, b, converter, n) is None,
    decreases n - k,
{
    if n > k {
        lemma_greedy_pairs_stays_none(a, b, converter, k, n - 1);
    }
}

proof fn lemma_first_pair_stable<C, T: SemanticEq<C>>(
    item: T,
    b: Seq<T>,
    taken: Seq<int>,
    converter: &C,
    m: int,
    n: int,
)
    requires
        0 <= m <= n,
        first_pair(item, b, taken, converter, m) is Some,
    ensures
        first_pair(item, b, taken, converter, n) == first_pair(item, b, taken, converter, m),
    decreases n - m,
{
    if n > m {
        lemma_first_pair_stable(item, b, taken, converter, m, n - 1);
    }
}

} // verus!
