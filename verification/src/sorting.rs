//! A stable sort, stated over sequences and a "comes before" relation.
//!
//! The relation need not be an order: where it is not, the result is still
//! one definite sequence, the one that insertion from left to right gives.

use vstd::prelude::*;

verus! {

/// `s` with `x` added at its end and then moved left past every element
/// that `x` comes before, up to the first one that it does not.
pub open spec fn insert_stable<T>(s: Seq<T>, x: T, before: spec_fn(T, T) -> bool) -> Seq<T>
    decreases s.len(),
{
    if s.len() > 0 && before(x, s.last()) {
        insert_stable(s.drop_last(), x, before).push(s.last())
    } else {
        s.push(x)
    }
}

/// The elements of `s`, inserted one after the other from the left.
/// Elements of which neither comes before the other keep their order.
pub open spec fn stable_sort<T>(s: Seq<T>, before: spec_fn(T, T) -> bool) -> Seq<T>
    decreases s.len(),
{
    if s.len() == 0 {
        s
    } else {
        insert_stable(stable_sort(s.drop_last(), before), s.last(), before)
    }
}

/// No element comes before an element to its left.
pub open spec fn is_sorted<T>(s: Seq<T>, before: spec_fn(T, T) -> bool) -> bool {
    forall|i: int, j: int| 0 <= i < j < s.len() ==> !before(s[j], s[i])
}

/// Where insertion puts `x`: at `j`, when `x` comes before all from `j` on
/// and not before the element left of `j`.
pub proof fn lemma_insert_position<T>(s: Seq<T>, x: T, before: spec_fn(T, T) -> bool, j: int)
    requires
        0 <= j <= s.len(),
        forall|k: int| j <= k < s.len() ==> before(x, s[k]),
        j > 0 ==> !before(x, s[j - 1]),
    ensures
        insert_stable(s, x, before) == s.insert(j, x),
    decreases s.len() - j,
{
    if j == s.len() {
        assert(s.insert(j, x) =~= s.push(x));
    } else {
        lemma_insert_position(s.drop_last(), x, before, j);
        assert(s.drop_last().insert(j, x).push(s.last()) =~= s.insert(j, x));
    }
}

pub proof fn lemma_insert_len<T>(s: Seq<T>, x: T, before: spec_fn(T, T) -> bool)
    ensures
        insert_stable(s, x, before).len() == s.len() + 1,
        insert_stable(s, x, before).to_multiset() == s.to_multiset().insert(x),
    decreases s.len(),
{
    broadcast use vstd::seq_lib::group_to_multiset_ensures;

    if s.len() > 0 && before(x, s.last()) {
        lemma_insert_len(s.drop_last(), x, before);
        assert(s.drop_last().push(s.last()) =~= s);
    }
}

/// Sorting keeps every element, as often as it occurs.
pub proof fn lemma_sort_permutes<T>(s: Seq<T>, before: spec_fn(T, T) -> bool)
    ensures
        stable_sort(s, before).len() == s.len(),
        stable_sort(s, before).to_multiset() == s.to_multiset(),
    decreases s.len(),
{
    broadcast use vstd::seq_lib::group_to_multiset_ensures;

    if s.len() > 0 {
        lemma_sort_permutes(s.drop_last(), before);
        lemma_insert_len(stable_sort(s.drop_last(), before), s.last(), before);
        assert(s.drop_last().push(s.last()) =~= s);
    }
}

pub proof fn lemma_insert_map<T, U>(
    s: Seq<T>,
    x: T,
    before: spec_fn(T, T) -> bool,
    f: spec_fn(T) -> U,
    after: spec_fn(U, U) -> bool,
    among: spec_fn(T) -> bool,
)
    requires
        forall|a: T, b: T| among(a) && among(b) ==> #[trigger] before(a, b) == after(f(a), f(b)),
        forall|i: int| 0 <= i < s.len() ==> among(#[trigger] s[i]),
        among(x),
    ensures
        insert_stable(s, x, before).map_values(f) == insert_stable(s.map_values(f), f(x), after),
        forall|i: int|
            0 <= i < insert_stable(s, x, before).len() ==> among(
                #[trigger] insert_stable(s, x, before)[i],
            ),
    decreases s.len(),
{
    let m = s.map_values(f);
    if s.len() > 0 && before(x, s.last()) {
        lemma_insert_map(s.drop_last(), x, before, f, after, among);
        assert(m.drop_last() =~= s.drop_last().map_values(f));
        assert(insert_stable(s.drop_last(), x, before).push(s.last()).map_values(f)
            =~= insert_stable(s.drop_last(), x, before).map_values(f).push(f(s.last())));
    } else {
        assert(s.push(x).map_values(f) =~= m.push(f(x)));
    }
}

/// Sorting and then mapping is mapping and then sorting, when the relation
/// on the images is the relation on what they are images of, for the
/// elements that `among` admits.
pub proof fn lemma_sort_map<T, U>(
    s: Seq<T>,
    before: spec_fn(T, T) -> bool,
    f: spec_fn(T) -> U,
    after: spec_fn(U, U) -> bool,
    among: spec_fn(T) -> bool,
)
    requires
        forall|a: T, b: T| among(a) && among(b) ==> #[trigger] before(a, b) == after(f(a), f(b)),
        forall|i: int| 0 <= i < s.len() ==> among(#[trigger] s[i]),
    ensures
        stable_sort(s, before).map_values(f) == stable_sort(s.map_values(f), after),
        forall|i: int|
            0 <= i < stable_sort(s, before).len() ==> among(#[trigger] stable_sort(s, before)[i]),
    decreases s.len(),
{
    let m = s.map_values(f);
    if s.len() == 0 {
        assert(s.map_values(f) =~= Seq::<U>::empty());
        assert(stable_sort(s, before).map_values(f) =~= Seq::<U>::empty());
    } else {
        lemma_sort_map(s.drop_last(), before, f, after, among);
        lemma_insert_map(stable_sort(s.drop_last(), before), s.last(), before, f, after, among);
        assert(m.drop_last() =~= s.drop_last().map_values(f));
    }
}

/// Inserting into a sorted sequence leaves it sorted, when "does not come
/// before" is transitive.
pub proof fn lemma_insert_sorted<T>(s: Seq<T>, x: T, before: spec_fn(T, T) -> bool)
    requires
        is_sorted(s, before),
        forall|a: T, b: T, c: T|
            !#[trigger] before(b, a) && !#[trigger] before(c, b) ==> !before(c, a),
        forall|a: T, b: T| #[trigger] before(a, b) ==> !before(b, a),
    ensures
        is_sorted(insert_stable(s, x, before), before),
    decreases s.len(),
{
    let r = insert_stable(s, x, before);
    if s.len() > 0 && before(x, s.last()) {
        let head = s.drop_last();
        assert forall|i: int, j: int| 0 <= i < j < head.len() implies !before(head[j], head[i]) by {
            assert(head[j] == s[j] && head[i] == s[i]);
        }
        lemma_insert_sorted(head, x, before);
        lemma_insert_len(head, x, before);
        let inner = insert_stable(head, x, before);
        lemma_insert_members(head, x, before);
        assert forall|i: int, j: int| 0 <= i < j < r.len() implies !before(r[j], r[i]) by {
            if j == r.len() - 1 {
                // the last element is s.last(); r[i] is x or an element of head
                if inner[i] == x {
                } else {
                    let k = choose|k: int| 0 <= k < head.len() && head[k] == inner[i];
                    assert(head[k] == s[k]);
                }
            } else {
                assert(r[j] == inner[j] && r[i] == inner[i]);
            }
        }
    } else {
        assert forall|i: int, j: int| 0 <= i < j < r.len() implies !before(r[j], r[i]) by {
            if j == s.len() {
                if i < s.len() && s.len() > 0 {
                    // x does not come before s.last(), and s.last() not before s[i]
                    assert(!before(x, s.last()));
                    if i < s.len() - 1 {
                        assert(!before(s.last(), s[i]));
                    }
                }
            } else {
                assert(r[j] == s[j] && r[i] == s[i]);
            }
        }
    }
}

/// Every element after an insertion is the new one or was there before.
pub proof fn lemma_insert_members<T>(s: Seq<T>, x: T, before: spec_fn(T, T) -> bool)
    ensures
        forall|i: int|
            0 <= i < insert_stable(s, x, before).len() ==> #[trigger] insert_stable(s, x, before)[i]
                == x || exists|k: int| 0 <= k < s.len() && s[k] == insert_stable(s, x, before)[i],
    decreases s.len(),
{
    let r = insert_stable(s, x, before);
    if s.len() > 0 && before(x, s.last()) {
        let head = s.drop_last();
        lemma_insert_members(head, x, before);
        lemma_insert_len(head, x, before);
        let inner = insert_stable(head, x, before);
        assert forall|i: int| 0 <= i < r.len() implies #[trigger] r[i] == x || exists|k: int|
            0 <= k < s.len() && s[k] == r[i] by {
            if i == r.len() - 1 {
                assert(s[s.len() - 1] == r[i]);
            } else {
                assert(r[i] == inner[i]);
                if inner[i] != x {
                    let k = choose|k: int| 0 <= k < head.len() && head[k] == inner[i];
                    assert(s[k] == r[i]);
                }
            }
        }
    } else {
        assert forall|i: int| 0 <= i < r.len() implies #[trigger] r[i] == x || exists|k: int|
            0 <= k < s.len() && s[k] == r[i] by {
            if i < s.len() {
                assert(s[i] == r[i]);
            }
        }
    }
}

/// A sorted sequence is in order, when "does not come before" is
/// transitive and nothing comes before what comes before it.
pub proof fn lemma_sort_sorted<T>(s: Seq<T>, before: spec_fn(T, T) -> bool)
    requires
        forall|a: T, b: T, c: T|
            !#[trigger] before(b, a) && !#[trigger] before(c, b) ==> !before(c, a),
        forall|a: T, b: T| #[trigger] before(a, b) ==> !before(b, a),
    ensures
        is_sorted(stable_sort(s, before), before),
    decreases s.len(),
{
    if s.len() > 0 {
        lemma_sort_sorted(s.drop_last(), before);
        lemma_insert_sorted(stable_sort(s.drop_last(), before), s.last(), before);
    }
}

/// No element comes before its left neighbour.
pub open spec fn no_inversion<T>(s: Seq<T>, before: spec_fn(T, T) -> bool) -> bool {
    forall|i: int| 0 < i < s.len() ==> !before(#[trigger] s[i], s[i - 1])
}

/// A sequence without an inversion of neighbours is left as it is.
pub proof fn lemma_sort_without_inversion<T>(s: Seq<T>, before: spec_fn(T, T) -> bool)
    requires
        no_inversion(s, before),
    ensures
        stable_sort(s, before) == s,
    decreases s.len(),
{
    if s.len() > 0 {
        let head = s.drop_last();
        assert forall|i: int| 0 < i < head.len() implies !before(#[trigger] head[i], head[i - 1]) by {
            assert(head[i] == s[i] && head[i - 1] == s[i - 1]);
        }
        lemma_sort_without_inversion(head, before);
        if head.len() > 0 {
            assert(!before(s[s.len() - 1], s[s.len() - 2]));
            assert(head.last() == s[s.len() - 2]);
        }
        assert(head.push(s.last()) =~= s);
    }
}

/// Insertion leaves no inversion of neighbours, when nothing comes before
/// what comes before it.
pub proof fn lemma_insert_without_inversion<T>(s: Seq<T>, x: T, before: spec_fn(T, T) -> bool)
    requires
        no_inversion(s, before),
        forall|a: T, b: T| #[trigger] before(a, b) ==> !before(b, a),
    ensures
        no_inversion(insert_stable(s, x, before), before),
        insert_stable(s, x, before).len() == s.len() + 1,
        insert_stable(s, x, before).last() == x || (s.len() > 0 && insert_stable(
            s,
            x,
            before,
        ).last() == s.last()),
        insert_stable(s, x, before).last() == x ==> s.len() == 0 || !before(x, s.last()),
    decreases s.len(),
{
    let r = insert_stable(s, x, before);
    if s.len() > 0 && before(x, s.last()) {
        let head = s.drop_last();
        assert forall|i: int| 0 < i < head.len() implies !before(#[trigger] head[i], head[i - 1]) by {
            assert(head[i] == s[i] && head[i - 1] == s[i - 1]);
        }
        lemma_insert_without_inversion(head, x, before);
        let inner = insert_stable(head, x, before);
        assert forall|i: int| 0 < i < r.len() implies !before(#[trigger] r[i], r[i - 1]) by {
            if i == r.len() - 1 {
                assert(r[i] == s.last());
                assert(r[i - 1] == inner.last());
                if inner.last() == x {
                } else {
                    assert(inner.last() == head.last());
                    assert(head.last() == s[s.len() - 2]);
                    assert(!before(s[s.len() - 1], s[s.len() - 2]));
                }
            } else {
                assert(r[i] == inner[i] && r[i - 1] == inner[i - 1]);
            }
        }
    } else {
        assert forall|i: int| 0 < i < r.len() implies !before(#[trigger] r[i], r[i - 1]) by {
            if i < s.len() {
                assert(r[i] == s[i] && r[i - 1] == s[i - 1]);
            } else {
                assert(r[i] == x && r[i - 1] == s.last());
            }
        }
    }
}

/// Sorting twice is sorting once, when nothing comes before what comes
/// before it.
pub proof fn lemma_sort_idempotent<T>(s: Seq<T>, before: spec_fn(T, T) -> bool)
    requires
        forall|a: T, b: T| #[trigger] before(a, b) ==> !before(b, a),
    ensures
        stable_sort(stable_sort(s, before), before) == stable_sort(s, before),
        no_inversion(stable_sort(s, before), before),
    decreases s.len(),
{
    if s.len() > 0 {
        lemma_sort_idempotent(s.drop_last(), before);
        lemma_insert_without_inversion(stable_sort(s.drop_last(), before), s.last(), before);
    }
    lemma_sort_without_inversion(stable_sort(s, before), before);
}

/// The elements of `s` that `p` holds of, in their order.
pub open spec fn keep<T>(s: Seq<T>, p: spec_fn(T) -> bool) -> Seq<T>
    decreases s.len(),
{
    if s.len() == 0 {
        s
    } else if p(s.last()) {
        keep(s.drop_last(), p).push(s.last())
    } else {
        keep(s.drop_last(), p)
    }
}

pub proof fn lemma_insert_keeps<T>(
    s: Seq<T>,
    x: T,
    before: spec_fn(T, T) -> bool,
    p: spec_fn(T) -> bool,
)
    requires
        forall|a: T, b: T| p(a) && p(b) ==> !#[trigger] before(a, b),
    ensures
        keep(insert_stable(s, x, before), p) == if p(x) {
            keep(s, p).push(x)
        } else {
            keep(s, p)
        },
    decreases s.len(),
{
    if s.len() > 0 && before(x, s.last()) {
        let head = s.drop_last();
        lemma_insert_keeps(head, x, before, p);
        let r = insert_stable(head, x, before).push(s.last());
        assert(r.drop_last() =~= insert_stable(head, x, before));
    } else {
        assert(s.push(x).drop_last() =~= s);
    }
}

/// Sorting is stable: elements of which none comes before another keep
/// their order.
pub proof fn lemma_sort_stable<T>(s: Seq<T>, before: spec_fn(T, T) -> bool, p: spec_fn(T) -> bool)
    requires
        forall|a: T, b: T| p(a) && p(b) ==> !#[trigger] before(a, b),
    ensures
        keep(stable_sort(s, before), p) == keep(s, p),
    decreases s.len(),
{
    if s.len() > 0 {
        lemma_sort_stable(s.drop_last(), before, p);
        lemma_insert_keeps(stable_sort(s.drop_last(), before), s.last(), before, p);
    }
}

/// What a sort key must offer: a relation and a function that decides it.
pub trait SortKey: Sized {
    /// Whether an entry with this key must stand before one with `other`.
    spec fn before(&self, other: &Self) -> bool;

    fn is_before(&self, other: &Self) -> (r: bool)
        ensures
            r == self.before(other),
    ;
}

/// The relation on keyed elements that their keys give.
pub open spec fn by_key<K: SortKey, V>() -> spec_fn((K, V), (K, V)) -> bool {
    |a: (K, V), b: (K, V)| a.0.before(&b.0)
}

/// Sorts keyed elements by their keys, stably.
pub fn sort_by_key<K: SortKey, V>(v: Vec<(K, V)>) -> (r: Vec<(K, V)>)
    ensures
        r@ == stable_sort(v@, by_key::<K, V>()),
{
    let ghost input = v@;
    let mut out: Vec<(K, V)> = Vec::new();
    for x in it: v
        invariant
            it.seq() == input,
            out@ == stable_sort(input.take(it.index() as int), by_key::<K, V>()),
    {
        let ghost sorted = out@;
        let ghost i = it.index() as int;
        proof {
            lemma_sort_permutes(input.take(i), by_key::<K, V>());
        }
        let mut j: usize = out.len();
        while j > 0 && x.0.is_before(&out[j - 1].0)
            invariant
                j <= out.len(),
                out@ == sorted,
                forall|k: int| j <= k < out.len() ==> by_key::<K, V>()(x, out@[k]),
            decreases j,
        {
            j -= 1;
        }
        proof {
            lemma_insert_position(sorted, x, by_key::<K, V>(), j as int);
            assert(input.take(i + 1).drop_last() =~= input.take(i));
            assert(input.take(i + 1).last() == x);
        }
        out.insert(j, x);
    }
    proof {
        assert(input.take(input.len() as int) =~= input);
    }
    out
}

} // verus!
