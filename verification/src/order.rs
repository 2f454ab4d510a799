//! Sorting by a pair of numbers, with equal items left in their order.
use vstd::prelude::*;

verus! {

/// What decides the order of things on a page.
#[derive(Clone, Copy, Debug, PartialEq, Eq, Structural)]
pub enum SortBy {
    /// From the top of the page down.
    Top,
    /// From the top of the page down, and from left to right at the same height.
    TopThenLeft,
    /// From left to right.
    Left,
}

/// Something that has its place on a page.
pub trait Placed: View + Sized {
    /// The pair of numbers by which it is sorted.
    spec fn place(v: Self::V, by: SortBy) -> (int, int);

    fn key(&self, by: SortBy) -> (r: (i64, i64))
        ensures
            (r.0 as int, r.1 as int) == Self::place(self@, by),
    ;
}

pub open spec fn before(a: (int, int), b: (int, int)) -> bool {
    a.0 < b.0 || (a.0 == b.0 && a.1 < b.1)
}

/// A sorted sequence with one more item, set behind all that it does not precede.
pub open spec fn inserted<V>(s: Seq<V>, e: V, key: spec_fn(V) -> (int, int)) -> Seq<V>
    decreases s.len(),
{
    if s.len() == 0 || !before(key(e), key(s.last())) {
        s.push(e)
    } else {
        inserted(s.drop_last(), e, key).push(s.last())
    }
}

pub open spec fn sorted<V>(s: Seq<V>, key: spec_fn(V) -> (int, int)) -> Seq<V>
    decreases s.len(),
{
    if s.len() == 0 {
        s
    } else {
        inserted(sorted(s.drop_last(), key), s.last(), key)
    }
}

/// The items of a list, seen as what they stand for.
pub open spec fn seen<T: View>(s: Seq<T>) -> Seq<T::V> {
    s.map_values(|t: T| t@)
}

/// Things sorted by their places.
pub open spec fn arranged<T: Placed>(s: Seq<T::V>, by: SortBy) -> Seq<T::V> {
    sorted(s, |v: T::V| T::place(v, by))
}

proof fn lemma_inserted_at<V>(s: Seq<V>, e: V, key: spec_fn(V) -> (int, int), at: int)
    requires
        0 <= at <= s.len(),
        forall|j: int| at <= j < s.len() ==> before(key(e), key(#[trigger] s[j])),
        at > 0 ==> !before(key(e), key(s[at - 1])),
    ensures
        inserted(s, e, key) == s.insert(at, e),
    decreases s.len(),
{
    if at == s.len() {
        assert(s.insert(at, e) =~= s.push(e));
    } else {
        lemma_inserted_at(s.drop_last(), e, key, at);
        assert(s.insert(at, e) =~= s.drop_last().insert(at, e).push(s.last()));
    }
}

pub(crate) fn sort<T: Placed>(items: Vec<T>, by: SortBy) -> (r: Vec<T>)
    ensures
        seen(r@) == arranged::<T>(seen(items@), by),
{
    let ghost key = |v: T::V| T::place(v, by);
    let ghost all = seen(items@);
    let mut out: Vec<T> = Vec::new();
    let mut keys: Vec<(i64, i64)> = Vec::new();
    assert(seen(out@) =~= sorted(all.take(0), key));
    for item in it: items
        invariant
            key == (|v: T::V| T::place(v, by)),
            all == seen(it.seq()),
            seen(out@) == sorted(all.take(it.index()), key),
            keys@.len() == out@.len(),
            forall|i: int|
                0 <= i < keys@.len() ==> (#[trigger] keys@[i].0 as int, keys@[i].1 as int) == key(
                    out@[i]@,
                ),
    {
        let ghost e = item@;
        let k = item.key(by);
        let mut at: usize = out.len();
        while at > 0 && (k.0 < keys[at - 1].0 || (k.0 == keys[at - 1].0 && k.1 < keys[at - 1].1))
            invariant
                at <= out@.len(),
                keys@.len() == out@.len(),
                (k.0 as int, k.1 as int) == key(e),
                forall|i: int|
                    0 <= i < keys@.len() ==> (#[trigger] keys@[i].0 as int, keys@[i].1 as int)
                        == key(out@[i]@),
                forall|j: int|
                    at <= j < out@.len() ==> before(key(e), key(#[trigger] seen(out@)[j])),
            decreases at,
        {
            assert(seen(out@)[at - 1] == out@[at - 1]@);
            assert((keys@[at - 1].0 as int, keys@[at - 1].1 as int) == key(out@[at - 1]@));
            at -= 1;
        }
        proof {
            let n = it.index();
            assert(all.take(n + 1).drop_last() =~= all.take(n));
            assert(all.take(n + 1).last() == e);
            if at > 0 {
                assert(seen(out@)[at - 1] == out@[at - 1]@);
                assert((keys@[at - 1].0 as int, keys@[at - 1].1 as int) == key(out@[at - 1]@));
            }
            lemma_inserted_at(seen(out@), e, key, at as int);
        }
        let ghost old_out = out@;
        let ghost old_keys = keys@;
        out.insert(at, item);
        keys.insert(at, k);
        proof {
            assert(seen(out@) =~= seen(old_out).insert(at as int, e));
            assert forall|i: int| 0 <= i < keys@.len() implies (
                #[trigger] keys@[i].0 as int,
                keys@[i].1 as int,
            ) == key(out@[i]@) by {
                if i < at {
                    assert(keys@[i] == old_keys[i] && out@[i] == old_out[i]);
                } else if i > at {
                    assert(keys@[i] == old_keys[i - 1] && out@[i] == old_out[i - 1]);
                }
            }
        }
    }
    assert(all.take(all.len() as int) =~= all);
    out
}

/// In order: nothing precedes what stands before it.
pub open spec fn is_ordered<V>(s: Seq<V>, key: spec_fn(V) -> (int, int)) -> bool {
    forall|i: int, j: int| 0 <= i < j < s.len() ==> !before(key(#[trigger] s[j]), key(#[trigger] s[i]))
}

proof fn lemma_inserted<V>(s: Seq<V>, e: V, key: spec_fn(V) -> (int, int))
    requires
        is_ordered(s, key),
    ensures
        is_ordered(inserted(s, e, key), key),
        inserted(s, e, key).to_multiset() == s.to_multiset().insert(e),
        inserted(s, e, key).len() == s.len() + 1,
        forall|i: int|
            0 <= i < s.len() + 1 ==> #[trigger] inserted(s, e, key)[i] == e || exists|j: int|
                0 <= j < s.len() && inserted(s, e, key)[i] == s[j],
    decreases s.len(),
{
    broadcast use vstd::seq_lib::group_to_multiset_ensures;

    if s.len() == 0 || !before(key(e), key(s.last())) {
        if s.len() > 0 {
            assert forall|i: int| 0 <= i < s.len() implies !before(key(e), key(#[trigger] s[i])) by {
                if i < s.len() - 1 {
                    assert(!before(key(s[s.len() - 1]), key(s[i])));
                }
            }
        }
        assert forall|i: int| 0 <= i < s.len() + 1 implies #[trigger] s.push(e)[i] == e || exists|
            j: int,
        |
            0 <= j < s.len() && s.push(e)[i] == s[j] by {
            if i < s.len() {
                assert(s.push(e)[i] == s[i]);
            }
        }
    } else {
        let t = s.drop_last();
        let u = inserted(t, e, key);
        lemma_inserted(t, e, key);
        assert forall|i: int| 0 <= i < u.len() implies !before(key(s.last()), key(#[trigger] u[i])) by {
            if u[i] != e {
                let j = choose|j: int| 0 <= j < t.len() && u[i] == t[j];
                assert(t[j] == s[j]);
                assert(!before(key(s[s.len() - 1]), key(s[j])));
            }
        }
        assert(s =~= t.push(s.last()));
        assert(u.push(s.last()).to_multiset() == u.to_multiset().insert(s.last()));
        assert(s.to_multiset() == t.to_multiset().insert(s.last()));
        assert(t.to_multiset().insert(e).insert(s.last()) =~= t.to_multiset().insert(
            s.last(),
        ).insert(e));
        assert forall|i: int| 0 <= i < s.len() + 1 implies #[trigger] u.push(s.last())[i] == e
            || exists|j: int| 0 <= j < s.len() && u.push(s.last())[i] == s[j] by {
            if i == s.len() {
                assert(u.push(s.last())[i] == s[s.len() - 1]);
            } else if u[i] != e {
                let j = choose|j: int| 0 <= j < t.len() && u[i] == t[j];
                assert(t[j] == s[j]);
            }
        }
    }
}

/// Sorting loses and adds nothing, and puts what it is given in order.
pub proof fn sorting_orders<V>(s: Seq<V>, key: spec_fn(V) -> (int, int))
    ensures
        is_ordered(sorted(s, key), key),
        sorted(s, key).to_multiset() == s.to_multiset(),
        sorted(s, key).len() == s.len(),
    decreases s.len(),
{
    broadcast use vstd::seq_lib::group_to_multiset_ensures;

    if s.len() > 0 {
        sorting_orders(s.drop_last(), key);
        lemma_inserted(sorted(s.drop_last(), key), s.last(), key);
        assert(s =~= s.drop_last().push(s.last()));
    }
}

proof fn lemma_inserted_among_equals<V>(
    s: Seq<V>,
    e: V,
    key: spec_fn(V) -> (int, int),
    k: (int, int),
)
    requires
        is_ordered(s, key),
    ensures
        inserted(s, e, key).filter(|v: V| key(v) == k) == if key(e) == k {
            s.filter(|v: V| key(v) == k).push(e)
        } else {
            s.filter(|v: V| key(v) == k)
        },
    decreases s.len(),
{
    let p = |v: V| key(v) == k;
    reveal(Seq::filter);
    if s.len() == 0 || !before(key(e), key(s.last())) {
        assert(s.push(e).drop_last() =~= s);
    } else {
        let t = s.drop_last();
        lemma_inserted_among_equals(t, e, key, k);
        let u = inserted(t, e, key);
        assert(u.push(s.last()).drop_last() =~= u);
        assert(key(s.last()) != key(e));
    }
}

/// Items with equal keys stay in the order in which they came.
pub proof fn sorting_is_stable<V>(s: Seq<V>, key: spec_fn(V) -> (int, int), k: (int, int))
    ensures
        sorted(s, key).filter(|v: V| key(v) == k) == s.filter(|v: V| key(v) == k),
    decreases s.len(),
{
    reveal(Seq::filter);
    if s.len() > 0 {
        sorting_is_stable(s.drop_last(), key, k);
        sorting_orders(s.drop_last(), key);
        lemma_inserted_among_equals(sorted(s.drop_last(), key), s.last(), key, k);
    }
}

/// No two items stand in a relation to each other.
pub open spec fn none_near<V>(s: Seq<V>, near: spec_fn(V, V) -> bool) -> bool {
    forall|i: int, j: int|
        0 <= i < s.len() && 0 <= j < s.len() && i != j ==> !near(#[trigger] s[i], #[trigger] s[j])
}

proof fn lemma_inserted_none_near<V>(
    s: Seq<V>,
    e: V,
    key: spec_fn(V) -> (int, int),
    near: spec_fn(V, V) -> bool,
)
    requires
        none_near(s, near),
        forall|i: int| 0 <= i < s.len() ==> !near(#[trigger] s[i], e) && !near(e, s[i]),
    ensures
        none_near(inserted(s, e, key), near),
        inserted(s, e, key).len() == s.len() + 1,
        forall|i: int|
            0 <= i < s.len() + 1 ==> #[trigger] inserted(s, e, key)[i] == e || s.contains(
                inserted(s, e, key)[i],
            ),
    decreases s.len(),
{
    let r = inserted(s, e, key);
    if s.len() == 0 || !before(key(e), key(s.last())) {
        assert forall|i: int| 0 <= i < r.len() implies #[trigger] r[i] == e || s.contains(r[i]) by {
            if i < s.len() {
                assert(r[i] == s[i]);
            }
        }
    } else {
        let t = s.drop_last();
        let u = inserted(t, e, key);
        lemma_inserted_none_near(t, e, key, near);
        assert forall|i: int| 0 <= i < u.len() implies !near(#[trigger] u[i], s.last()) && !near(
            s.last(),
            u[i],
        ) by {
            if u[i] != e {
                assert(t.contains(u[i]));
                let j = choose|j: int| 0 <= j < t.len() && t[j] == u[i];
                assert(s[j] == u[i] && s[s.len() - 1] == s.last());
            } else {
                assert(s[s.len() - 1] == s.last());
            }
        }
        assert forall|i: int| 0 <= i < r.len() implies #[trigger] r[i] == e || s.contains(r[i]) by {
            if i < u.len() {
                assert(r[i] == u[i]);
                if u[i] != e {
                    assert(t.contains(u[i]));
                    let j = choose|j: int| 0 <= j < t.len() && t[j] == u[i];
                    assert(s[j] == u[i]);
                }
            } else {
                assert(r[i] == s[s.len() - 1]);
            }
        }
    }
}

/// Sorting brings no two items into a relation that none of them had.
pub(crate) proof fn lemma_sorted_none_near<V>(
    s: Seq<V>,
    key: spec_fn(V) -> (int, int),
    near: spec_fn(V, V) -> bool,
)
    requires
        none_near(s, near),
    ensures
        none_near(sorted(s, key), near),
        sorted(s, key).len() == s.len(),
        forall|i: int| 0 <= i < s.len() ==> s.contains(#[trigger] sorted(s, key)[i]),
    decreases s.len(),
{
    if s.len() > 0 {
        let t = s.drop_last();
        let u = sorted(t, key);
        let e = s.last();
        lemma_sorted_none_near(t, key, near);
        assert forall|i: int| 0 <= i < u.len() implies !near(#[trigger] u[i], e) && !near(e, u[i]) by {
            assert(t.contains(u[i]));
            let j = choose|j: int| 0 <= j < t.len() && t[j] == u[i];
            assert(s[j] == u[i] && s[s.len() - 1] == e);
        }
        lemma_inserted_none_near(u, e, key, near);
        let r = sorted(s, key);
        assert forall|i: int| 0 <= i < r.len() implies s.contains(#[trigger] r[i]) by {
            if r[i] == e {
                assert(s[s.len() - 1] == e);
            } else {
                assert(u.contains(r[i]));
                let k = choose|k: int| 0 <= k < u.len() && u[k] == r[i];
                assert(t.contains(u[k]));
                let j = choose|j: int| 0 <= j < t.len() && t[j] == u[k];
                assert(s[j] == r[i]);
            }
        }
    }
}

/// A sequence cut into runs: an item goes on with the run before it where it is near the last item of
/// the run.
pub open spec fn runs<V>(s: Seq<V>, near: spec_fn(V, V) -> bool) -> Seq<Seq<V>>
    decreases s.len(),
{
    if s.len() == 0 {
        Seq::empty()
    } else {
        let before = runs(s.drop_last(), near);
        let e = s.last();
        if before.len() > 0 && near(before.last().last(), e) {
            before.drop_last().push(before.last().push(e))
        } else {
            before.push(seq![e])
        }
    }
}

/// No run is empty, in a run each item is near the one before it, and no run begins with an item that
/// is near the last one of the run before it.
pub open spec fn are_runs<V>(parts: Seq<Seq<V>>, near: spec_fn(V, V) -> bool) -> bool {
    &&& forall|r: int| 0 <= r < parts.len() ==> (#[trigger] parts[r]).len() > 0
    &&& forall|r: int, k: int|
        0 <= r < parts.len() && 0 < k < parts[r].len() ==> near(
            parts[r][k - 1],
            #[trigger] parts[r][k],
        )
    &&& forall|r: int|
        0 < r < parts.len() ==> !near(parts[r - 1].last(), (#[trigger] parts[r])[0])
}

proof fn lemma_runs_step<V>(
    before: Seq<Seq<V>>,
    parts: Seq<Seq<V>>,
    e: V,
    near: spec_fn(V, V) -> bool,
)
    requires
        are_runs(before, near),
        parts == if before.len() > 0 && near(before.last().last(), e) {
            before.drop_last().push(before.last().push(e))
        } else {
            before.push(seq![e])
        },
    ensures
        are_runs(parts, near),
{
    let n = before.len();
    assert forall|r: int, k: int| 0 <= r < parts.len() && 0 < k < parts[r].len() implies near(
        parts[r][k - 1],
        #[trigger] parts[r][k],
    ) by {
        if r < n && k < before[r].len() {
            assert(parts[r][k] == before[r][k]);
            assert(parts[r][k - 1] == before[r][k - 1]);
        }
    }
    assert forall|r: int| 0 < r < parts.len() implies !near(
        parts[r - 1].last(),
        (#[trigger] parts[r])[0],
    ) by {
        assert(parts[r - 1] == before[r - 1]);
        if r < n {
            assert(parts[r][0] == before[r][0]);
        }
    }
}

/// Cutting a sequence into runs loses nothing: one behind another they are the sequence again.
pub proof fn runs_hold_neighbours<V>(s: Seq<V>, near: spec_fn(V, V) -> bool)
    ensures
        runs(s, near).flatten() == s,
        are_runs(runs(s, near), near),
    decreases s.len(),
{
    let parts = runs(s, near);
    parts.lemma_flatten_and_flatten_alt_are_equivalent();
    if s.len() == 0 {
        assert(parts.flatten_alt() =~= s);
    } else {
        let front = s.drop_last();
        let before = runs(front, near);
        let e = s.last();
        runs_hold_neighbours(front, near);
        before.lemma_flatten_and_flatten_alt_are_equivalent();
        lemma_runs_step(before, parts, e, near);
        if before.len() > 0 && near(before.last().last(), e) {
            assert(parts.drop_last() =~= before.drop_last());
            assert(parts.flatten_alt() =~= before.flatten_alt().push(e));
        } else {
            assert(parts.drop_last() =~= before);
            assert(parts.flatten_alt() =~= before.flatten_alt().push(e));
        }
        assert(front.push(e) =~= s);
    }
}

/// Things in a list are seen one after another.
pub proof fn things_are_seen_in_order<T: View>(s: Seq<T>)
    ensures
        seen(s).len() == s.len(),
        forall|i: int| 0 <= i < s.len() ==> #[trigger] seen(s)[i] == s[i]@,
{
}

} // verus!
