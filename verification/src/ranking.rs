//! Putting things in the order that they have of themselves.
use crate::order;
use crate::text;
use vstd::prelude::*;

verus! {

/// Something that stands in an order with its like.
pub trait Ranked: View + Sized {
    /// Whether one comes no later than another.
    spec fn no_later(a: Self::V, b: Self::V) -> bool;

    proof fn total(a: Self::V, b: Self::V)
        ensures
            Self::no_later(a, b) || Self::no_later(b, a),
    ;

    proof fn transitive(a: Self::V, b: Self::V, c: Self::V)
        requires
            Self::no_later(a, b),
            Self::no_later(b, c),
        ensures
            Self::no_later(a, c),
    ;

    fn is_no_later(&self, other: &Self) -> (r: bool)
        ensures
            r == Self::no_later(self@, other@),
    ;
}

/// Whether none comes later than one behind it.
pub open spec fn in_order<T: Ranked>(s: Seq<T::V>) -> bool {
    forall|i: int, j: int| 0 <= i < j < s.len() ==> T::no_later(#[trigger] s[i], #[trigger] s[j])
}

fn place<T: Ranked>(items: &mut Vec<T>, item: T)
    requires
        in_order::<T>(order::seen(old(items)@)),
    ensures
        in_order::<T>(order::seen(final(items)@)),
        order::seen(final(items)@).to_multiset() == order::seen(old(items)@).to_multiset().insert(
            item@,
        ),
{
    let ghost before = order::seen(items@);
    let ghost e = item@;
    let mut at: usize = items.len();
    while at > 0 && !items[at - 1].is_no_later(&item)
        invariant
            at <= items@.len(),
            item@ == e,
            before == order::seen(items@),
            forall|j: int| at <= j < before.len() ==> T::no_later(e, #[trigger] before[j]),
        decreases at,
    {
        proof {
            assert(before[at - 1] == items@[at - 1]@);
            T::total(before[at - 1], e);
        }
        at -= 1;
    }
    proof {
        if at > 0 {
            assert(before[at - 1] == items@[at - 1]@);
        }
    }
    items.insert(at, item);
    proof {
        let after = order::seen(items@);
        assert(after =~= before.insert(at as int, e));
        vstd::seq_lib::to_multiset_insert(before, at as int, e);
        assert forall|i: int, j: int| 0 <= i < j < after.len() implies T::no_later(
            #[trigger] after[i],
            #[trigger] after[j],
        ) by {
            if j < at {
                assert(T::no_later(before[i], before[j]));
            } else if i > at {
                assert(T::no_later(before[i - 1], before[j - 1]));
            } else if i < at && j > at {
                assert(T::no_later(before[i], before[j - 1]));
            } else if j == at && i < at - 1 {
                assert(T::no_later(before[i], before[at - 1]));
                T::transitive(before[i], before[at - 1], e);
            }
        }
    }
}

/// The same things, in their order.
pub(crate) fn sort<T: Ranked>(items: Vec<T>) -> (r: Vec<T>)
    ensures
        in_order::<T>(order::seen(r@)),
        order::seen(r@).to_multiset() == order::seen(items@).to_multiset(),
{
    let ghost all = order::seen(items@);
    let mut out: Vec<T> = Vec::new();
    assert(order::seen(out@) =~= all.take(0));
    for item in it: items
        invariant
            all == order::seen(it.seq()),
            in_order::<T>(order::seen(out@)),
            order::seen(out@).to_multiset() == all.take(it.index()).to_multiset(),
    {
        proof {
            let n = it.index();
            assert(all.take(n + 1) =~= all.take(n).push(item@));
            vstd::seq_lib::to_multiset_build(all.take(n), item@);
        }
        place(&mut out, item);
    }
    assert(all.take(all.len() as int) =~= all);
    out
}

/// Whether a text comes no later than another one: the first character in which they differ
/// decides, and where one begins with the other, the shorter one comes first.
pub open spec fn text_no_later(a: Seq<char>, b: Seq<char>) -> bool
    decreases a.len(),
{
    if a.len() == 0 {
        true
    } else if b.len() == 0 {
        false
    } else if a[0] != b[0] {
        a[0] < b[0]
    } else {
        text_no_later(a.skip(1), b.skip(1))
    }
}

pub(crate) proof fn lemma_text_total(a: Seq<char>, b: Seq<char>)
    ensures
        text_no_later(a, b) || text_no_later(b, a),
        text_no_later(a, b) && text_no_later(b, a) ==> a == b,
    decreases a.len(),
{
    if a.len() > 0 && b.len() > 0 {
        if a[0] == b[0] {
            lemma_text_total(a.skip(1), b.skip(1));
            assert(a =~= seq![a[0]] + a.skip(1));
            assert(b =~= seq![b[0]] + b.skip(1));
        }
    } else if text_no_later(a, b) && text_no_later(b, a) {
        assert(a =~= b);
    }
}

pub(crate) proof fn lemma_text_transitive(a: Seq<char>, b: Seq<char>, c: Seq<char>)
    requires
        text_no_later(a, b),
        text_no_later(b, c),
    ensures
        text_no_later(a, c),
    decreases a.len(),
{
    if a.len() > 0 && a[0] == b[0] && b[0] == c[0] {
        lemma_text_transitive(a.skip(1), b.skip(1), c.skip(1));
    }
}

pub(crate) fn is_text_no_later(a: &str, b: &str) -> (r: bool)
    ensures
        r == text_no_later(a@, b@),
{
    let x = text::characters(a);
    let y = text::characters(b);
    let mut i: usize = 0;
    proof {
        assert(x@.skip(0) =~= x@);
        assert(y@.skip(0) =~= y@);
    }
    while i < x.len() && i < y.len()
        invariant
            x@ == a@,
            y@ == b@,
            i <= x@.len(),
            i <= y@.len(),
            text_no_later(a@, b@) == text_no_later(x@.skip(i as int), y@.skip(i as int)),
        decreases x@.len() - i,
    {
        let ghost p = x@.skip(i as int);
        let ghost q = y@.skip(i as int);
        assert(p[0] == x@[i as int] && q[0] == y@[i as int]);
        if x[i] != y[i] {
            return x[i] < y[i];
        }
        assert(p.skip(1) =~= x@.skip(i + 1));
        assert(q.skip(1) =~= y@.skip(i + 1));
        i += 1;
    }
    i == x.len()
}

impl Ranked for String {
    open spec fn no_later(a: Seq<char>, b: Seq<char>) -> bool {
        text_no_later(a, b)
    }

    proof fn total(a: Seq<char>, b: Seq<char>) {
        lemma_text_total(a, b);
    }

    proof fn transitive(a: Seq<char>, b: Seq<char>, c: Seq<char>) {
        lemma_text_transitive(a, b, c);
    }

    fn is_no_later(&self, other: &String) -> (r: bool) {
        is_text_no_later(self.as_str(), other.as_str())
    }
}

/// Texts have one order: two lists that hold the same texts in their order are the same.
pub proof fn texts_have_one_order(a: Seq<Seq<char>>, b: Seq<Seq<char>>)
    requires
        in_order::<String>(a),
        in_order::<String>(b),
        a.to_multiset() == b.to_multiset(),
    ensures
        a == b,
{
    let leq = |x: Seq<char>, y: Seq<char>| text_no_later(x, y);
    assert forall|x: Seq<char>| #[trigger] leq(x, x) by {
        lemma_text_total(x, x);
    }
    assert forall|x: Seq<char>, y: Seq<char>| #[trigger] leq(x, y) && #[trigger] leq(y, x) implies x
        == y by {
        lemma_text_total(x, y);
    }
    assert forall|x: Seq<char>, y: Seq<char>, z: Seq<char>| #[trigger]
        leq(x, y) && #[trigger] leq(y, z) implies leq(x, z) by {
        lemma_text_transitive(x, y, z);
    }
    assert forall|x: Seq<char>, y: Seq<char>| #[trigger] leq(x, y) || #[trigger] leq(y, x) by {
        lemma_text_total(x, y);
    }
    vstd::seq_lib::lemma_sorted_unique(a, b, leq);
}

/// The first character in which two texts differ decides between them, and a text comes before all
/// that begin with it.
pub proof fn the_first_difference_decides(
    common: Seq<char>,
    a: char,
    b: char,
    behind_a: Seq<char>,
    behind_b: Seq<char>,
)
    ensures
        a < b ==> text_no_later(common.push(a) + behind_a, common.push(b) + behind_b)
            && !text_no_later(common.push(b) + behind_b, common.push(a) + behind_a),
        text_no_later(common, common + behind_a),
        behind_a.len() > 0 ==> !text_no_later(common + behind_a, common),
    decreases common.len(),
{
    let x = common.push(a) + behind_a;
    let y = common.push(b) + behind_b;
    let z = common + behind_a;
    if common.len() > 0 {
        let rest = common.skip(1);
        the_first_difference_decides(rest, a, b, behind_a, behind_b);
        assert(x.skip(1) =~= rest.push(a) + behind_a);
        assert(y.skip(1) =~= rest.push(b) + behind_b);
        assert(z.skip(1) =~= rest + behind_a);
        assert(x[0] == common[0] && y[0] == common[0] && z[0] == common[0]);
    } else {
        assert(x[0] == a && y[0] == b);
    }
}

} // verus!
