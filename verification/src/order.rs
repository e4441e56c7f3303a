//! Orders, and the stable sort by them.

use vstd::prelude::*;

verus! {

/// A total preorder on `T`. Items that are at most each other are ties.
pub trait Order<T> {
    spec fn le(a: T, b: T) -> bool;

    proof fn total(a: T, b: T)
        ensures
            Self::le(a, b) || Self::le(b, a),
    ;

    proof fn transitive(a: T, b: T, c: T)
        requires
            Self::le(a, b),
            Self::le(b, c),
        ensures
            Self::le(a, c),
    ;

    fn at_most(a: &T, b: &T) -> (r: bool)
        ensures
            r == Self::le(*a, *b),
    ;
}

/// `s` with `x` put behind the items that are at most `x`.
pub open spec fn placed<T, O: Order<T>>(s: Seq<T>, x: T) -> Seq<T>
    decreases s.len(),
{
    if s.len() == 0 || O::le(s.last(), x) {
        s.push(x)
    } else {
        placed::<T, O>(s.drop_last(), x).push(s.last())
    }
}

/// `s` sorted, ties in the order in which they came.
pub open spec fn sorted<T, O: Order<T>>(s: Seq<T>) -> Seq<T>
    decreases s.len(),
{
    if s.len() == 0 {
        s
    } else {
        placed::<T, O>(sorted::<T, O>(s.drop_last()), s.last())
    }
}

/// Whether no item of `s` stands before one that it must follow.
pub open spec fn in_order<T, O: Order<T>>(s: Seq<T>) -> bool {
    forall|i: int, j: int| 0 <= i <= j < s.len() ==> O::le(#[trigger] s[i], #[trigger] s[j])
}

proof fn lemma_placed<T, O: Order<T>>(s: Seq<T>, x: T)
    requires
        in_order::<T, O>(s),
    ensures
        in_order::<T, O>(placed::<T, O>(s, x)),
        placed::<T, O>(s, x).to_multiset() == s.to_multiset().insert(x),
        placed::<T, O>(s, x).len() == s.len() + 1,
    decreases s.len(),
{
    broadcast use vstd::seq_lib::group_to_multiset_ensures;

    let r = placed::<T, O>(s, x);
    O::total(x, x);
    if s.len() == 0 {
    } else if O::le(s.last(), x) {
        assert forall|i: int, j: int| 0 <= i <= j < r.len() implies O::le(
            #[trigger] r[i],
            #[trigger] r[j],
        ) by {
            if j == s.len() && i < j {
                O::transitive(s[i], s.last(), x);
            }
        }
    } else {
        let front = placed::<T, O>(s.drop_last(), x);
        lemma_placed::<T, O>(s.drop_last(), x);
        O::total(s.last(), x);
        assert forall|i: int| 0 <= i < front.len() implies O::le(#[trigger] front[i], s.last()) by {
            assert(front.to_multiset().contains(front[i]));
            if front[i] != x {
                assert(s.drop_last().to_multiset().contains(front[i]));
                assert(s.drop_last().contains(front[i]));
            }
        }
        O::total(s.last(), s.last());
        assert(s =~= s.drop_last().push(s.last()));
        assert(r.to_multiset() =~= s.to_multiset().insert(x));
    }
}

/// Sorting keeps the items, and leaves them in order.
pub proof fn sorting_sorts<T, O: Order<T>>(s: Seq<T>)
    ensures
        in_order::<T, O>(sorted::<T, O>(s)),
        sorted::<T, O>(s).to_multiset() == s.to_multiset(),
        sorted::<T, O>(s).len() == s.len(),
    decreases s.len(),
{
    broadcast use vstd::seq_lib::group_to_multiset_ensures;

    if s.len() > 0 {
        sorting_sorts::<T, O>(s.drop_last());
        lemma_placed::<T, O>(sorted::<T, O>(s.drop_last()), s.last());
        assert(s =~= s.drop_last().push(s.last()));
    }
}

proof fn lemma_placed_keeps_ties<T, O: Order<T>>(s: Seq<T>, x: T, t: T)
    requires
        in_order::<T, O>(s),
    ensures
        placed::<T, O>(s, x).filter(|y: T| O::le(y, t) && O::le(t, y)) == s.push(x).filter(
            |y: T| O::le(y, t) && O::le(t, y),
        ),
    decreases s.len(),
{
    reveal(Seq::filter);
    let tie = |y: T| O::le(y, t) && O::le(t, y);
    if s.len() > 0 && !O::le(s.last(), x) {
        let last = s.last();
        let front = s.drop_last();
        lemma_placed_keeps_ties::<T, O>(front, x, t);
        assert(placed::<T, O>(s, x).drop_last() =~= placed::<T, O>(front, x));
        assert(front.push(x).drop_last() =~= front);
        assert(s.push(x).drop_last() =~= s);
        let kept = front.filter(tie);
        assert(s.filter(tie) == if tie(last) { kept.push(last) } else { kept });
        assert(front.push(x).filter(tie) == if tie(x) { kept.push(x) } else { kept });
        if tie(last) && tie(x) {
            O::transitive(last, t, x);
        }
    }
}

/// Sorting never changes the order of ties.
pub proof fn sorting_keeps_ties<T, O: Order<T>>(s: Seq<T>, t: T)
    ensures
        sorted::<T, O>(s).filter(|y: T| O::le(y, t) && O::le(t, y)) == s.filter(
            |y: T| O::le(y, t) && O::le(t, y),
        ),
    decreases s.len(),
{
    reveal(Seq::filter);
    if s.len() > 0 {
        let front = sorted::<T, O>(s.drop_last());
        sorting_keeps_ties::<T, O>(s.drop_last(), t);
        sorting_sorts::<T, O>(s.drop_last());
        lemma_placed_keeps_ties::<T, O>(front, s.last(), t);
        assert(front.push(s.last()).drop_last() =~= front);
    }
}

/// Where ties are equal, only one arrangement of the items is in order.
pub proof fn order_is_unique<T, O: Order<T>>(a: Seq<T>, b: Seq<T>)
    requires
        in_order::<T, O>(a),
        in_order::<T, O>(b),
        a.to_multiset() == b.to_multiset(),
        forall|x: T, y: T|
            a.contains(x) && a.contains(y) && #[trigger] O::le(x, y) && #[trigger] O::le(y, x)
                ==> x == y,
    ensures
        a == b,
    decreases a.len(),
{
    broadcast use vstd::seq_lib::group_to_multiset_ensures;

    assert(a.to_multiset().len() == a.len());
    assert(b.to_multiset().len() == b.len());
    if a.len() > 0 {
        let x = a.last();
        let y = b.last();
        assert(a.to_multiset().contains(y)) by {
            assert(b.contains(y));
        }
        assert(b.to_multiset().contains(x)) by {
            assert(a.contains(x));
        }
        assert(a.contains(y));
        assert(b.contains(x));
        assert(O::le(y, x) && O::le(x, y));
        assert(x == y);
        assert(a =~= a.drop_last().push(x));
        assert(b =~= b.drop_last().push(x));
        assert(a.drop_last().to_multiset() =~= a.to_multiset().remove(x));
        assert(b.drop_last().to_multiset() =~= b.to_multiset().remove(x));
        order_is_unique::<T, O>(a.drop_last(), b.drop_last());
    } else {
        assert(a =~= b);
    }
}

/// Whether an order never tells two items apart.
pub open spec fn stands_for<T, O: Order<T>>(a: T, b: T) -> bool {
    forall|x: T|
        #![trigger O::le(a, x)]
        #![trigger O::le(b, x)]
        #![trigger O::le(x, a)]
        #![trigger O::le(x, b)]
        O::le(a, x) == O::le(b, x) && O::le(x, a) == O::le(x, b)
}

proof fn lemma_placed_instead<T, O: Order<T>>(s: Seq<T>, a: T, b: T) -> (j: int)
    requires
        stands_for::<T, O>(a, b),
    ensures
        0 <= j < placed::<T, O>(s, a).len(),
        placed::<T, O>(s, a)[j] == a,
        placed::<T, O>(s, b) == placed::<T, O>(s, a).update(j, b),
    decreases s.len(),
{
    if s.len() == 0 || O::le(s.last(), a) {
        assert(placed::<T, O>(s, b) =~= placed::<T, O>(s, a).update(s.len() as int, b));
        s.len() as int
    } else {
        let j = lemma_placed_instead::<T, O>(s.drop_last(), a, b);
        assert(placed::<T, O>(s, b) =~= placed::<T, O>(s, a).update(j, b));
        j
    }
}

proof fn lemma_placed_among<T, O: Order<T>>(s: Seq<T>, k: int, b: T, x: T) -> (j: int)
    requires
        0 <= k < s.len(),
        stands_for::<T, O>(s[k], b),
    ensures
        0 <= j < placed::<T, O>(s, x).len(),
        placed::<T, O>(s, x)[j] == s[k],
        placed::<T, O>(s.update(k, b), x) == placed::<T, O>(s, x).update(j, b),
    decreases s.len(),
{
    let t = s.update(k, b);
    assert(O::le(t.last(), x) == O::le(s.last(), x));
    if O::le(s.last(), x) {
        assert(t.push(x) =~= s.push(x).update(k, b));
        k
    } else if k == s.len() - 1 {
        let front = placed::<T, O>(s.drop_last(), x);
        assert(t.drop_last() =~= s.drop_last());
        assert(front.push(b) =~= front.push(s.last()).update(front.len() as int, b));
        front.len() as int
    } else {
        let j = lemma_placed_among::<T, O>(s.drop_last(), k, b, x);
        let front = placed::<T, O>(s.drop_last(), x);
        assert(t.drop_last() =~= s.drop_last().update(k, b));
        assert(front.update(j, b).push(s.last()) =~= front.push(s.last()).update(j, b));
        j
    }
}

/// An item that stands for another comes to stand in its place.
pub proof fn lemma_sorted_instead<T, O: Order<T>>(s: Seq<T>, k: int, b: T) -> (j: int)
    requires
        0 <= k < s.len(),
        stands_for::<T, O>(s[k], b),
    ensures
        0 <= j < sorted::<T, O>(s).len(),
        sorted::<T, O>(s)[j] == s[k],
        sorted::<T, O>(s.update(k, b)) == sorted::<T, O>(s).update(j, b),
    decreases s.len(),
{
    let t = s.update(k, b);
    let front = sorted::<T, O>(s.drop_last());
    if k == s.len() - 1 {
        assert(t.drop_last() =~= s.drop_last());
        lemma_placed_instead::<T, O>(front, s[k], b)
    } else {
        let j = lemma_sorted_instead::<T, O>(s.drop_last(), k, b);
        assert(t.drop_last() =~= s.drop_last().update(k, b));
        lemma_placed_among::<T, O>(front, j, b, s.last())
    }
}

/// An item with a property that is put in the place of one with it comes to be
/// in its place among those with the property.
pub proof fn lemma_filter_instead<T>(s: Seq<T>, k: int, b: T, pred: spec_fn(T) -> bool) -> (j: int)
    requires
        0 <= k < s.len(),
        pred(s[k]),
        pred(b),
    ensures
        0 <= j < s.filter(pred).len(),
        s.filter(pred)[j] == s[k],
        s.update(k, b).filter(pred) == s.filter(pred).update(j, b),
    decreases s.len(),
{
    reveal(Seq::filter);
    let t = s.update(k, b);
    let front = s.drop_last().filter(pred);
    if k == s.len() - 1 {
        assert(t.drop_last() =~= s.drop_last());
        assert(front.push(b) =~= front.push(s.last()).update(front.len() as int, b));
        front.len() as int
    } else {
        let j = lemma_filter_instead(s.drop_last(), k, b, pred);
        assert(t.drop_last() =~= s.drop_last().update(k, b));
        assert(t.filter(pred) =~= s.filter(pred).update(j, b));
        j
    }
}

/// Filtering a sequence filters its items.
pub proof fn lemma_filter_items<T>(s: Seq<T>, pred: spec_fn(T) -> bool)
    ensures
        s.filter(pred).to_multiset() == s.to_multiset().filter(pred),
    decreases s.len(),
{
    broadcast use vstd::seq_lib::group_to_multiset_ensures;

    reveal(Seq::filter);
    if s.len() > 0 {
        lemma_filter_items(s.drop_last(), pred);
        assert(s =~= s.drop_last().push(s.last()));
        assert(s.filter(pred).to_multiset() =~= s.to_multiset().filter(pred));
    } else {
        assert(s.filter(pred).to_multiset() =~= s.to_multiset().filter(pred));
    }
}

/// Sorts `items`; ties keep their order.
pub fn sort<'a, T, O: Order<T>>(items: &[&'a T]) -> (r: Vec<&'a T>)
    ensures
        r@.unref() == sorted::<T, O>(items@.unref()),
{
    let ghost all = items@.unref();
    let mut r: Vec<&'a T> = Vec::new();
    let mut i: usize = 0;
    assert(r@.unref() =~= sorted::<T, O>(all.take(0)));
    while i < items.len()
        invariant
            i <= items@.len(),
            all == items@.unref(),
            r@.unref() == sorted::<T, O>(all.take(i as int)),
        decreases items@.len() - i,
    {
        let x: &'a T = items[i];
        let ghost u = r@.unref();
        let mut pos: usize = r.len();
        assert(u.take(pos as int) =~= u);
        assert(placed::<T, O>(u, *x) =~= placed::<T, O>(u.take(pos as int), *x) + u.skip(
            pos as int,
        ));
        while pos > 0 && !O::at_most(r[pos - 1], x)
            invariant
                pos <= r@.len(),
                u == r@.unref(),
                placed::<T, O>(u, *x) == placed::<T, O>(u.take(pos as int), *x) + u.skip(pos as int),
            ensures
                pos <= r@.len(),
                placed::<T, O>(u, *x) == placed::<T, O>(u.take(pos as int), *x) + u.skip(pos as int),
                pos == 0 || O::le(u[pos - 1], *x),
            decreases pos,
        {
            assert(u.take(pos as int).drop_last() =~= u.take(pos - 1));
            assert(u.take(pos as int).last() == u[pos - 1]);
            assert(placed::<T, O>(u.take(pos - 1), *x).push(u[pos - 1]) + u.skip(pos as int)
                =~= placed::<T, O>(u.take(pos - 1), *x) + u.skip(pos - 1));
            pos = pos - 1;
        }
        assert(pos > 0 ==> u.take(pos as int).last() == u[pos - 1]);
        assert(u.insert(pos as int, *x) =~= u.take(pos as int).push(*x) + u.skip(pos as int));
        r.insert(pos, x);
        assert(r@.unref() =~= u.insert(pos as int, *x));
        i = i + 1;
        assert(all.take(i as int).drop_last() =~= all.take(i - 1));
    }
    assert(all.take(i as int) =~= all);
    r
}

/// Whether `a` comes no later than `b` in dictionary order.
pub open spec fn bytes_le(a: Seq<u8>, b: Seq<u8>) -> bool
    decreases a.len(),
{
    if a.len() == 0 {
        true
    } else if b.len() == 0 {
        false
    } else if a[0] != b[0] {
        a[0] < b[0]
    } else {
        bytes_le(a.drop_first(), b.drop_first())
    }
}

pub proof fn bytes_le_total(a: Seq<u8>, b: Seq<u8>)
    ensures
        bytes_le(a, b) || bytes_le(b, a),
    decreases a.len(),
{
    if a.len() > 0 && b.len() > 0 && a[0] == b[0] {
        bytes_le_total(a.drop_first(), b.drop_first());
    }
}

pub proof fn bytes_le_transitive(a: Seq<u8>, b: Seq<u8>, c: Seq<u8>)
    requires
        bytes_le(a, b),
        bytes_le(b, c),
    ensures
        bytes_le(a, c),
    decreases a.len(),
{
    if a.len() > 0 && b.len() > 0 && c.len() > 0 && a[0] == b[0] && b[0] == c[0] {
        bytes_le_transitive(a.drop_first(), b.drop_first(), c.drop_first());
    }
}

/// Only equal byte strings come no later than each other.
pub proof fn bytes_le_antisymmetric(a: Seq<u8>, b: Seq<u8>)
    requires
        bytes_le(a, b),
        bytes_le(b, a),
    ensures
        a == b,
    decreases a.len(),
{
    if a.len() > 0 && b.len() > 0 {
        bytes_le_antisymmetric(a.drop_first(), b.drop_first());
        assert(a =~= seq![a[0]] + a.drop_first());
        assert(b =~= seq![b[0]] + b.drop_first());
    } else {
        assert(a =~= b);
    }
}

/// Whether `a` comes no later than `b` in dictionary order.
pub fn bytes_at_most(a: &[u8], b: &[u8]) -> (r: bool)
    ensures
        r == bytes_le(a@, b@),
{
    let mut i: usize = 0;
    assert(a@.skip(0) =~= a@);
    assert(b@.skip(0) =~= b@);
    while i < a.len() && i < b.len() && a[i] == b[i]
        invariant
            i <= a@.len(),
            i <= b@.len(),
            bytes_le(a@, b@) == bytes_le(a@.skip(i as int), b@.skip(i as int)),
        ensures
            i <= a@.len(),
            i <= b@.len(),
            bytes_le(a@, b@) == bytes_le(a@.skip(i as int), b@.skip(i as int)),
            i == a@.len() || i == b@.len() || a@[i as int] != b@[i as int],
        decreases a@.len() - i,
    {
        assert(a@.skip(i as int).drop_first() =~= a@.skip(i + 1));
        assert(b@.skip(i as int).drop_first() =~= b@.skip(i + 1));
        i = i + 1;
    }
    if i == a.len() {
        true
    } else if i == b.len() {
        false
    } else {
        a[i] < b[i]
    }
}

/// Whether `a` comes no later than `b`; nothing comes before something.
pub open spec fn optional_le(a: Option<Seq<u8>>, b: Option<Seq<u8>>) -> bool {
    match (a, b) {
        (None, _) => true,
        (Some(_), None) => false,
        (Some(x), Some(y)) => bytes_le(x, y),
    }
}

pub proof fn optional_le_total(a: Option<Seq<u8>>, b: Option<Seq<u8>>)
    ensures
        optional_le(a, b) || optional_le(b, a),
{
    if a is Some && b is Some {
        bytes_le_total(a->0, b->0);
    }
}

pub proof fn optional_le_transitive(
    a: Option<Seq<u8>>,
    b: Option<Seq<u8>>,
    c: Option<Seq<u8>>,
)
    requires
        optional_le(a, b),
        optional_le(b, c),
    ensures
        optional_le(a, c),
{
    if a is Some && b is Some && c is Some {
        bytes_le_transitive(a->0, b->0, c->0);
    }
}

/// The bytes of a text, if there is one.
pub open spec fn optional_bytes(s: Option<String>) -> Option<Seq<u8>> {
    match s {
        Some(s) => Some(vstd::utf8::encode_utf8(s@)),
        None => None,
    }
}

/// Whether `a` comes no later than `b`; nothing comes before something.
pub fn optional_at_most(a: &Option<String>, b: &Option<String>) -> (r: bool)
    ensures
        r == optional_le(optional_bytes(*a), optional_bytes(*b)),
{
    match (a, b) {
        (None, _) => true,
        (Some(_), None) => false,
        (Some(x), Some(y)) => bytes_at_most(x.as_str().as_bytes(), y.as_str().as_bytes()),
    }
}

} // verus!
