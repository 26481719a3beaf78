//! Stable merge sort under a total preorder.
//!
//! Every canonical ordering in the executor (LPT work order, node order, event-key order) is a
//! stable sort: items that compare equal keep their input order. The sort here is specified by
//! its recursive definition; the law below states what it guarantees: the output is ordered,
//! and for every item the subsequence of items equivalent to it is unchanged, so nothing is lost,
//! duplicated or reordered among ties.

use vstd::prelude::*;

verus! {

/// A total preorder on a copyable item.
pub trait SortKey: Copy + Sized {
    /// `self` may precede `other`.
    spec fn spec_le(self, other: Self) -> bool;

    fn le_key(&self, other: &Self) -> (le: bool)
        ensures
            le == self.spec_le(*other),
    ;

    proof fn lemma_total(a: Self, b: Self)
        ensures
            a.spec_le(b) || b.spec_le(a),
    ;

    proof fn lemma_transitive(a: Self, b: Self, c: Self)
        requires
            a.spec_le(b),
            b.spec_le(c),
        ensures
            a.spec_le(c),
    ;
}

/// Neither item strictly precedes the other.
pub open spec fn spec_equivalent<T: SortKey>(a: T, b: T) -> bool {
    a.spec_le(b) && b.spec_le(a)
}

/// Items ordered by the preorder.
pub open spec fn spec_ordered<T: SortKey>(s: Seq<T>) -> bool {
    forall|i: int, j: int| 0 <= i < j < s.len() ==> (#[trigger] s[i]).spec_le(#[trigger] s[j])
}

/// The items of `s` equivalent to `x`, in order.
pub open spec fn spec_class<T: SortKey>(s: Seq<T>, x: T) -> Seq<T>
    decreases s.len(),
{
    if s.len() == 0 {
        Seq::empty()
    } else if spec_equivalent(s[0], x) {
        seq![s[0]] + spec_class(s.drop_first(), x)
    } else {
        spec_class(s.drop_first(), x)
    }
}

/// Stable merge: on ties the item from `a` goes first.
pub open spec fn spec_merge<T: SortKey>(a: Seq<T>, b: Seq<T>) -> Seq<T>
    decreases a.len() + b.len(),
{
    if a.len() == 0 {
        b
    } else if b.len() == 0 {
        a
    } else if a[0].spec_le(b[0]) {
        seq![a[0]] + spec_merge(a.drop_first(), b)
    } else {
        seq![b[0]] + spec_merge(a, b.drop_first())
    }
}

/// Top-down merge sort splitting at the midpoint.
pub open spec fn spec_merge_sort<T: SortKey>(s: Seq<T>) -> Seq<T>
    decreases s.len(),
{
    if s.len() <= 1 {
        s
    } else {
        let middle = s.len() / 2;
        spec_merge(spec_merge_sort(s.take(middle as int)), spec_merge_sort(s.skip(middle as int)))
    }
}

proof fn lemma_merge_len<T: SortKey>(a: Seq<T>, b: Seq<T>)
    ensures
        spec_merge(a, b).len() == a.len() + b.len(),
    decreases a.len() + b.len(),
{
    if a.len() > 0 && b.len() > 0 {
        if a[0].spec_le(b[0]) {
            lemma_merge_len(a.drop_first(), b);
        } else {
            lemma_merge_len(a, b.drop_first());
        }
    }
}

/// A lower bound of both inputs bounds the merge.
proof fn lemma_merge_bounded<T: SortKey>(a: Seq<T>, b: Seq<T>, x: T)
    requires
        forall|i: int| 0 <= i < a.len() ==> x.spec_le(#[trigger] a[i]),
        forall|i: int| 0 <= i < b.len() ==> x.spec_le(#[trigger] b[i]),
    ensures
        forall|i: int| 0 <= i < spec_merge(a, b).len() ==> x.spec_le(#[trigger] spec_merge(a, b)[i]),
    decreases a.len() + b.len(),
{
    if a.len() > 0 && b.len() > 0 {
        if a[0].spec_le(b[0]) {
            lemma_merge_bounded(a.drop_first(), b, x);
            let rest = spec_merge(a.drop_first(), b);
            assert forall|i: int| 0 <= i < spec_merge(a, b).len() implies x.spec_le(
                #[trigger] spec_merge(a, b)[i],
            ) by {
                if i > 0 {
                    assert(spec_merge(a, b)[i] == rest[i - 1]);
                }
            }
        } else {
            lemma_merge_bounded(a, b.drop_first(), x);
            let rest = spec_merge(a, b.drop_first());
            assert forall|i: int| 0 <= i < spec_merge(a, b).len() implies x.spec_le(
                #[trigger] spec_merge(a, b)[i],
            ) by {
                if i > 0 {
                    assert(spec_merge(a, b)[i] == rest[i - 1]);
                }
            }
        }
    }
}

proof fn lemma_merge_ordered<T: SortKey>(a: Seq<T>, b: Seq<T>)
    requires
        spec_ordered(a),
        spec_ordered(b),
    ensures
        spec_ordered(spec_merge(a, b)),
    decreases a.len() + b.len(),
{
    if a.len() > 0 && b.len() > 0 {
        if a[0].spec_le(b[0]) {
            let head = a[0];
            let rest = spec_merge(a.drop_first(), b);
            lemma_merge_ordered(a.drop_first(), b);
            assert forall|i: int| 0 <= i < b.len() implies head.spec_le(#[trigger] b[i]) by {
                if i > 0 {
                    T::lemma_transitive(head, b[0], b[i]);
                }
            }
            lemma_merge_bounded(a.drop_first(), b, head);
            let m = spec_merge(a, b);
            assert forall|i: int, j: int| 0 <= i < j < m.len() implies (#[trigger] m[i]).spec_le(
                #[trigger] m[j],
            ) by {
                assert(m[j] == rest[j - 1]);
                if i > 0 {
                    assert(m[i] == rest[i - 1]);
                }
            }
        } else {
            let head = b[0];
            T::lemma_total(a[0], b[0]);
            let rest = spec_merge(a, b.drop_first());
            lemma_merge_ordered(a, b.drop_first());
            assert forall|i: int| 0 <= i < a.len() implies head.spec_le(#[trigger] a[i]) by {
                if i > 0 {
                    T::lemma_transitive(head, a[0], a[i]);
                }
            }
            lemma_merge_bounded(a, b.drop_first(), head);
            let m = spec_merge(a, b);
            assert forall|i: int, j: int| 0 <= i < j < m.len() implies (#[trigger] m[i]).spec_le(
                #[trigger] m[j],
            ) by {
                assert(m[j] == rest[j - 1]);
                if i > 0 {
                    assert(m[i] == rest[i - 1]);
                }
            }
        }
    }
}

proof fn lemma_class_concat<T: SortKey>(a: Seq<T>, b: Seq<T>, x: T)
    ensures
        spec_class(a + b, x) == spec_class(a, x) + spec_class(b, x),
    decreases a.len(),
{
    if a.len() == 0 {
        assert(a + b =~= b);
        assert(spec_class(a, x) + spec_class(b, x) =~= spec_class(b, x));
    } else {
        assert((a + b).drop_first() =~= a.drop_first() + b);
        lemma_class_concat(a.drop_first(), b, x);
        if spec_equivalent(a[0], x) {
            assert(spec_class(a + b, x) =~= spec_class(a, x) + spec_class(b, x));
        }
    }
}

proof fn lemma_class_empty<T: SortKey>(a: Seq<T>, x: T)
    requires
        forall|i: int| 0 <= i < a.len() ==> !spec_equivalent(#[trigger] a[i], x),
    ensures
        spec_class(a, x) == Seq::<T>::empty(),
    decreases a.len(),
{
    if a.len() > 0 {
        assert forall|i: int| 0 <= i < a.drop_first().len() implies !spec_equivalent(
            #[trigger] a.drop_first()[i],
            x,
        ) by {
            assert(a.drop_first()[i] == a[i + 1]);
        }
        lemma_class_empty(a.drop_first(), x);
    }
}

proof fn lemma_merge_class<T: SortKey>(a: Seq<T>, b: Seq<T>, x: T)
    requires
        spec_ordered(a),
        spec_ordered(b),
    ensures
        spec_class(spec_merge(a, b), x) == spec_class(a, x) + spec_class(b, x),
    decreases a.len() + b.len(),
{
    if a.len() == 0 {
        assert(spec_class(a, x) + spec_class(b, x) =~= spec_class(b, x));
    } else if b.len() == 0 {
        assert(spec_class(a, x) + spec_class(b, x) =~= spec_class(a, x));
    } else if a[0].spec_le(b[0]) {
        lemma_merge_class(a.drop_first(), b, x);
        let rest = spec_merge(a.drop_first(), b);
        assert((seq![a[0]] + rest).drop_first() =~= rest);
        if spec_equivalent(a[0], x) {
            assert(spec_class(spec_merge(a, b), x) =~= spec_class(a, x) + spec_class(b, x));
        }
    } else {
        T::lemma_total(a[0], b[0]);
        lemma_merge_class(a, b.drop_first(), x);
        let rest = spec_merge(a, b.drop_first());
        assert((seq![b[0]] + rest).drop_first() =~= rest);
        if spec_equivalent(b[0], x) {
            // Every item of `a` strictly follows `b[0]`, so none is equivalent to `x`.
            assert forall|i: int| 0 <= i < a.len() implies !spec_equivalent(#[trigger] a[i], x) by {
                if spec_equivalent(a[i], x) {
                    T::lemma_transitive(a[i], x, b[0]);
                    if i > 0 {
                        T::lemma_transitive(a[0], a[i], b[0]);
                    }
                }
            }
            lemma_class_empty(a, x);
            assert(spec_class(spec_merge(a, b), x) =~= spec_class(a, x) + spec_class(b, x));
        }
    }
}

/// Merge sort orders its input and keeps, for every item, the subsequence of items equivalent
/// to it: the output is the stable sort of the input.
pub proof fn law_merge_sort_is_stable_sort<T: SortKey>(s: Seq<T>)
    ensures
        spec_merge_sort(s).len() == s.len(),
        spec_ordered(spec_merge_sort(s)),
        forall|x: T| #[trigger] spec_class(spec_merge_sort(s), x) == spec_class(s, x),
    decreases s.len(),
{
    if s.len() > 1 {
        let middle = s.len() / 2;
        let left = s.take(middle as int);
        let right = s.skip(middle as int);
        law_merge_sort_is_stable_sort(left);
        law_merge_sort_is_stable_sort(right);
        lemma_merge_len(spec_merge_sort(left), spec_merge_sort(right));
        lemma_merge_ordered(spec_merge_sort(left), spec_merge_sort(right));
        assert(s =~= left + right);
        assert forall|x: T| #[trigger] spec_class(spec_merge_sort(s), x) == spec_class(s, x) by {
            lemma_merge_class(spec_merge_sort(left), spec_merge_sort(right), x);
            lemma_class_concat(left, right, x);
        }
    }
}

proof fn lemma_class_contains<T: SortKey>(s: Seq<T>, i: int)
    requires
        0 <= i < s.len(),
    ensures
        spec_class(s, s[i]).contains(s[i]),
    decreases s.len(),
{
    T::lemma_total(s[i], s[i]);
    if i == 0 {
        assert(spec_class(s, s[0])[0] == s[0]);
    } else {
        lemma_class_contains(s.drop_first(), i - 1);
        assert(s.drop_first()[i - 1] == s[i]);
        let rest = spec_class(s.drop_first(), s[i]);
        let k = choose|k: int| 0 <= k < rest.len() && rest[k] == s[i];
        if spec_equivalent(s[0], s[i]) {
            assert(spec_class(s, s[i])[k + 1] == s[i]);
        }
    }
}

proof fn lemma_class_members<T: SortKey>(s: Seq<T>, x: T, y: T)
    requires
        spec_class(s, x).contains(y),
    ensures
        s.contains(y),
    decreases s.len(),
{
    if s.len() > 0 {
        let rest = spec_class(s.drop_first(), x);
        if y == s[0] {
        } else {
            let k = choose|k: int| 0 <= k < spec_class(s, x).len() && spec_class(s, x)[k] == y;
            if spec_equivalent(s[0], x) {
                assert(rest[k - 1] == y);
            } else {
                assert(rest[k] == y);
            }
            lemma_class_members(s.drop_first(), x, y);
            let j = choose|j: int| 0 <= j < s.drop_first().len() && s.drop_first()[j] == y;
            assert(s[j + 1] == y);
        }
    }
}

/// Every item of the sorted output is an item of the input.
pub proof fn lemma_merge_sort_member<T: SortKey>(s: Seq<T>, i: int)
    requires
        0 <= i < spec_merge_sort(s).len(),
    ensures
        s.contains(spec_merge_sort(s)[i]),
{
    let sorted = spec_merge_sort(s);
    law_merge_sort_is_stable_sort(s);
    lemma_class_contains(sorted, i);
    assert(spec_class(sorted, sorted[i]) == spec_class(s, sorted[i]));
    lemma_class_members(s, sorted[i], sorted[i]);
}

proof fn lemma_class_members_equivalent<T: SortKey>(s: Seq<T>, x: T, k: int)
    requires
        0 <= k < spec_class(s, x).len(),
    ensures
        spec_equivalent(spec_class(s, x)[k], x),
        s.contains(spec_class(s, x)[k]),
    decreases s.len(),
{
    let rest = spec_class(s.drop_first(), x);
    if spec_equivalent(s[0], x) {
        if k > 0 {
            lemma_class_members_equivalent(s.drop_first(), x, k - 1);
            assert(spec_class(s, x)[k] == rest[k - 1]);
            let j = choose|j: int| 0 <= j < s.drop_first().len() && s.drop_first()[j] == rest[k - 1];
            assert(s[j + 1] == rest[k - 1]);
        } else {
            assert(s[0] == spec_class(s, x)[0]);
        }
    } else {
        lemma_class_members_equivalent(s.drop_first(), x, k);
        let j = choose|j: int| 0 <= j < s.drop_first().len() && s.drop_first()[j] == rest[k];
        assert(s[j + 1] == rest[k]);
    }
}

/// Two ordered sequences that agree, for every item, on the subsequence of items equivalent to
/// it are equal: a stable sort has exactly one result.
pub proof fn lemma_stable_sort_unique<T: SortKey>(t: Seq<T>, u: Seq<T>)
    requires
        spec_ordered(t),
        spec_ordered(u),
        forall|x: T| #[trigger] spec_class(t, x) == spec_class(u, x),
    ensures
        t == u,
    decreases t.len() + u.len(),
{
    if t.len() == 0 || u.len() == 0 {
        if t.len() > 0 {
            lemma_class_contains(t, 0);
            assert(spec_class(u, t[0]).len() == 0);
        } else if u.len() > 0 {
            lemma_class_contains(u, 0);
            assert(spec_class(t, u[0]).len() == 0);
        }
        assert(t =~= u);
    } else {
        let a = t[0];
        let b = u[0];
        // Each first item precedes the other: the other's class member in its sequence follows it.
        lemma_class_contains(u, 0);
        assert(spec_class(t, b) == spec_class(u, b));
        let k = choose|k: int| 0 <= k < spec_class(u, b).len() && spec_class(u, b)[k] == b;
        lemma_class_members_equivalent(t, b, k);
        let j = choose|j: int| 0 <= j < t.len() && t[j] == spec_class(t, b)[k];
        T::lemma_total(a, a);
        if j > 0 {
            T::lemma_transitive(a, t[j], b);
        }
        lemma_class_contains(t, 0);
        assert(spec_class(u, a) == spec_class(t, a));
        let m = choose|m: int| 0 <= m < spec_class(t, a).len() && spec_class(t, a)[m] == a;
        lemma_class_members_equivalent(u, a, m);
        let n = choose|n: int| 0 <= n < u.len() && u[n] == spec_class(u, a)[m];
        T::lemma_total(b, b);
        if n > 0 {
            T::lemma_transitive(b, u[n], a);
        }
        assert(spec_equivalent(a, b));
        assert(spec_equivalent(b, a));
        assert(spec_class(t, a)[0] == a);
        assert(spec_class(u, a)[0] == b);
        assert(a == b);
        assert forall|x: T| #[trigger] spec_class(t.drop_first(), x) == spec_class(u.drop_first(), x) by {
            assert(spec_class(t, x) == spec_class(u, x));
            if spec_equivalent(a, x) {
                assert(spec_class(t.drop_first(), x) =~= spec_class(t, x).drop_first());
                assert(spec_class(u.drop_first(), x) =~= spec_class(u, x).drop_first());
            }
        }
        assert forall|i: int, j: int| 0 <= i < j < t.drop_first().len() implies (#[trigger] t.drop_first()[i]).spec_le(
            #[trigger] t.drop_first()[j],
        ) by {
            assert(t.drop_first()[i] == t[i + 1] && t.drop_first()[j] == t[j + 1]);
        }
        assert forall|i: int, j: int| 0 <= i < j < u.drop_first().len() implies (#[trigger] u.drop_first()[i]).spec_le(
            #[trigger] u.drop_first()[j],
        ) by {
            assert(u.drop_first()[i] == u[i + 1] && u.drop_first()[j] == u[j + 1]);
        }
        lemma_stable_sort_unique(t.drop_first(), u.drop_first());
        assert(t =~= seq![a] + t.drop_first());
        assert(u =~= seq![b] + u.drop_first());
    }
}

proof fn lemma_merge_multiset<T: SortKey>(a: Seq<T>, b: Seq<T>)
    ensures
        spec_merge(a, b).to_multiset() == a.to_multiset().add(b.to_multiset()),
    decreases a.len() + b.len(),
{
    broadcast use vstd::seq_lib::lemma_multiset_commutative;
    broadcast use vstd::seq_lib::group_to_multiset_ensures;
    broadcast use vstd::multiset::group_multiset_axioms;
    if a.len() == 0 {
        assert(b.to_multiset() =~= a.to_multiset().add(b.to_multiset()));
    } else if b.len() == 0 {
        assert(a.to_multiset() =~= a.to_multiset().add(b.to_multiset()));
    } else if a[0].spec_le(b[0]) {
        lemma_merge_multiset(a.drop_first(), b);
        assert(a =~= seq![a[0]] + a.drop_first());
        assert(spec_merge(a, b) == seq![a[0]] + spec_merge(a.drop_first(), b));
        assert(spec_merge(a, b).to_multiset() =~= a.to_multiset().add(b.to_multiset()));
    } else {
        lemma_merge_multiset(a, b.drop_first());
        assert(b =~= seq![b[0]] + b.drop_first());
        assert(spec_merge(a, b) == seq![b[0]] + spec_merge(a, b.drop_first()));
        assert(spec_merge(a, b).to_multiset() =~= a.to_multiset().add(b.to_multiset()));
    }
}

/// Merge sort keeps every item as many times as the input holds it.
pub proof fn lemma_merge_sort_multiset<T: SortKey>(s: Seq<T>)
    ensures
        spec_merge_sort(s).to_multiset() == s.to_multiset(),
    decreases s.len(),
{
    broadcast use vstd::seq_lib::lemma_multiset_commutative;
    if s.len() > 1 {
        let middle = s.len() / 2;
        let left = s.take(middle as int);
        let right = s.skip(middle as int);
        lemma_merge_sort_multiset(left);
        lemma_merge_sort_multiset(right);
        lemma_merge_multiset(spec_merge_sort(left), spec_merge_sort(right));
        assert(s =~= left + right);
    }
}

/// Every item of the input is an item of the sorted output.
pub proof fn lemma_merge_sort_keeps<T: SortKey>(s: Seq<T>, i: int)
    requires
        0 <= i < s.len(),
    ensures
        spec_merge_sort(s).contains(s[i]),
{
    let sorted = spec_merge_sort(s);
    law_merge_sort_is_stable_sort(s);
    lemma_class_contains(s, i);
    assert(spec_class(sorted, s[i]) == spec_class(s, s[i]));
    lemma_class_members(sorted, s[i], s[i]);
}

fn copy_range<T: SortKey>(items: &Vec<T>, start: usize, end: usize) -> (part: Vec<T>)
    requires
        start <= end <= items@.len(),
    ensures
        part@ == items@.subrange(start as int, end as int),
{
    let mut part: Vec<T> = Vec::new();
    let mut index = start;
    while index < end
        invariant
            start <= index <= end <= items@.len(),
            part@ == items@.subrange(start as int, index as int),
        decreases end - index,
    {
        part.push(items[index]);
        assert(part@ =~= items@.subrange(start as int, index + 1));
        index = index + 1;
    }
    part
}

fn merge<T: SortKey>(a: &Vec<T>, b: &Vec<T>) -> (merged: Vec<T>)
    ensures
        merged@ == spec_merge(a@, b@),
{
    let mut merged: Vec<T> = Vec::new();
    let mut i: usize = 0;
    let mut j: usize = 0;
    proof {
        assert(a@.skip(0) =~= a@);
        assert(b@.skip(0) =~= b@);
        assert(merged@ + spec_merge(a@, b@) =~= spec_merge(a@, b@));
    }
    while i < a.len() || j < b.len()
        invariant
            i <= a@.len(),
            j <= b@.len(),
            merged@ + spec_merge(a@.skip(i as int), b@.skip(j as int)) == spec_merge(a@, b@),
        decreases a@.len() + b@.len() - i - j,
    {
        let ghost rest_a = a@.skip(i as int);
        let ghost rest_b = b@.skip(j as int);
        if i < a.len() && (j >= b.len() || a[i].le_key(&b[j])) {
            proof {
                assert(rest_a.drop_first() =~= a@.skip(i + 1));
                if rest_b.len() == 0 {
                    assert(spec_merge(rest_a, rest_b) == rest_a);
                    assert(spec_merge(a@.skip(i + 1), rest_b) == a@.skip(i + 1));
                }
                assert(merged@.push(a@[i as int]) + spec_merge(a@.skip(i + 1), rest_b) =~= merged@
                    + spec_merge(rest_a, rest_b));
            }
            merged.push(a[i]);
            i = i + 1;
        } else {
            proof {
                assert(rest_b.drop_first() =~= b@.skip(j + 1));
                if rest_a.len() == 0 {
                    assert(spec_merge(rest_a, rest_b) == rest_b);
                    assert(spec_merge(rest_a, b@.skip(j + 1)) == b@.skip(j + 1));
                }
                assert(merged@.push(b@[j as int]) + spec_merge(rest_a, b@.skip(j + 1)) =~= merged@
                    + spec_merge(rest_a, rest_b));
            }
            merged.push(b[j]);
            j = j + 1;
        }
    }
    proof {
        assert(a@.skip(i as int) =~= Seq::<T>::empty());
        assert(b@.skip(j as int) =~= Seq::<T>::empty());
        assert(merged@ =~= merged@ + spec_merge(a@.skip(i as int), b@.skip(j as int)));
    }
    merged
}

/// Stable sort of the items under their preorder.
pub fn merge_sort<T: SortKey>(items: &Vec<T>) -> (sorted: Vec<T>)
    ensures
        sorted@ == spec_merge_sort(items@),
    decreases items@.len(),
{
    let len = items.len();
    if len <= 1 {
        return copy_range(items, 0, len);
    }
    let middle = len / 2;
    let left = copy_range(items, 0, middle);
    let right = copy_range(items, middle, len);
    proof {
        assert(left@ =~= items@.take(middle as int));
        assert(right@ =~= items@.skip(middle as int));
    }
    let left_sorted = merge_sort(&left);
    let right_sorted = merge_sort(&right);
    merge(&left_sorted, &right_sorted)
}

} // verus!
