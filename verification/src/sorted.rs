//! Texts in ascending order: the order of `str` (by code point, which is the
//! order of their UTF-8 bytes), and a stable insertion sort.
use vstd::prelude::*;
use crate::text::to_chars;

verus! {

/// `a` comes before `b`: at the first position where they differ `a` has the
/// smaller character, or `a` is a proper prefix of `b`.
pub open spec fn text_less(a: Seq<char>, b: Seq<char>) -> bool
    decreases a.len(),
{
    if a.len() == 0 {
        b.len() > 0
    } else if b.len() == 0 {
        false
    } else if a[0] != b[0] {
        a[0] < b[0]
    } else {
        text_less(a.drop_first(), b.drop_first())
    }
}

/// `x` put into `s` after the last element that `x` does not come before.
pub open spec fn insert_by<T>(s: Seq<T>, x: T, less: spec_fn(T, T) -> bool) -> Seq<T>
    decreases s.len(),
{
    if s.len() == 0 {
        seq![x]
    } else if less(x, s.last()) {
        insert_by(s.drop_last(), x, less).push(s.last())
    } else {
        s.push(x)
    }
}

/// `s` sorted in the order `less`, elements that neither comes before
/// keeping their order (a stable insertion sort).
pub open spec fn sort_by<T>(s: Seq<T>, less: spec_fn(T, T) -> bool) -> Seq<T>
    decreases s.len(),
{
    if s.len() == 0 {
        s
    } else {
        insert_by(sort_by(s.drop_last(), less), s.last(), less)
    }
}

/// No element comes before an earlier one.
pub open spec fn ascending_by<T>(s: Seq<T>, less: spec_fn(T, T) -> bool) -> bool {
    forall|i: int, j: int| 0 <= i < j < s.len() ==> !less(#[trigger] s[j], #[trigger] s[i])
}

/// `less` orders its elements: nothing comes before what comes before it,
/// and "does not come before" is transitive.
pub open spec fn weak_order<T>(less: spec_fn(T, T) -> bool) -> bool {
    &&& forall|a: T, b: T| #[trigger] less(a, b) ==> !less(b, a)
    &&& forall|a: T, b: T, c: T|
        #![trigger less(a, b), less(b, c)]
        !less(a, b) && !less(b, c) ==> !less(a, c)
}

/// No text comes before a text that comes before it.
pub proof fn lemma_text_less_asymmetric(a: Seq<char>, b: Seq<char>)
    requires
        text_less(a, b),
    ensures
        !text_less(b, a),
    decreases a.len(),
{
    if a.len() > 0 && b.len() > 0 && a[0] == b[0] {
        lemma_text_less_asymmetric(a.drop_first(), b.drop_first());
    }
}

/// Coming before is transitive.
pub proof fn lemma_text_less_transitive(a: Seq<char>, b: Seq<char>, c: Seq<char>)
    requires
        text_less(a, b),
        text_less(b, c),
    ensures
        text_less(a, c),
    decreases a.len(),
{
    if a.len() > 0 && b.len() > 0 && c.len() > 0 && a[0] == b[0] && b[0] == c[0] {
        lemma_text_less_transitive(a.drop_first(), b.drop_first(), c.drop_first());
    }
}

/// Of two different texts, one comes before the other.
pub proof fn lemma_text_less_total(a: Seq<char>, b: Seq<char>)
    ensures
        text_less(a, b) || text_less(b, a) || a == b,
    decreases a.len(),
{
    if a.len() > 0 && b.len() > 0 && a[0] == b[0] {
        lemma_text_less_total(a.drop_first(), b.drop_first());
        if a.drop_first() == b.drop_first() {
            assert(a == seq![a[0]] + a.drop_first());
            assert(b == seq![b[0]] + b.drop_first());
        }
    } else if a.len() == 0 && b.len() == 0 {
        assert(a =~= b);
    }
}

/// What `insert_by` gives holds `x` and the elements of `s`, and nothing
/// else.
pub proof fn lemma_insert_by_multiset<T>(s: Seq<T>, x: T, less: spec_fn(T, T) -> bool)
    ensures
        insert_by(s, x, less).to_multiset() =~= s.to_multiset().insert(x),
    decreases s.len(),
{
    broadcast use vstd::seq_lib::to_multiset_build;
    broadcast use vstd::multiset::group_multiset_axioms;

    if s.len() == 0 {
        assert(insert_by(s, x, less) == s.push(x));
    } else {
        assert(s == s.drop_last().push(s.last()));
        if less(x, s.last()) {
            lemma_insert_by_multiset(s.drop_last(), x, less);
        }
    }
}

proof fn lemma_insert_by_elements<T>(s: Seq<T>, x: T, less: spec_fn(T, T) -> bool)
    ensures
        insert_by(s, x, less).len() == s.len() + 1,
        forall|i: int|
            0 <= i < s.len() + 1 ==> #[trigger] insert_by(s, x, less)[i] == x || s.contains(
                insert_by(s, x, less)[i],
            ),
    decreases s.len(),
{
    if s.len() > 0 && less(x, s.last()) {
        lemma_insert_by_elements(s.drop_last(), x, less);
        let r = insert_by(s, x, less);
        assert forall|i: int| 0 <= i < s.len() + 1 implies #[trigger] r[i] == x || s.contains(r[i]) by {
            if i < s.len() {
                let r0 = insert_by(s.drop_last(), x, less);
                assert(r[i] == r0[i]);
                if r0[i] != x {
                    let j = choose|j: int| 0 <= j < s.drop_last().len() && s.drop_last()[j] == r0[i];
                    assert(s[j] == r[i]);
                }
            } else {
                assert(r[i] == s[s.len() - 1]);
            }
        }
    } else if s.len() > 0 {
        let r = insert_by(s, x, less);
        assert forall|i: int| 0 <= i < s.len() + 1 implies #[trigger] r[i] == x || s.contains(r[i]) by {
            if i < s.len() {
                assert(r[i] == s[i]);
            }
        }
    }
}

/// Putting an element into a sequence in ascending order keeps it so.
pub proof fn lemma_insert_by_ascending<T>(s: Seq<T>, x: T, less: spec_fn(T, T) -> bool)
    requires
        weak_order(less),
        ascending_by(s, less),
    ensures
        ascending_by(insert_by(s, x, less), less),
    decreases s.len(),
{
    let r = insert_by(s, x, less);
    if s.len() == 0 {
    } else if less(x, s.last()) {
        let s0 = s.drop_last();
        lemma_insert_by_ascending(s0, x, less);
        lemma_insert_by_elements(s0, x, less);
        let r0 = insert_by(s0, x, less);
        assert forall|i: int, j: int| 0 <= i < j < r.len() implies !less(#[trigger] r[j], #[trigger] r[i]) by {
            if j < r.len() - 1 {
                assert(r[i] == r0[i] && r[j] == r0[j]);
            } else {
                assert(r[j] == s.last());
                assert(r[i] == r0[i]);
                if r0[i] != x {
                    let k = choose|k: int| 0 <= k < s0.len() && s0[k] == r0[i];
                    assert(s[k] == r0[i]);
                    assert(!less(s[s.len() - 1], s[k]));
                }
            }
        }
    } else {
        assert forall|i: int, j: int| 0 <= i < j < r.len() implies !less(#[trigger] r[j], #[trigger] r[i]) by {
            if j == r.len() - 1 {
                assert(r[j] == x);
                assert(r[i] == s[i]);
                assert(!less(s[s.len() - 1], s[i]));
            } else {
                assert(r[i] == s[i] && r[j] == s[j]);
            }
        }
    }
}

/// `sort_by` gives the same elements, each as often, in ascending order.
pub proof fn lemma_sort_by<T>(s: Seq<T>, less: spec_fn(T, T) -> bool)
    requires
        weak_order(less),
    ensures
        ascending_by(sort_by(s, less), less),
        sort_by(s, less).to_multiset() =~= s.to_multiset(),
    decreases s.len(),
{
    broadcast use vstd::seq_lib::to_multiset_build;

    if s.len() > 0 {
        lemma_sort_by(s.drop_last(), less);
        lemma_insert_by_ascending(sort_by(s.drop_last(), less), s.last(), less);
        lemma_insert_by_multiset(sort_by(s.drop_last(), less), s.last(), less);
        assert(s == s.drop_last().push(s.last()));
    }
}

/// Whether `a` comes before `b`.
pub fn is_text_less(a: &str, b: &str) -> (r: bool)
    ensures
        r == text_less(a@, b@),
{
    let x = to_chars(a);
    let y = to_chars(b);
    let mut i: usize = 0;
    assert(x@.skip(0) == x@);
    assert(y@.skip(0) == y@);
    while i < x.len() && i < y.len() && x[i] == y[i]
        invariant
            i <= x@.len(),
            i <= y@.len(),
            x@.take(i as int) == y@.take(i as int),
            text_less(x@, y@) == text_less(x@.skip(i as int), y@.skip(i as int)),
        decreases x.len() - i,
    {
        proof {
            let xs = x@.skip(i as int);
            let ys = y@.skip(i as int);
            assert(xs.drop_first() == x@.skip(i + 1));
            assert(ys.drop_first() == y@.skip(i + 1));
            assert(x@.take(i + 1) == x@.take(i as int).push(x@[i as int]));
            assert(y@.take(i + 1) == y@.take(i as int).push(y@[i as int]));
        }
        i = i + 1;
    }
    if i == x.len() {
        i < y.len()
    } else if i == y.len() {
        false
    } else {
        x[i] < y[i]
    }
}

} // verus!
