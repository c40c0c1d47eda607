//! A stable sort: items in order, and items that rank the same in the order
//! in which they came.

use vstd::prelude::*;

verus! {

/// Items that can be put in order.
pub trait Ranked: Sized {
    /// Whether this item may stand before the other one.
    spec fn leq(&self, other: &Self) -> bool;

    proof fn leq_total(a: &Self, b: &Self)
        ensures
            a.leq(b) || b.leq(a),
    ;

    proof fn leq_transitive(a: &Self, b: &Self, c: &Self)
        requires
            a.leq(b),
            b.leq(c),
        ensures
            a.leq(c),
    ;

    fn may_precede(&self, other: &Self) -> (r: bool)
        ensures
            r == self.leq(other),
    ;
}

/// Whether two items rank the same.
pub open spec fn same_rank<T: Ranked>(a: T, b: T) -> bool {
    a.leq(&b) && b.leq(&a)
}

/// Whether the items stand in order.
pub open spec fn in_order<T: Ranked>(s: Seq<T>) -> bool {
    forall|i: int, j: int| #![trigger s[i], s[j]] 0 <= i <= j < s.len() ==> s[i].leq(&s[j])
}

/// The items that rank as `x` does, in the order in which they stand.
pub open spec fn rank_class<T: Ranked>(s: Seq<T>, x: T) -> Seq<T> {
    s.filter(|y: T| same_rank(x, y))
}

/// Puts `x` behind everything that may stand before it.
pub open spec fn insert_ranked<T: Ranked>(s: Seq<T>, x: T) -> Seq<T>
    decreases s.len(),
{
    if s.len() == 0 || s.last().leq(&x) {
        s.push(x)
    } else {
        insert_ranked(s.drop_last(), x).push(s.last())
    }
}

/// The items in order; those that rank the same keep their order.
pub open spec fn stable_sorted<T: Ranked>(s: Seq<T>) -> Seq<T>
    decreases s.len(),
{
    if s.len() == 0 {
        s
    } else {
        insert_ranked(stable_sorted(s.drop_last()), s.last())
    }
}

proof fn lemma_class_push<T: Ranked>(s: Seq<T>, e: T, x: T)
    ensures
        rank_class(s.push(e), x) == (if same_rank(x, e) {
            rank_class(s, x).push(e)
        } else {
            rank_class(s, x)
        }),
{
    s.lemma_filter_push(e, |y: T| same_rank(x, y));
}

proof fn lemma_class_drop_last<T: Ranked>(s: Seq<T>, x: T)
    requires
        s.len() > 0,
    ensures
        rank_class(s, x) == (if same_rank(x, s.last()) {
            rank_class(s.drop_last(), x).push(s.last())
        } else {
            rank_class(s.drop_last(), x)
        }),
{
    assert(s.drop_last().push(s.last()) =~= s);
    lemma_class_push(s.drop_last(), s.last(), x);
}

/// Nothing in `s` ranks as `x` if `x` may not follow anything in it.
proof fn lemma_class_empty<T: Ranked>(s: Seq<T>, x: T)
    requires
        forall|i: int| 0 <= i < s.len() ==> !same_rank(x, #[trigger] s[i]),
    ensures
        rank_class(s, x) == Seq::<T>::empty(),
    decreases s.len(),
{
    if s.len() > 0 {
        lemma_class_drop_last(s, x);
        assert forall|i: int| 0 <= i < s.drop_last().len() implies !same_rank(
            x,
            #[trigger] s.drop_last()[i],
        ) by {
            assert(s.drop_last()[i] == s[i]);
        }
        assert(!same_rank(x, s[s.len() - 1]));
        lemma_class_empty(s.drop_last(), x);
    } else {
        reveal(Seq::filter);
        assert(s =~= Seq::<T>::empty());
    }
}

proof fn lemma_insert<T: Ranked>(s: Seq<T>, x: T)
    requires
        in_order(s),
    ensures
        in_order(insert_ranked(s, x)),
        insert_ranked(s, x).len() == s.len() + 1,
        forall|c: T| #[trigger] rank_class(insert_ranked(s, x), c) == rank_class(s.push(x), c),
        forall|i: int|
            0 <= i < insert_ranked(s, x).len() ==> #[trigger] insert_ranked(s, x)[i] == x
                || s.contains(insert_ranked(s, x)[i]),
    decreases s.len(),
{
    let r = insert_ranked(s, x);
    if s.len() == 0 || s.last().leq(&x) {
        assert forall|i: int, j: int| #![trigger r[i], r[j]] 0 <= i <= j < r.len() implies r[i].leq(&r[j]) by {
            if j == s.len() {
                T::leq_total(&x, &x);
                if i < j {
                    assert(s[i].leq(&s[s.len() - 1]));
                    T::leq_transitive(&s[i], &s.last(), &x);
                }
            }
        }
    } else {
        let z = s.last();
        let init = s.drop_last();
        let q = insert_ranked(init, x);
        T::leq_total(&z, &x);
        assert forall|i: int, j: int| #![trigger init[i], init[j]] 0 <= i <= j < init.len() implies init[i].leq(&init[j]) by {
            assert(s[i].leq(&s[j]));
        }
        lemma_insert(init, x);
        assert forall|i: int| 0 <= i < q.len() implies (#[trigger] q[i]).leq(&z) by {
            if q[i] != x {
                let k = choose|k: int| 0 <= k < init.len() && init[k] == q[i];
                assert(s[k].leq(&s[s.len() - 1]));
            }
        }
        T::leq_total(&z, &z);
        assert forall|i: int, j: int| #![trigger r[i], r[j]] 0 <= i <= j < r.len() implies r[i].leq(&r[j]) by {
            if j < q.len() {
                assert(q[i].leq(&q[j]));
            } else if i < q.len() {
                assert(q[i].leq(&z));
            }
        }
        assert forall|c: T| #[trigger] rank_class(r, c) == rank_class(s.push(x), c) by {
            lemma_class_push(q, z, c);
            assert(rank_class(q, c) == rank_class(init.push(x), c));
            lemma_class_push(init, x, c);
            lemma_class_push(s, x, c);
            lemma_class_drop_last(s, c);
            if same_rank(c, z) && same_rank(c, x) {
                T::leq_transitive(&z, &c, &x);
            }
        }
        assert forall|i: int| 0 <= i < r.len() implies #[trigger] r[i] == x || s.contains(r[i]) by {
            if i < q.len() {
                assert(q[i] == r[i]);
                if q[i] != x {
                    let k = choose|k: int| 0 <= k < init.len() && init[k] == q[i];
                    assert(s[k] == r[i]);
                }
            } else {
                assert(s[s.len() - 1] == r[i]);
            }
        }
    }
}

/// The sorted items stand in order, and the items of each rank are those that
/// were there, in the order in which they came.
pub proof fn law_stable_sorted<T: Ranked>(s: Seq<T>)
    ensures
        in_order(stable_sorted(s)),
        stable_sorted(s).len() == s.len(),
        forall|c: T| #[trigger] rank_class(stable_sorted(s), c) == rank_class(s, c),
    decreases s.len(),
{
    if s.len() > 0 {
        let init = s.drop_last();
        law_stable_sorted(init);
        lemma_insert(stable_sorted(init), s.last());
        assert forall|c: T| #[trigger] rank_class(stable_sorted(s), c) == rank_class(s, c) by {
            assert(rank_class(stable_sorted(init), c) == rank_class(init, c));
            lemma_class_push(stable_sorted(init), s.last(), c);
            lemma_class_drop_last(s, c);
        }
    }
}

/// There is one way only to sort stably: items in order, with the items of
/// each rank in the order in which they came, are the sorted items.
pub proof fn law_stable_order_unique<T: Ranked>(s: Seq<T>, t: Seq<T>)
    requires
        in_order(s),
        in_order(t),
        forall|c: T| #[trigger] rank_class(s, c) == rank_class(t, c),
    ensures
        s == t,
    decreases s.len(),
{
    if s.len() == 0 {
        if t.len() > 0 {
            let y = t.last();
            T::leq_total(&y, &y);
            lemma_class_drop_last(t, y);
            lemma_class_empty(s, y);
            assert(rank_class(s, y) == rank_class(t, y));
            assert(false);
        }
        assert(s =~= t);
    } else {
        let x = s.last();
        T::leq_total(&x, &x);
        lemma_class_drop_last(s, x);
        assert(rank_class(s, x) == rank_class(t, x));
        assert(rank_class(t, x).len() > 0);
        if t.len() == 0 {
            lemma_class_empty(t, x);
            assert(false);
        }
        let y = t.last();
        T::leq_total(&y, &y);
        lemma_class_drop_last(t, y);
        assert(rank_class(s, y) == rank_class(t, y));
        lemma_last_bounds_class(t, x);
        lemma_last_bounds_class(s, y);
        lemma_class_drop_last(t, x);
        assert(rank_class(s, x).last() == x);
        assert(rank_class(t, x).last() == y);
        let si = s.drop_last();
        let ti = t.drop_last();
        assert forall|i: int, j: int| #![trigger si[i], si[j]] 0 <= i <= j < si.len() implies si[i].leq(&si[j]) by {
            assert(s[i].leq(&s[j]));
        }
        assert forall|i: int, j: int| #![trigger ti[i], ti[j]] 0 <= i <= j < ti.len() implies ti[i].leq(&ti[j]) by {
            assert(t[i].leq(&t[j]));
        }
        assert forall|c: T| #[trigger] rank_class(si, c) == rank_class(ti, c) by {
            assert(rank_class(s, c) == rank_class(t, c));
            lemma_class_drop_last(s, c);
            lemma_class_drop_last(t, c);
            if same_rank(c, x) {
                assert(rank_class(s, c).drop_last() =~= rank_class(si, c));
                assert(rank_class(t, c).drop_last() =~= rank_class(ti, c));
            }
        }
        law_stable_order_unique(si, ti);
        assert(si.push(x) =~= s);
        assert(ti.push(y) =~= t);
    }
}

proof fn lemma_insert_multiset<T: Ranked>(s: Seq<T>, x: T)
    ensures
        insert_ranked(s, x).to_multiset() == s.to_multiset().insert(x),
    decreases s.len(),
{
    broadcast use vstd::seq_lib::to_multiset_build;

    if !(s.len() == 0 || s.last().leq(&x)) {
        lemma_insert_multiset(s.drop_last(), x);
        assert(s.drop_last().push(s.last()) =~= s);
        assert(insert_ranked(s, x).to_multiset() =~= s.to_multiset().insert(x));
    }
}

/// Sorting neither adds nor drops an item.
pub proof fn law_sort_permutes<T: Ranked>(s: Seq<T>)
    ensures
        stable_sorted(s).to_multiset() == s.to_multiset(),
    decreases s.len(),
{
    broadcast use vstd::seq_lib::to_multiset_build;

    if s.len() > 0 {
        law_sort_permutes(s.drop_last());
        lemma_insert_multiset(stable_sorted(s.drop_last()), s.last());
        assert(s.drop_last().push(s.last()) =~= s);
    }
}

/// An item that ranks as something in `t` may stand before the last of `t`.
proof fn lemma_last_bounds_class<T: Ranked>(t: Seq<T>, x: T)
    requires
        in_order(t),
        rank_class(t, x).len() > 0,
    ensures
        t.len() > 0,
        x.leq(&t.last()),
{
    if t.len() == 0 {
        lemma_class_empty(t, x);
    }
    if !(exists|i: int| 0 <= i < t.len() && same_rank(x, #[trigger] t[i])) {
        lemma_class_empty(t, x);
    }
    let i = choose|i: int| 0 <= i < t.len() && same_rank(x, #[trigger] t[i]);
    assert(t[i].leq(&t[t.len() - 1]));
    T::leq_transitive(&x, &t[i], &t.last());
}

/// Merges two runs that are in order; where items rank the same, those of `a`
/// come first.
fn merge<T: Ranked>(a: Vec<T>, b: Vec<T>) -> (r: Vec<T>)
    requires
        in_order(a@),
        in_order(b@),
    ensures
        in_order(r@),
        forall|c: T| #[trigger] rank_class(r@, c) == rank_class(a@, c) + rank_class(b@, c),
{
    let ghost a0 = a@;
    let ghost b0 = b@;
    let mut a = a;
    let mut b = b;
    let mut rev: Vec<T> = Vec::new();
    let ghost mut tail = Seq::<T>::empty();
    proof {
        assert(rev@ =~= tail.reverse());
        assert forall|c: T|
            #[trigger] rank_class(a0, c) + rank_class(b0, c) == rank_class(a@, c) + rank_class(b@, c)
                + rank_class(tail, c) by {
            lemma_class_empty(tail, c);
            assert(rank_class(a@, c) + rank_class(b@, c) + Seq::<T>::empty() =~= rank_class(a@, c)
                + rank_class(b@, c));
        }
    }
    while a.len() > 0 || b.len() > 0
        invariant
            rev@ == tail.reverse(),
            in_order(a@),
            in_order(b@),
            in_order(tail),
            forall|i: int, j: int| #![trigger a@[i], tail[j]]
                0 <= i < a@.len() && 0 <= j < tail.len() ==> a@[i].leq(&tail[j]),
            forall|i: int, j: int| #![trigger b@[i], tail[j]]
                0 <= i < b@.len() && 0 <= j < tail.len() ==> b@[i].leq(&tail[j]),
            forall|c: T|
                #[trigger] rank_class(a0, c) + rank_class(b0, c) == rank_class(a@, c) + rank_class(
                    b@,
                    c,
                ) + rank_class(tail, c),
        decreases a.len() + b.len(),
    {
        let from_b = if b.len() == 0 {
            false
        } else if a.len() == 0 {
            true
        } else {
            a[a.len() - 1].may_precede(&b[b.len() - 1])
        };
        let ghost a1 = a@;
        let ghost b1 = b@;
        let ghost tail1 = tail;
        let x = if from_b {
            b.pop().unwrap()
        } else {
            a.pop().unwrap()
        };
        proof {
            tail = seq![x] + tail1;
            if from_b {
                assert(b1.last() == x);
            } else {
                assert(a1.last() == x);
                if b1.len() > 0 {
                    T::leq_total(&x, &b1.last());
                }
            }
            T::leq_total(&x, &x);
            assert forall|i: int| 0 <= i < a@.len() implies (#[trigger] a@[i]).leq(&x) by {
                assert(a@[i] == a1[i]);
                if from_b {
                    assert(a1[i].leq(&a1[a1.len() - 1]));
                    T::leq_transitive(&a1[i], &a1.last(), &x);
                } else {
                    assert(a1[i].leq(&a1[a1.len() - 1]));
                }
            }
            assert forall|i: int| 0 <= i < b@.len() implies (#[trigger] b@[i]).leq(&x) by {
                assert(b@[i] == b1[i]);
                assert(b1[i].leq(&b1[b1.len() - 1]));
                if !from_b {
                    T::leq_transitive(&b1[i], &b1.last(), &x);
                }
            }
            assert forall|j: int| 0 <= j < tail1.len() implies x.leq(&(#[trigger] tail1[j])) by {
                if from_b {
                    assert(b1[b1.len() - 1].leq(&tail1[j]));
                } else {
                    assert(a1[a1.len() - 1].leq(&tail1[j]));
                }
            }
            assert forall|i: int, j: int| #![trigger tail[i], tail[j]] 0 <= i <= j < tail.len() implies tail[i].leq(&tail[j]) by {
                if i == 0 {
                    if j > 0 {
                        assert(tail[j] == tail1[j - 1]);
                    }
                } else {
                    assert(tail1[i - 1].leq(&tail1[j - 1]));
                }
            }
            assert forall|i: int, j: int| #![trigger a@[i], tail[j]] 0 <= i < a@.len() && 0 <= j < tail.len() implies a@[i].leq(&tail[j]) by {
                if j > 0 {
                    assert(a1[i].leq(&tail1[j - 1]));
                }
            }
            assert forall|i: int, j: int| #![trigger b@[i], tail[j]] 0 <= i < b@.len() && 0 <= j < tail.len() implies b@[i].leq(&tail[j]) by {
                if j > 0 {
                    assert(b1[i].leq(&tail1[j - 1]));
                }
            }
            assert forall|c: T|
                #[trigger] rank_class(a0, c) + rank_class(b0, c) == rank_class(a@, c) + rank_class(
                    b@,
                    c,
                ) + rank_class(tail, c) by {
                let p = |y: T| same_rank(c, y);
                Seq::filter_distributes_over_add(seq![x], tail1, p);
                assert(Seq::<T>::empty().push(x) =~= seq![x]);
                lemma_class_push(Seq::<T>::empty(), x, c);
                lemma_class_empty(Seq::<T>::empty(), c);
                if from_b {
                    assert(b@ =~= b1.drop_last());
                    lemma_class_drop_last(b1, c);
                } else {
                    assert(a@ =~= a1.drop_last());
                    lemma_class_drop_last(a1, c);
                    if same_rank(c, x) {
                        assert forall|i: int| 0 <= i < b1.len() implies !same_rank(
                            c,
                            #[trigger] b1[i],
                        ) by {
                            if same_rank(c, b1[i]) {
                                assert(b1[i].leq(&b1[b1.len() - 1]));
                                T::leq_transitive(&x, &c, &b1[i]);
                                T::leq_transitive(&x, &b1[i], &b1.last());
                            }
                        }
                        lemma_class_empty(b1, c);
                    }
                }
                assert(rank_class(a@, c) + rank_class(b@, c) + rank_class(tail, c) =~= rank_class(
                    a1,
                    c,
                ) + rank_class(b1, c) + rank_class(tail1, c));
            }
        }
        rev.push(x);
        proof {
            assert(rev@ =~= tail.reverse());
        }
    }
    let mut out: Vec<T> = Vec::new();
    proof {
        assert(tail.take(0) =~= Seq::<T>::empty());
    }
    while rev.len() > 0
        invariant
            rev@.len() <= tail.len(),
            rev@ == tail.reverse().take(rev@.len() as int),
            out@ == tail.take(tail.len() - rev@.len()),
        decreases rev.len(),
    {
        let ghost r1 = rev@;
        let x = rev.pop().unwrap();
        proof {
            let k = tail.len() - r1.len();
            assert(x == tail[k]);
            assert(tail.take(k + 1) =~= tail.take(k).push(tail[k]));
        }
        out.push(x);
    }
    proof {
        assert(tail.take(tail.len() as int) =~= tail);
        assert forall|c: T| #[trigger] rank_class(out@, c) == rank_class(a0, c) + rank_class(b0, c) by {
            assert(a@ =~= Seq::<T>::empty());
            assert(b@ =~= Seq::<T>::empty());
            lemma_class_empty(a@, c);
            lemma_class_empty(b@, c);
            assert(rank_class(a@, c) + rank_class(b@, c) + rank_class(tail, c) =~= rank_class(
                tail,
                c,
            ));
        }
    }
    out
}

/// Sorts the items; those that rank the same keep their order.
pub fn stable_sort<T: Ranked>(v: Vec<T>) -> (r: Vec<T>)
    ensures
        r@ == stable_sorted(v@),
    decreases v@.len(),
{
    let ghost all = v@;
    if v.len() <= 1 {
        proof {
            if v.len() == 1 {
                assert(all.drop_last() =~= Seq::<T>::empty());
                assert(stable_sorted(all.drop_last()) == all.drop_last());
                assert(insert_ranked(all.drop_last(), all.last()) == all.drop_last().push(all.last()));
                assert(all.drop_last().push(all.last()) =~= all);
            }
        }
        return v;
    }
    let mut a = v;
    let mid: usize = a.len() / 2;
    let b = a.split_off(mid);
    let ghost a0 = a@;
    let ghost b0 = b@;
    let sa = stable_sort(a);
    let sb = stable_sort(b);
    proof {
        law_stable_sorted(a0);
        law_stable_sorted(b0);
        law_stable_sorted(all);
        assert(a0 + b0 =~= all);
    }
    let ghost sa0 = sa@;
    let ghost sb0 = sb@;
    let r = merge(sa, sb);
    proof {
        assert forall|c: T| #[trigger] rank_class(r@, c) == rank_class(stable_sorted(all), c) by {
            assert(rank_class(sa0, c) == rank_class(a0, c));
            assert(rank_class(sb0, c) == rank_class(b0, c));
            assert(rank_class(stable_sorted(all), c) == rank_class(all, c));
            Seq::filter_distributes_over_add(a0, b0, |y: T| same_rank(c, y));
        }
        law_stable_order_unique(r@, stable_sorted(all));
    }
    r
}

} // verus!
