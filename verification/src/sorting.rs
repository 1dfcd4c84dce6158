//! Merge sort over totally ordered values, and facts about sorted sequences.

use vstd::prelude::*;

verus! {

/// Values with a total order whose equality is that of the values themselves.
pub trait Ranked: Copy {
    /// The order: `self` does not come after `other`.
    spec fn not_after(self, other: Self) -> bool;

    /// The order is total, antisymmetric and transitive.
    proof fn order_is_total()
        ensures
            forall|a: Self, b: Self| #[trigger] a.not_after(b) || b.not_after(a),
            forall|a: Self, b: Self| #[trigger] a.not_after(b) && b.not_after(a) ==> a == b,
            forall|a: Self, b: Self, c: Self| #[trigger] a.not_after(b) && #[trigger] b.not_after(c) ==> a.not_after(c),
    ;

    /// Decides the order.
    fn is_not_after(&self, other: &Self) -> (b: bool)
        ensures
            b == self.not_after(*other),
    ;
}

impl Ranked for u64 {
    open spec fn not_after(self, other: Self) -> bool {
        self <= other
    }

    proof fn order_is_total() {
    }

    fn is_not_after(&self, other: &Self) -> (b: bool) {
        *self <= *other
    }
}

impl Ranked for u32 {
    open spec fn not_after(self, other: Self) -> bool {
        self <= other
    }

    proof fn order_is_total() {
    }

    fn is_not_after(&self, other: &Self) -> (b: bool) {
        *self <= *other
    }
}

impl Ranked for i64 {
    open spec fn not_after(self, other: Self) -> bool {
        self <= other
    }

    proof fn order_is_total() {
    }

    fn is_not_after(&self, other: &Self) -> (b: bool) {
        *self <= *other
    }
}

/// Every element comes before, or ranks with, those that follow it.
pub open spec fn sorted<T: Ranked>(s: Seq<T>) -> bool {
    forall|i: int, j: int| 0 <= i < j < s.len() ==> (#[trigger] s[i]).not_after(#[trigger] s[j])
}

/// `s` with `x` added at its place.
pub open spec fn place<T: Ranked>(s: Seq<T>, x: T) -> Seq<T>
    decreases s.len(),
{
    if s.len() == 0 {
        seq![x]
    } else if s.last().not_after(x) {
        s.push(x)
    } else {
        place(s.drop_last(), x).push(s.last())
    }
}

/// The elements of `s` in ascending order.
pub open spec fn ranked<T: Ranked>(s: Seq<T>) -> Seq<T>
    decreases s.len(),
{
    if s.len() == 0 {
        Seq::empty()
    } else {
        place(ranked(s.drop_last()), s.last())
    }
}

/// Placing an element keeps a sequence sorted, and adds nothing else.
pub proof fn lemma_place<T: Ranked>(s: Seq<T>, x: T)
    requires
        sorted(s),
    ensures
        sorted(place(s, x)),
        place(s, x).to_multiset() == s.to_multiset().insert(x),
        place(s, x).len() == s.len() + 1,
    decreases s.len(),
{
    T::order_is_total();
    let r = place(s, x);
    vstd::seq_lib::to_multiset_build(s, x);
    if s.len() == 0 {
        assert(r =~= s.push(x));
    } else if s.last().not_after(x) {
        assert forall|i: int, j: int| 0 <= i < j < r.len() implies (#[trigger] r[i]).not_after(
            #[trigger] r[j],
        ) by {
            if j == s.len() && i < s.len() - 1 {
                assert(s[i].not_after(s[s.len() - 1]));
            }
        }
    } else {
        let front = s.drop_last();
        let last = s.last();
        lemma_place(front, x);
        let inner = place(front, x);
        assert forall|k: int| 0 <= k < inner.len() implies (#[trigger] inner[k]).not_after(
            last,
        ) by {
            broadcast use vstd::seq_lib::group_to_multiset_ensures;

            assert(inner.contains(inner[k]));
            assert(inner.to_multiset().count(inner[k]) > 0);
            if inner[k] != x {
                assert(front.to_multiset().count(inner[k]) > 0);
                assert(front.contains(inner[k]));
                let l = choose|l: int| 0 <= l < front.len() && front[l] == inner[k];
                assert(s[l].not_after(s[s.len() - 1]));
            }
        }
        vstd::seq_lib::to_multiset_build(inner, last);
        vstd::seq_lib::to_multiset_build(front, last);
        assert(s =~= front.push(last));
        assert(r.to_multiset() =~= s.to_multiset().insert(x));
    }
}

/// `ranked` holds the elements of the sequence, sorted.
pub proof fn lemma_ranked<T: Ranked>(s: Seq<T>)
    ensures
        sorted(ranked(s)),
        ranked(s).to_multiset() == s.to_multiset(),
        ranked(s).len() == s.len(),
    decreases s.len(),
{
    if s.len() == 0 {
        assert(ranked(s) =~= s);
    } else {
        let front = s.drop_last();
        lemma_ranked(front);
        lemma_place(ranked(front), s.last());
        vstd::seq_lib::to_multiset_build(front, s.last());
        assert(s =~= front.push(s.last()));
    }
}

/// Two sorted sequences with the same elements are equal.
pub proof fn lemma_sorted_same<T: Ranked>(a: Seq<T>, b: Seq<T>)
    requires
        sorted(a),
        sorted(b),
        a.to_multiset() == b.to_multiset(),
    ensures
        a == b,
    decreases a.len(),
{
    T::order_is_total();
    lemma_same_elements(a, b);
    if a.len() == 0 {
        assert(a =~= b);
    } else {
        assert(a.contains(a.last()));
        assert(b.contains(a.last()));
        let k = choose|k: int| 0 <= k < b.len() && b[k] == a.last();
        assert(b.contains(b.last()));
        assert(a.contains(b.last()));
        let l = choose|l: int| 0 <= l < a.len() && a[l] == b.last();
        assert(a.last() == b.last()) by {
            if k < b.len() - 1 {
                assert(b[k].not_after(b[b.len() - 1]));
            }
            if l < a.len() - 1 {
                assert(a[l].not_after(a[a.len() - 1]));
            }
        }
        let c = a.drop_last();
        let d = b.drop_last();
        let x = a.last();
        assert(a =~= c.push(x));
        assert(b =~= d.push(x));
        vstd::seq_lib::to_multiset_build(c, x);
        vstd::seq_lib::to_multiset_build(d, x);
        assert(c.to_multiset() =~= c.to_multiset().insert(x).remove(x));
        assert(d.to_multiset() =~= d.to_multiset().insert(x).remove(x));
        lemma_sorted_same(c, d);
    }
}

/// Sorts `v`: the result holds the same elements, in order.
pub fn merge_sort<T: Ranked>(v: &Vec<T>) -> (r: Vec<T>)
    ensures
        r@ == ranked(v@),
        sorted(r@),
        r@.to_multiset() == v@.to_multiset(),
{
    let r = sort_range(v, 0, v.len());
    assert(v@.subrange(0, v.len() as int) =~= v@);
    proof {
        lemma_ranked(v@);
        lemma_sorted_same(r@, ranked(v@));
    }
    r
}

fn sort_range<T: Ranked>(v: &Vec<T>, from: usize, to: usize) -> (r: Vec<T>)
    requires
        from <= to <= v.len(),
    ensures
        sorted(r@),
        r@.to_multiset() == v@.subrange(from as int, to as int).to_multiset(),
    decreases to - from,
{
    if to - from == 0 {
        let r: Vec<T> = Vec::new();
        assert(r@ =~= v@.subrange(from as int, to as int));
        return r;
    }
    if to - from == 1 {
        let mut r: Vec<T> = Vec::new();
        r.push(v[from]);
        assert(r@ =~= v@.subrange(from as int, to as int));
        return r;
    }
    let mid: usize = from + (to - from) / 2;
    let a = sort_range(v, from, mid);
    let b = sort_range(v, mid, to);
    proof {
        let left = v@.subrange(from as int, mid as int);
        let right = v@.subrange(mid as int, to as int);
        assert(left + right =~= v@.subrange(from as int, to as int));
        vstd::seq_lib::lemma_multiset_commutative(left, right);
    }
    merge(&a, &b)
}

fn merge<T: Ranked>(a: &Vec<T>, b: &Vec<T>) -> (r: Vec<T>)
    requires
        sorted(a@),
        sorted(b@),
    ensures
        sorted(r@),
        r@.to_multiset() == a@.to_multiset().add(b@.to_multiset()),
{
    let mut r: Vec<T> = Vec::new();
    let mut i: usize = 0;
    let mut j: usize = 0;
    proof {
        T::order_is_total();
        assert(a@.take(0) =~= Seq::<T>::empty());
        assert(b@.take(0) =~= Seq::<T>::empty());
        broadcast use vstd::seq_lib::group_to_multiset_ensures;
        assert(r@.to_multiset() =~= a@.take(0).to_multiset().add(b@.take(0).to_multiset()));
    }
    while i < a.len() || j < b.len()
        invariant
            sorted(a@),
            sorted(b@),
            i <= a.len(),
            j <= b.len(),
            sorted(r@),
            r@.to_multiset() == a@.take(i as int).to_multiset().add(
                b@.take(j as int).to_multiset(),
            ),
            forall|k: int, l: int|
                0 <= k < r.len() && i <= l < a.len() ==> (#[trigger] r@[k]).not_after(#[trigger] a@[l]),
            forall|k: int, l: int|
                0 <= k < r.len() && j <= l < b.len() ==> (#[trigger] r@[k]).not_after(#[trigger] b@[l]),
        decreases a.len() - i + b.len() - j,
    {
        proof {
            T::order_is_total();
        }
        if j == b.len() || (i < a.len() && a[i].is_not_after(&b[j])) {
            proof {
                lemma_take_one_more(a@, i as int);
                vstd::seq_lib::to_multiset_build(r@, a@[i as int]);
                assert(r@.push(a@[i as int]).to_multiset() =~= a@.take(
                    i + 1,
                ).to_multiset().add(b@.take(j as int).to_multiset()));
            }
            r.push(a[i]);
            i = i + 1;
        } else {
            proof {
                lemma_take_one_more(b@, j as int);
                vstd::seq_lib::to_multiset_build(r@, b@[j as int]);
                assert(r@.push(b@[j as int]).to_multiset() =~= a@.take(
                    i as int,
                ).to_multiset().add(b@.take(j + 1).to_multiset()));
            }
            r.push(b[j]);
            j = j + 1;
        }
    }
    proof {
        assert(a@.take(i as int) =~= a@);
        assert(b@.take(j as int) =~= b@);
    }
    r
}

proof fn lemma_take_one_more<T>(s: Seq<T>, i: int)
    requires
        0 <= i < s.len(),
    ensures
        s.take(i + 1).to_multiset() == s.take(i).to_multiset().insert(s[i]),
{
    assert(s.take(i + 1) =~= s.take(i).push(s[i]));
    vstd::seq_lib::to_multiset_build(s.take(i), s[i]);
}

/// Sequences with the same elements contain the same values.
pub proof fn lemma_same_elements<T>(a: Seq<T>, b: Seq<T>)
    requires
        a.to_multiset() == b.to_multiset(),
    ensures
        a.len() == b.len(),
        forall|x: T| a.contains(x) <==> b.contains(x),
        a.no_duplicates() ==> b.no_duplicates(),
{
    broadcast use vstd::seq_lib::group_to_multiset_ensures;
    assert(a.to_multiset().len() == a.len());
    assert(b.to_multiset().len() == b.len());
    assert forall|x: T| a.contains(x) <==> b.contains(x) by {
        assert(a.contains(x) <==> a.to_multiset().count(x) > 0);
        assert(b.contains(x) <==> b.to_multiset().count(x) > 0);
    }
    if a.no_duplicates() {
        a.lemma_multiset_has_no_duplicates();
        b.lemma_multiset_has_no_duplicates_conv();
    }
}

/// Two sorted sequences without repetitions that hold the same values are equal.
pub proof fn lemma_sorted_unique<T: Ranked>(a: Seq<T>, b: Seq<T>)
    requires
        sorted(a),
        sorted(b),
        a.no_duplicates(),
        b.no_duplicates(),
        forall|x: T| a.contains(x) <==> b.contains(x),
    ensures
        a == b,
    decreases a.len(),
{
    T::order_is_total();
    if a.len() == 0 {
        if b.len() > 0 {
            assert(b.contains(b[0]));
        }
        assert(a =~= b);
    } else {
        assert(a.contains(a.last()));
        assert(b.contains(a.last()));
        let k = choose|k: int| 0 <= k < b.len() && b[k] == a.last();
        assert(b.contains(b.last()));
        let l = choose|l: int| 0 <= l < a.len() && a[l] == b.last();
        assert(a.last() == b.last()) by {
            if k < b.len() - 1 {
                assert(b[k].not_after(b[b.len() - 1]));
            }
            if l < a.len() - 1 {
                assert(a[l].not_after(a[a.len() - 1]));
            }
        }
        let c = a.drop_last();
        let d = b.drop_last();
        assert forall|x: T| c.contains(x) <==> d.contains(x) by {
            if c.contains(x) {
                let i = choose|i: int| 0 <= i < c.len() && c[i] == x;
                assert(a[i] == x);
                assert(b.contains(x));
                let j = choose|j: int| 0 <= j < b.len() && b[j] == x;
                assert(d[j] == x);
            }
            if d.contains(x) {
                let i = choose|i: int| 0 <= i < d.len() && d[i] == x;
                assert(b[i] == x);
                assert(a.contains(x));
                let j = choose|j: int| 0 <= j < a.len() && a[j] == x;
                assert(c[j] == x);
            }
        }
        lemma_sorted_unique(c, d);
        assert(a =~= c.push(a.last()));
        assert(b =~= d.push(b.last()));
    }
}

/// `s` with `x` added at its place, unless it is there already.
pub open spec fn insert_ranked<T: Ranked>(s: Seq<T>, x: T) -> Seq<T>
    decreases s.len(),
{
    if s.len() == 0 {
        seq![x]
    } else if s.last() == x {
        s
    } else if s.last().not_after(x) {
        s.push(x)
    } else {
        insert_ranked(s.drop_last(), x).push(s.last())
    }
}

/// Insertion keeps a sequence sorted and free of repetitions, and adds one value.
pub proof fn lemma_insert_ranked<T: Ranked>(s: Seq<T>, x: T)
    requires
        sorted(s),
        s.no_duplicates(),
    ensures
        sorted(insert_ranked(s, x)),
        insert_ranked(s, x).no_duplicates(),
        forall|y: T| #[trigger] insert_ranked(s, x).contains(y) <==> s.contains(y) || y == x,
    decreases s.len(),
{
    T::order_is_total();
    let r = insert_ranked(s, x);
    if s.len() == 0 {
        assert(r[0] == x);
    } else if s.last() == x {
        assert(s[s.len() - 1] == x);
    } else if s.last().not_after(x) {
        assert forall|y: T| r.contains(y) <==> s.contains(y) || y == x by {
            if s.contains(y) {
                let k = choose|k: int| 0 <= k < s.len() && s[k] == y;
                assert(r[k] == y);
            }
            assert(r[s.len() as int] == x);
            if r.contains(y) {
                let k = choose|k: int| 0 <= k < r.len() && r[k] == y;
                if k < s.len() {
                    assert(s[k] == y);
                }
            }
        }
        assert forall|i: int, j: int| 0 <= i < j < r.len() implies (#[trigger] r[i]).not_after(
            #[trigger] r[j],
        ) by {
            if j == s.len() && i < s.len() - 1 {
                assert(s[i].not_after(s[s.len() - 1]));
            }
        }
        assert forall|i: int, j: int| 0 <= i < r.len() && 0 <= j < r.len() && i != j implies r[i]
            != r[j] by {
            if i < s.len() - 1 {
                assert(s[i].not_after(s[s.len() - 1]));
            }
            if j < s.len() - 1 {
                assert(s[j].not_after(s[s.len() - 1]));
            }
        }
    } else {
        let front = s.drop_last();
        let inner = insert_ranked(front, x);
        lemma_insert_ranked(front, x);
        let last = s.last();
        assert forall|y: T| front.contains(y) implies y.not_after(last) && y != last by {
            let k = choose|k: int| 0 <= k < front.len() && front[k] == y;
            assert(s[k].not_after(s[s.len() - 1]));
            assert(s[k] != s[s.len() - 1]);
        }
        assert forall|k: int| 0 <= k < inner.len() implies inner[k].not_after(last) && inner[k]
            != last by {
            assert(inner.contains(inner[k]));
        }
        assert forall|y: T| r.contains(y) <==> s.contains(y) || y == x by {
            if r.contains(y) {
                let k = choose|k: int| 0 <= k < r.len() && r[k] == y;
                if k < inner.len() {
                    assert(inner.contains(inner[k]));
                    if y != x {
                        assert(front.contains(y));
                        let l = choose|l: int| 0 <= l < front.len() && front[l] == y;
                        assert(s[l] == y);
                    }
                } else {
                    assert(s[s.len() - 1] == y);
                }
            }
            if s.contains(y) || y == x {
                if y == last {
                    assert(r[inner.len() as int] == y);
                } else {
                    if y != x {
                        let l = choose|l: int| 0 <= l < s.len() && s[l] == y;
                        assert(l != s.len() - 1);
                        assert(front[l] == y);
                        assert(front.contains(y));
                    }
                    assert(insert_ranked(front, x).contains(y) <==> front.contains(y) || y == x);
                    assert(inner.contains(y));
                    let k = choose|k: int| 0 <= k < inner.len() && inner[k] == y;
                    assert(r[k] == y);
                }
            }
        }
    }
}

/// The values of `s` in ascending order, without repetitions.
pub open spec fn ranked_set<T: Ranked>(s: Seq<T>) -> Seq<T>
    decreases s.len(),
{
    if s.len() == 0 {
        Seq::empty()
    } else {
        insert_ranked(ranked_set(s.drop_last()), s.last())
    }
}

/// `ranked_set` holds the values of the sequence, sorted and once each.
pub proof fn lemma_ranked_set<T: Ranked>(s: Seq<T>)
    ensures
        sorted(ranked_set(s)),
        ranked_set(s).no_duplicates(),
        forall|x: T| #[trigger] ranked_set(s).contains(x) <==> s.contains(x),
    decreases s.len(),
{
    if s.len() > 0 {
        let front = s.drop_last();
        lemma_ranked_set(front);
        lemma_insert_ranked(ranked_set(front), s.last());
        assert forall|x: T| #[trigger] ranked_set(s).contains(x) <==> s.contains(x) by {
            assert(ranked_set(s).contains(x) <==> ranked_set(front).contains(x) || x == s.last());
            if front.contains(x) {
                let i = choose|i: int| 0 <= i < front.len() && front[i] == x;
                assert(s[i] == x);
            }
            if s.contains(x) {
                let i = choose|i: int| 0 <= i < s.len() && s[i] == x;
                if i < s.len() - 1 {
                    assert(front[i] == x);
                }
            }
            assert(s[s.len() - 1] == s.last());
        }
    } else {
        assert(forall|x: T| !ranked_set(s).contains(x));
    }
}

/// Sorts `v` and drops repetitions.
pub fn sort_dedup<T: Ranked>(v: &Vec<T>) -> (r: Vec<T>)
    ensures
        r@ == ranked_set(v@),
        sorted(r@),
        r@.no_duplicates(),
        forall|x: T| r@.contains(x) <==> v@.contains(x),
{
    let s = merge_sort(v);
    let mut r: Vec<T> = Vec::new();
    proof {
        lemma_same_elements(v@, s@);
        T::order_is_total();
    }
    for i in 0..s.len()
        invariant
            sorted(s@),
            sorted(r@),
            r@.no_duplicates(),
            r@.len() > 0 ==> i > 0 && r@.last() == s@[i - 1],
            r@.len() == 0 ==> i == 0,
            forall|x: T| r@.contains(x) <==> s@.take(i as int).contains(x),
    {
        proof {
            T::order_is_total();
        }
        let ghost before = r@;
        let fresh = r.len() == 0 || !s[i].is_not_after(&r[r.len() - 1]);
        if fresh {
            r.push(s[i]);
        }
        proof {
            assert(s@.take(i + 1) =~= s@.take(i as int).push(s@[i as int]));
            assert forall|k: int| 0 <= k < before.len() implies (#[trigger] before[k]).not_after(
                s@[i as int],
            ) by {
                assert(before[k] == before.last() || before[k].not_after(before.last()));
            }
            if fresh {
                assert forall|k: int| 0 <= k < before.len() implies before[k] != s@[i as int] by {
                    assert(before[k] == before.last() || before[k].not_after(before.last()));
                }
            } else {
                assert(before.last() == s@[i as int]);
                assert(before[before.len() - 1] == s@[i as int]);
            }
            assert forall|x: T| r@.contains(x) <==> s@.take(i + 1).contains(x) by {
                if r@.contains(x) {
                    let k = choose|k: int| 0 <= k < r@.len() && r@[k] == x;
                    if k < before.len() {
                        assert(before.contains(x));
                        let l = choose|l: int|
                            0 <= l < s@.take(i as int).len() && s@.take(i as int)[l] == x;
                        assert(s@.take(i + 1)[l] == x);
                    } else {
                        assert(s@.take(i + 1)[i as int] == x);
                    }
                }
                if s@.take(i + 1).contains(x) {
                    let more = s@.take(i + 1);
                    let l = choose|l: int| 0 <= l < more.len() && more[l] == x;
                    if l < i {
                        assert(s@.take(i as int)[l] == x);
                        assert(before.contains(x));
                        let k = choose|k: int| 0 <= k < before.len() && before[k] == x;
                        assert(r@[k] == x);
                    } else if fresh {
                        assert(r@[r@.len() - 1] == x);
                    } else {
                        assert(r@[r@.len() - 1] == x);
                    }
                }
            }
        }
    }
    assert(s@.take(s@.len() as int) =~= s@);
    proof {
        lemma_ranked_set(v@);
        lemma_sorted_unique(r@, ranked_set(v@));
    }
    r
}

} // verus!
