use vstd::prelude::*;
use crate::date::{date_le, Date};

verus! {

/// `x` inserted into `r` after every element whose date is on or before its own: the step of a
/// stable insertion sort.
pub open spec fn insert_stable<T>(r: Seq<(Date, T)>, x: (Date, T)) -> Seq<(Date, T)>
    decreases r.len(),
{
    if r.len() == 0 {
        seq![x]
    } else if date_le(r.last().0, x.0) {
        r.push(x)
    } else {
        insert_stable(r.drop_last(), x).push(r.last())
    }
}

/// `s` ordered by date; elements with the same date keep their order.
pub open spec fn stable_sort<T>(s: Seq<(Date, T)>) -> Seq<(Date, T)>
    decreases s.len(),
{
    if s.len() == 0 {
        s
    } else {
        insert_stable(stable_sort(s.drop_last()), s.last())
    }
}

/// The dates of `s` never decrease.
pub open spec fn sorted_by_date<T>(s: Seq<(Date, T)>) -> bool {
    forall|i: int, j: int| 0 <= i < j < s.len() ==> date_le(#[trigger] s[i].0, #[trigger] s[j].0)
}

proof fn lemma_insert_at<T>(r: Seq<(Date, T)>, x: (Date, T), p: int)
    requires
        0 <= p <= r.len(),
        forall|k: int| p <= k < r.len() ==> !date_le(#[trigger] r[k].0, x.0),
        p > 0 ==> date_le(r[p - 1].0, x.0),
    ensures
        insert_stable(r, x) == r.take(p).push(x) + r.skip(p),
    decreases r.len(),
{
    if r.len() == 0 {
        assert(r.take(p).push(x) + r.skip(p) =~= seq![x]);
    } else if p == r.len() {
        assert(r.take(p) =~= r);
        assert(r.skip(p) =~= Seq::<(Date, T)>::empty());
        assert(r.take(p).push(x) + r.skip(p) =~= r.push(x));
    } else {
        let q = r.drop_last();
        assert forall|k: int| p <= k < q.len() implies !date_le(#[trigger] q[k].0, x.0) by {
            assert(q[k] == r[k]);
        }
        lemma_insert_at(q, x, p);
        assert(q.take(p) =~= r.take(p));
        assert(q.skip(p).push(r.last()) =~= r.skip(p));
        assert((q.take(p).push(x) + q.skip(p)).push(r.last()) =~= r.take(p).push(x) + r.skip(p));
    }
}

/// Orders `v` by date; elements with the same date keep their order.
pub fn sort_by_date<T>(v: Vec<(Date, T)>) -> (r: Vec<(Date, T)>)
    ensures
        r@ == stable_sort(v@),
{
    let ghost s = v@;
    let mut v = v;
    let mut r: Vec<(Date, T)> = Vec::new();
    let ghost mut i: int = 0;
    while v.len() > 0
        invariant
            0 <= i <= s.len(),
            v@ == s.skip(i),
            r@ == stable_sort(s.take(i)),
        decreases v@.len(),
    {
        let x = v.remove(0);
        proof {
            assert(x == s[i]);
            assert(s.take(i + 1).drop_last() =~= s.take(i));
            assert(s.take(i + 1).last() == s[i]);
            assert(v@ =~= s.skip(i + 1));
        }
        let mut p: usize = r.len();
        while p > 0 && !r[p - 1].0.le(&x.0)
            invariant
                p <= r@.len(),
                forall|k: int| p <= k < r@.len() ==> !date_le(#[trigger] r@[k].0, x.0),
            decreases p,
        {
            p = p - 1;
        }
        proof {
            lemma_insert_at(r@, x, p as int);
        }
        r.insert(p, x);
        proof {
            assert(r@ =~= stable_sort(s.take(i + 1)));
            i = i + 1;
        }
    }
    proof {
        assert(s.take(i) =~= s);
    }
    r
}

/// The second components of `s`, in order.
pub fn seconds<T>(v: Vec<(Date, T)>) -> (r: Vec<T>)
    ensures
        r@ == v@.map_values(|p: (Date, T)| p.1),
{
    let ghost s = v@;
    let mut v = v;
    let mut r: Vec<T> = Vec::new();
    while v.len() > 0
        invariant
            s.len() == r@.len() + v@.len(),
            v@ == s.skip(r@.len() as int),
            r@ == s.take(r@.len() as int).map_values(|p: (Date, T)| p.1),
        decreases v@.len(),
    {
        let ghost k = r@.len() as int;
        let x = v.remove(0);
        r.push(x.1);
        proof {
            assert(s.take(k + 1).map_values(|p: (Date, T)| p.1) =~= s.take(k).map_values(
                |p: (Date, T)| p.1,
            ).push(x.1));
            assert(v@ =~= s.skip(k + 1));
        }
    }
    proof {
        assert(s.take(s.len() as int) =~= s);
    }
    r
}

/// A stable sort orders by date.
pub proof fn lemma_stable_sort_sorted<T>(s: Seq<(Date, T)>)
    ensures
        sorted_by_date(stable_sort(s)),
        stable_sort(s).len() == s.len(),
    decreases s.len(),
{
    if s.len() > 0 {
        lemma_stable_sort_sorted(s.drop_last());
        lemma_insert_sorted(stable_sort(s.drop_last()), s.last());
    }
}

/// Elements that all carry one date stay in the order they came in.
pub proof fn lemma_stable_sort_same_date<T>(s: Seq<(Date, T)>)
    requires
        forall|i: int, j: int| 0 <= i < s.len() && 0 <= j < s.len() ==> #[trigger] s[i].0 == #[trigger] s[j].0,
    ensures
        stable_sort(s) == s,
    decreases s.len(),
{
    if s.len() > 0 {
        let q = s.drop_last();
        assert forall|i: int, j: int| 0 <= i < q.len() && 0 <= j < q.len() implies #[trigger] q[i].0
            == #[trigger] q[j].0 by {
            assert(q[i] == s[i] && q[j] == s[j]);
        }
        lemma_stable_sort_same_date(q);
        if q.len() > 0 {
            assert(q.last() == s[s.len() - 2]);
            assert(s.last() == s[s.len() - 1]);
        }
        assert(q.push(s.last()) =~= s);
    }
}

/// Sorting two lists with the same dates, position by position, moves their elements alike.
pub proof fn lemma_sort_related<T>(a: Seq<(Date, T)>, b: Seq<(Date, T)>, rel: spec_fn(T, T) -> bool)
    requires
        a.len() == b.len(),
        forall|k: int| 0 <= k < a.len() ==> (#[trigger] a[k]).0 == b[k].0 && rel(a[k].1, b[k].1),
    ensures
        stable_sort(a).len() == stable_sort(b).len(),
        forall|k: int|
            0 <= k < stable_sort(a).len() ==> (#[trigger] stable_sort(a)[k]).0 == stable_sort(b)[k].0
                && rel(stable_sort(a)[k].1, stable_sort(b)[k].1),
    decreases a.len(),
{
    if a.len() > 0 {
        lemma_sort_related(a.drop_last(), b.drop_last(), rel);
        lemma_insert_related(stable_sort(a.drop_last()), stable_sort(b.drop_last()), a.last(), b.last(), rel);
    }
}

proof fn lemma_insert_related<T>(
    a: Seq<(Date, T)>,
    b: Seq<(Date, T)>,
    x: (Date, T),
    y: (Date, T),
    rel: spec_fn(T, T) -> bool,
)
    requires
        a.len() == b.len(),
        x.0 == y.0 && rel(x.1, y.1),
        forall|k: int| 0 <= k < a.len() ==> (#[trigger] a[k]).0 == b[k].0 && rel(a[k].1, b[k].1),
    ensures
        insert_stable(a, x).len() == insert_stable(b, y).len(),
        forall|k: int|
            0 <= k < insert_stable(a, x).len() ==> (#[trigger] insert_stable(a, x)[k]).0
                == insert_stable(b, y)[k].0 && rel(insert_stable(a, x)[k].1, insert_stable(b, y)[k].1),
    decreases a.len(),
{
    if a.len() > 0 && !date_le(a.last().0, x.0) {
        lemma_insert_related(a.drop_last(), b.drop_last(), x, y, rel);
    }
}

/// A stable sort keeps the elements it is given.
pub proof fn lemma_stable_sort_members<T>(s: Seq<(Date, T)>)
    ensures
        stable_sort(s).len() == s.len(),
        forall|k: int| 0 <= k < stable_sort(s).len() ==> s.contains(#[trigger] stable_sort(s)[k]),
    decreases s.len(),
{
    if s.len() > 0 {
        lemma_stable_sort_members(s.drop_last());
        let r = stable_sort(s.drop_last());
        lemma_insert_members(r, s.last());
        assert forall|k: int| 0 <= k < stable_sort(s).len() implies s.contains(
            #[trigger] stable_sort(s)[k],
        ) by {
            let y = stable_sort(s)[k];
            if y == s.last() {
                assert(s[s.len() - 1] == y);
            } else {
                let m = choose|m: int| 0 <= m < r.len() && r[m] == y;
                assert(s.drop_last().contains(y));
                let n = choose|n: int| 0 <= n < s.drop_last().len() && s.drop_last()[n] == y;
                assert(s[n] == y);
            }
        }
    }
}

proof fn lemma_insert_members<T>(r: Seq<(Date, T)>, x: (Date, T))
    ensures
        insert_stable(r, x).len() == r.len() + 1,
        forall|k: int|
            0 <= k < insert_stable(r, x).len() ==> (#[trigger] insert_stable(r, x)[k] == x
                || r.contains(insert_stable(r, x)[k])),
    decreases r.len(),
{
    if r.len() > 0 && !date_le(r.last().0, x.0) {
        let q = r.drop_last();
        lemma_insert_members(q, x);
        let t = insert_stable(q, x);
        assert forall|k: int| 0 <= k < t.len() implies r.contains(#[trigger] t[k]) || t[k] == x by {
            if t[k] != x {
                let m = choose|m: int| 0 <= m < q.len() && q[m] == t[k];
                assert(r[m] == q[m]);
            }
        }
        assert(r.contains(r.last())) by {
            assert(r[r.len() - 1] == r.last());
        }
    } else if r.len() > 0 {
        assert forall|k: int| 0 <= k < r.len() implies r.contains(#[trigger] r[k]) by {}
    }
}

proof fn lemma_insert_sorted<T>(r: Seq<(Date, T)>, x: (Date, T))
    requires
        sorted_by_date(r),
    ensures
        sorted_by_date(insert_stable(r, x)),
        insert_stable(r, x).len() == r.len() + 1,
        forall|k: int|
            0 <= k < insert_stable(r, x).len() ==> (#[trigger] insert_stable(r, x)[k] == x
                || r.contains(insert_stable(r, x)[k])),
    decreases r.len(),
{
    if r.len() > 0 && !date_le(r.last().0, x.0) {
        let q = r.drop_last();
        assert(sorted_by_date(q)) by {
            assert forall|i: int, j: int| 0 <= i < j < q.len() implies date_le(
                #[trigger] q[i].0,
                #[trigger] q[j].0,
            ) by {
                assert(r[i] == q[i] && r[j] == q[j]);
            }
        }
        lemma_insert_sorted(q, x);
        let t = insert_stable(q, x);
        assert forall|k: int| 0 <= k < t.len() implies date_le(#[trigger] t[k].0, r.last().0) by {
            if t[k] != x {
                assert(q.contains(t[k]));
                let m = choose|m: int| 0 <= m < q.len() && q[m] == t[k];
                assert(r[m] == q[m]);
            }
        }
        assert forall|k: int| 0 <= k < t.len() implies r.contains(#[trigger] t[k]) || t[k] == x by {
            if t[k] != x {
                let m = choose|m: int| 0 <= m < q.len() && q[m] == t[k];
                assert(r[m] == q[m]);
            }
        }
        assert(r.contains(r.last())) by {
            assert(r[r.len() - 1] == r.last());
        }
    } else if r.len() > 0 {
        assert forall|k: int| 0 <= k < r.len() implies r.contains(#[trigger] r[k]) by {}
        assert(date_le(r.last().0, x.0));
        assert forall|i: int| 0 <= i < r.len() implies date_le(#[trigger] r[i].0, x.0) by {
            if i < r.len() - 1 {
                assert(date_le(r[i].0, r[r.len() - 1].0));
            }
        }
    }
}

} // verus!
