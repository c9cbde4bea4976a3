use vstd::prelude::*;

verus! {

/// Every element is smaller than the ones after it (sorted, no duplicates).
pub open spec fn strictly_increasing(s: Seq<u32>) -> bool {
    forall|i: int, j: int| 0 <= i < j < s.len() ==> s[i] < s[j]
}

/// Inserts `x` into the sorted, duplicate-free vector `v`, keeping it so.
#[verifier::rlimit(30)]
pub fn insert_sorted(v: &mut Vec<u32>, x: u32)
    requires
        strictly_increasing(old(v)@),
    ensures
        strictly_increasing(final(v)@),
        forall|y: u32| final(v)@.contains(y) <==> (old(v)@.contains(y) || y == x),
{
    let mut p: usize = 0;
    while p < v.len() && v[p] < x
        invariant
            p <= v@.len(),
            v@ == old(v)@,
            forall|i: int| 0 <= i < p ==> v@[i] < x,
        decreases v@.len() - p,
    {
        p = p + 1;
    }
    if p < v.len() && v[p] == x {
        assert(v@[p as int] == x);
        return;
    }
    let ghost old_v = v@;
    assert(old_v == old(v)@);
    v.insert(p, x);
    assert forall|i: int, j: int| 0 <= i < j < v@.len() implies v@[i] < v@[j] by {
        if j < p {
        } else if j == p {
        } else if i < p {
            assert(v@[j] == old_v[j - 1]);
        } else if i == p {
            assert(v@[j] == old_v[j - 1]);
            assert(old_v[p as int] >= x);
            if j - 1 > p {
                assert(old_v[p as int] < old_v[j - 1]);
            }
        } else {
            assert(v@[j] == old_v[j - 1]);
            assert(v@[i] == old_v[i - 1]);
        }
    }
    assert forall|y: u32| v@.contains(y) <==> (old_v.contains(y) || y == x) by {
        if old_v.contains(y) {
            let k = choose|k: int| 0 <= k < old_v.len() && old_v[k] == y;
            if k < p {
                assert(v@[k] == y);
            } else {
                assert(v@[k + 1] == y);
            }
        }
        if y == x {
            assert(v@[p as int] == x);
        }
        if v@.contains(y) {
            let k = choose|k: int| 0 <= k < v@.len() && v@[k] == y;
            if k < p {
                assert(old_v[k] == y);
            } else if k > p {
                assert(old_v[k - 1] == y);
            }
        }
    }
    assert(forall|y: u32| v@.contains(y) <==> (old(v)@.contains(y) || y == x));
}


/// Two strictly increasing sequences with the same elements are equal.
pub proof fn lemma_strictly_increasing_unique(a: Seq<u32>, b: Seq<u32>)
    requires
        strictly_increasing(a),
        strictly_increasing(b),
        forall|x: u32| a.contains(x) <==> b.contains(x),
    ensures
        a == b,
    decreases a.len() + b.len(),
{
    if a.len() == 0 || b.len() == 0 {
        if a.len() > 0 {
            assert(a.contains(a[0]));
        }
        if b.len() > 0 {
            assert(b.contains(b[0]));
        }
        assert(a =~= b);
    } else {
        assert(a.contains(a[0]));
        assert(b.contains(b[0]));
        let i = choose|i: int| 0 <= i < b.len() && b[i] == a[0];
        let j = choose|j: int| 0 <= j < a.len() && a[j] == b[0];
        if i > 0 {
            assert(b[0] < b[i]);
            if j > 0 {
                assert(a[0] < a[j]);
            }
        }
        assert(a[0] == b[0]);
        let a1 = a.drop_first();
        let b1 = b.drop_first();
        assert forall|x: u32| a1.contains(x) <==> b1.contains(x) by {
            if a1.contains(x) {
                let k = choose|k: int| 0 <= k < a1.len() && a1[k] == x;
                assert(a[k + 1] == x);
                assert(a[0] < a[k + 1]);
                assert(b.contains(x));
                let l = choose|l: int| 0 <= l < b.len() && b[l] == x;
                assert(l != 0);
                assert(b1[l - 1] == x);
            }
            if b1.contains(x) {
                let k = choose|k: int| 0 <= k < b1.len() && b1[k] == x;
                assert(b[k + 1] == x);
                assert(b[0] < b[k + 1]);
                assert(a.contains(x));
                let l = choose|l: int| 0 <= l < a.len() && a[l] == x;
                assert(l != 0);
                assert(a1[l - 1] == x);
            }
        }
        lemma_strictly_increasing_unique(a1, b1);
        assert forall|k: int| 0 <= k < a.len() implies a[k] == b[k] by {
            if k > 0 {
                assert(a[k] == a1[k - 1]);
                assert(b[k] == b1[k - 1]);
            }
        }
        assert(a.len() == b.len());
        assert(a =~= b);
    }
}

/// The strictly increasing sequence whose elements are those satisfying `p`.
pub open spec fn spec_sorted_where(p: spec_fn(u32) -> bool) -> Seq<u32> {
    choose|s: Seq<u32>| strictly_increasing(s) && forall|x: u32| s.contains(x) <==> p(x)
}

/// A strictly increasing sequence is the sorted listing of its elements.
pub proof fn lemma_sorted_where(s: Seq<u32>, p: spec_fn(u32) -> bool)
    requires
        strictly_increasing(s),
        forall|x: u32| s.contains(x) <==> p(x),
    ensures
        spec_sorted_where(p) == s,
{
    let t = spec_sorted_where(p);
    assert(strictly_increasing(t) && forall|x: u32| t.contains(x) <==> p(x));
    lemma_strictly_increasing_unique(s, t);
}

/// Concatenation of `f(id)` over the ids of `ids`, in order.
pub open spec fn spec_collect<A>(ids: Seq<u32>, f: spec_fn(u32) -> Seq<A>) -> Seq<A>
    decreases ids.len(),
{
    if ids.len() == 0 {
        Seq::empty()
    } else {
        spec_collect(ids.drop_last(), f) + f(ids.last())
    }
}

/// The ids of `ids` whose part is not empty.
pub open spec fn spec_nonempty_ids<A>(ids: Seq<u32>, f: spec_fn(u32) -> Seq<A>) -> Seq<u32> {
    ids.filter(|id: u32| f(id).len() > 0)
}

/// Leaving out the ids whose part is empty does not change the concatenation.
pub proof fn lemma_collect_nonempty<A>(ids: Seq<u32>, f: spec_fn(u32) -> Seq<A>)
    ensures
        spec_collect(ids, f) == spec_collect(spec_nonempty_ids(ids, f), f),
    decreases ids.len(),
{
    broadcast use Seq::lemma_filter_push;

    if ids.len() > 0 {
        let t = ids.drop_last();
        lemma_collect_nonempty(t, f);
        assert(ids =~= t.push(ids.last()));
        let p = |id: u32| f(id).len() > 0;
        if f(ids.last()).len() > 0 {
            assert(ids.filter(p) == t.filter(p).push(ids.last()));
            assert(ids.filter(p).drop_last() =~= t.filter(p));
        } else {
            assert(ids.filter(p) == t.filter(p));
            assert(spec_collect(ids, f) =~= spec_collect(t, f));
        }
    }
}

/// Filtering keeps a sequence strictly increasing.
pub proof fn lemma_filter_increasing(s: Seq<u32>, p: spec_fn(u32) -> bool)
    requires
        strictly_increasing(s),
    ensures
        strictly_increasing(s.filter(p)),
        forall|x: u32| s.filter(p).contains(x) <==> (s.contains(x) && p(x)),
    decreases s.len(),
{
    broadcast use Seq::lemma_filter_push;

    if s.len() > 0 {
        let t = s.drop_last();
        assert(s =~= t.push(s.last()));
        lemma_filter_increasing(t, p);
        let ft = t.filter(p);
        assert forall|x: u32| s.contains(x) <==> (t.contains(x) || x == s.last()) by {
            if s.contains(x) {
                let k = choose|k: int| 0 <= k < s.len() && s[k] == x;
                if k < s.len() - 1 {
                    assert(t[k] == x);
                }
            }
            if t.contains(x) {
                let k = choose|k: int| 0 <= k < t.len() && t[k] == x;
                assert(s[k] == x);
            }
        }
        if p(s.last()) {
            let fs = ft.push(s.last());
            assert(s.filter(p) == fs);
            assert forall|i: int, j: int| 0 <= i < j < fs.len() implies fs[i] < fs[j] by {
                if j == fs.len() - 1 {
                    assert(fs[i] == ft[i]);
                    assert(ft.contains(ft[i]));
                    assert(t.contains(fs[i]));
                    let k = choose|k: int| 0 <= k < t.len() && t[k] == fs[i];
                    assert(s[k] < s[s.len() - 1]);
                }
            }
            assert forall|x: u32| fs.contains(x) <==> (ft.contains(x) || x == s.last()) by {
                if fs.contains(x) {
                    let k = choose|k: int| 0 <= k < fs.len() && fs[k] == x;
                    if k < ft.len() {
                        assert(ft[k] == x);
                    }
                }
                if ft.contains(x) {
                    let k = choose|k: int| 0 <= k < ft.len() && ft[k] == x;
                    assert(fs[k] == x);
                }
                if x == s.last() {
                    assert(fs[fs.len() - 1] == x);
                }
            }
        } else {
            assert(s.filter(p) == ft);
        }
    } else {
        assert(s.filter(p) =~= s);
    }
}

/// Two strictly increasing id sequences whose ids with a non-empty part are
/// the same give the same concatenation.
pub proof fn lemma_collect_same_nonempty<A>(a: Seq<u32>, b: Seq<u32>, f: spec_fn(u32) -> Seq<A>)
    requires
        strictly_increasing(a),
        strictly_increasing(b),
        forall|x: u32| f(x).len() > 0 ==> (a.contains(x) <==> b.contains(x)),
    ensures
        spec_collect(a, f) == spec_collect(b, f),
{
    let p = |id: u32| f(id).len() > 0;
    lemma_collect_nonempty(a, f);
    lemma_collect_nonempty(b, f);
    lemma_filter_increasing(a, p);
    lemma_filter_increasing(b, p);
    assert forall|x: u32| a.filter(p).contains(x) <==> b.filter(p).contains(x) by {
        assert(a.filter(p).contains(x) <==> (a.contains(x) && p(x)));
        assert(b.filter(p).contains(x) <==> (b.contains(x) && p(x)));
        if p(x) {
            assert(f(x).len() > 0);
            assert(a.contains(x) <==> b.contains(x));
        }
    }
    lemma_strictly_increasing_unique(a.filter(p), b.filter(p));
}


/// An element is in the filtered sequence exactly when it is in the
/// sequence and satisfies the predicate.
pub proof fn lemma_filter_contains_iff<A>(s: Seq<A>, p: spec_fn(A) -> bool, x: A)
    ensures
        s.filter(p).contains(x) <==> (s.contains(x) && p(x)),
{
    if s.filter(p).contains(x) {
        s.lemma_filter_contains_rev(p, x);
        let i = choose|i: int| 0 <= i < s.filter(p).len() && s.filter(p)[i] == x;
        s.lemma_filter_pred(p, i);
    }
    if s.contains(x) && p(x) {
        let i = choose|i: int| 0 <= i < s.len() && s[i] == x;
        s.lemma_filter_contains(p, i);
    }
}

/// `s` with `x` inserted in order (unchanged if `x` is already there).
pub open spec fn spec_insert_sorted(s: Seq<u32>, x: u32) -> Seq<u32>
    decreases s.len(),
{
    if s.len() == 0 {
        seq![x]
    } else if s.last() < x {
        s.push(x)
    } else if s.last() == x {
        s
    } else {
        spec_insert_sorted(s.drop_last(), x).push(s.last())
    }
}

proof fn lemma_spec_insert_sorted(s: Seq<u32>, x: u32)
    requires
        strictly_increasing(s),
    ensures
        strictly_increasing(spec_insert_sorted(s, x)),
        forall|y: u32| spec_insert_sorted(s, x).contains(y) <==> (s.contains(y) || y == x),
    decreases s.len(),
{
    let r = spec_insert_sorted(s, x);
    if s.len() == 0 {
        assert(r =~= seq![x]);
        assert forall|y: u32| r.contains(y) <==> (s.contains(y) || y == x) by {
            if r.contains(y) {
                let k = choose|k: int| 0 <= k < r.len() && r[k] == y;
                assert(k == 0);
            }
            if y == x {
                assert(r[0] == y);
            }
        }
    } else {
        let t = s.drop_last();
        let l = s.last();
        assert(strictly_increasing(t));
        assert forall|y: u32| s.contains(y) <==> (t.contains(y) || y == l) by {
            if s.contains(y) {
                let k = choose|k: int| 0 <= k < s.len() && s[k] == y;
                if k < s.len() - 1 {
                    assert(t[k] == y);
                }
            }
            if t.contains(y) {
                let k = choose|k: int| 0 <= k < t.len() && t[k] == y;
                assert(s[k] == y);
            }
            if y == l {
                assert(s[s.len() - 1] == y);
            }
        }
        assert forall|y: u32| t.contains(y) implies y < l by {
            let k = choose|k: int| 0 <= k < t.len() && t[k] == y;
            assert(s[k] < s[s.len() - 1]);
        }
        if l < x {
            assert forall|i: int, j: int| 0 <= i < j < r.len() implies r[i] < r[j] by {
                if j == r.len() - 1 && i < s.len() {
                    if i < s.len() - 1 {
                        assert(s[i] < s[s.len() - 1]);
                    }
                }
            }
            assert forall|y: u32| r.contains(y) <==> (s.contains(y) || y == x) by {
                if r.contains(y) {
                    let k = choose|k: int| 0 <= k < r.len() && r[k] == y;
                    if k < s.len() {
                        assert(s[k] == y);
                    }
                }
                if s.contains(y) {
                    let k = choose|k: int| 0 <= k < s.len() && s[k] == y;
                    assert(r[k] == y);
                }
                if y == x {
                    assert(r[r.len() - 1] == y);
                }
            }
        } else if l == x {
        } else {
            lemma_spec_insert_sorted(t, x);
            let u = spec_insert_sorted(t, x);
            assert(r == u.push(l));
            assert forall|i: int, j: int| 0 <= i < j < r.len() implies r[i] < r[j] by {
                assert(r[i] == u[i]);
                if j == r.len() - 1 {
                    assert(u.contains(u[i]));
                    assert(t.contains(u[i]) || u[i] == x);
                } else {
                    assert(r[j] == u[j]);
                }
            }
            assert forall|y: u32| r.contains(y) <==> (s.contains(y) || y == x) by {
                assert(u.contains(y) <==> (t.contains(y) || y == x));
                assert(s.contains(y) <==> (t.contains(y) || y == l));
                if r.contains(y) {
                    let k = choose|k: int| 0 <= k < r.len() && r[k] == y;
                    if k < u.len() {
                        assert(u[k] == y);
                        assert(u.contains(y));
                    } else {
                        assert(y == l);
                    }
                }
                if u.contains(y) {
                    let k = choose|k: int| 0 <= k < u.len() && u[k] == y;
                    assert(r[k] == y);
                }
                if y == l {
                    assert(r[r.len() - 1] == y);
                }
            }
        }
    }
}

/// The elements of `s`, sorted, each once.
pub open spec fn spec_sort_ids(s: Seq<u32>) -> Seq<u32>
    decreases s.len(),
{
    if s.len() == 0 {
        Seq::empty()
    } else {
        spec_insert_sorted(spec_sort_ids(s.drop_last()), s.last())
    }
}

proof fn lemma_sort_ids(s: Seq<u32>)
    ensures
        strictly_increasing(spec_sort_ids(s)),
        forall|y: u32| spec_sort_ids(s).contains(y) <==> s.contains(y),
    decreases s.len(),
{
    if s.len() > 0 {
        let t = s.drop_last();
        lemma_sort_ids(t);
        lemma_spec_insert_sorted(spec_sort_ids(t), s.last());
        assert forall|y: u32| s.contains(y) <==> (t.contains(y) || y == s.last()) by {
            if s.contains(y) {
                let k = choose|k: int| 0 <= k < s.len() && s[k] == y;
                if k < s.len() - 1 {
                    assert(t[k] == y);
                }
            }
            if t.contains(y) {
                let k = choose|k: int| 0 <= k < t.len() && t[k] == y;
                assert(s[k] == y);
            }
        }
    }
}

/// When some sequence holds exactly the ids satisfying `p`, their sorted
/// listing exists and `spec_sorted_where(p)` is it.
pub proof fn lemma_sorted_where_exists(q: Seq<u32>, p: spec_fn(u32) -> bool)
    requires
        forall|x: u32| q.contains(x) <==> p(x),
    ensures
        strictly_increasing(spec_sorted_where(p)),
        forall|x: u32| spec_sorted_where(p).contains(x) <==> p(x),
{
    lemma_sort_ids(q);
    assert forall|x: u32| spec_sort_ids(q).contains(x) <==> p(x) by {
        assert(spec_sort_ids(q).contains(x) <==> q.contains(x));
    }
    lemma_sorted_where(spec_sort_ids(q), p);
}

} // verus!
