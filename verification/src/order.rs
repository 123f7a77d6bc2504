//! A stable insertion sort over an order that each sorted type states.
use vstd::multiset::Multiset;
use vstd::prelude::*;

verus! {

broadcast use vstd::seq_lib::group_to_multiset_ensures;

/// A strict order on the view of a type, by which its values are sorted.
pub trait SortOrder: View + Sized {
    /// Whether `a` is to come strictly before `b`.
    spec fn before(a: Self::V, b: Self::V) -> bool;

    proof fn lemma_before_asymmetric(a: Self::V, b: Self::V)
        ensures
            Self::before(a, b) ==> !Self::before(b, a),
    ;

    proof fn lemma_before_transitive(a: Self::V, b: Self::V, c: Self::V)
        requires
            Self::before(a, b),
            Self::before(b, c),
        ensures
            Self::before(a, c),
    ;

    /// Decides [`SortOrder::before`] on two values.
    fn precedes(&self, other: &Self) -> (r: bool)
        ensures
            r == Self::before(self@, other@),
    ;
}

/// `s` with `x` placed before the first element that `x` comes before,
/// that is after every element that does not come after it.
pub open spec fn insert_sorted<T: SortOrder>(s: Seq<T::V>, x: T::V) -> Seq<T::V>
    decreases s.len(),
{
    if s.len() == 0 {
        seq![x]
    } else if T::before(x, s[0]) {
        seq![x] + s
    } else {
        seq![s[0]] + insert_sorted::<T>(s.drop_first(), x)
    }
}

/// The stable sort of `s`: sorted by [`SortOrder::before`], and elements
/// that neither comes before the other keep the order they had in `s`.
pub open spec fn stable_sorted<T: SortOrder>(s: Seq<T::V>) -> Seq<T::V>
    decreases s.len(),
{
    if s.len() == 0 {
        Seq::empty()
    } else {
        insert_sorted::<T>(stable_sorted::<T>(s.drop_last()), s.last())
    }
}

/// No element comes before an element to its left.
pub open spec fn is_sorted<T: SortOrder>(s: Seq<T::V>) -> bool {
    forall|i: int, j: int| 0 <= i < j < s.len() ==> !T::before(#[trigger] s[j], #[trigger] s[i])
}

/// The views of the elements of `s`.
pub open spec fn views<T: View>(s: Seq<T>) -> Seq<T::V> {
    s.map_values(|x: T| x@)
}

proof fn lemma_insert_sorted_at<T: SortOrder>(s: Seq<T::V>, x: T::V, k: int)
    requires
        0 <= k <= s.len(),
        forall|j: int| 0 <= j < k ==> !T::before(x, #[trigger] s[j]),
        k < s.len() ==> T::before(x, s[k]),
    ensures
        insert_sorted::<T>(s, x) == s.insert(k, x),
    decreases s.len(),
{
    if s.len() == 0 {
        assert(s.insert(k, x) =~= seq![x]);
    } else if k == 0 {
        assert(s.insert(k, x) =~= seq![x] + s);
    } else {
        assert(!T::before(x, s[0]));
        let t = s.drop_first();
        assert forall|j: int| 0 <= j < k - 1 implies !T::before(x, #[trigger] t[j]) by {
            assert(t[j] == s[j + 1]);
        }
        lemma_insert_sorted_at::<T>(t, x, k - 1);
        assert(s.insert(k, x) =~= seq![s[0]] + t.insert(k - 1, x));
    }
}

/// Sorts `v` stably by the order of its element type.
pub fn sort_stable<T: SortOrder>(v: Vec<T>) -> (r: Vec<T>)
    ensures
        views(r@) == stable_sorted::<T>(views(v@)),
{
    let ghost orig = views(v@);
    let mut rest = v;
    let mut out: Vec<T> = Vec::new();
    let ghost mut done: int = 0;
    assert(orig.take(0) =~= Seq::<T::V>::empty());
    while rest.len() > 0
        invariant
            0 <= done <= orig.len(),
            views(rest@) == orig.skip(done),
            views(out@) == stable_sorted::<T>(orig.take(done)),
        decreases rest.len(),
    {
        let ghost rest_before = rest@;
        assert(views(rest_before).len() == rest_before.len());
        assert(done < orig.len());
        let x = rest.remove(0);
        assert(x@ == orig[done]) by {
            assert(views(rest_before)[0] == x@);
            assert(orig.skip(done)[0] == orig[done]);
        }
        let ghost before_out = views(out@);
        let mut k: usize = 0;
        while k < out.len() && !x.precedes(&out[k])
            invariant
                k <= out.len(),
                views(out@) == before_out,
                forall|j: int| 0 <= j < k ==> !T::before(x@, #[trigger] before_out[j]),
            decreases out.len() - k,
        {
            k = k + 1;
        }
        proof {
            lemma_insert_sorted_at::<T>(before_out, x@, k as int);
        }
        let ghost out_before_insert = out@;
        out.insert(k, x);
        proof {
            assert(views(out@) =~= before_out.insert(k as int, x@));
            assert(orig.take(done + 1).drop_last() =~= orig.take(done));
            assert(views(rest@) =~= views(rest_before).drop_first());
            assert(views(rest@) =~= orig.skip(done + 1));
            done = done + 1;
        }
    }
    assert(orig.take(done) =~= orig);
    out
}

/// An inserted element lands in a sorted sequence without unsorting it.
proof fn lemma_insert_sorted_sorted<T: SortOrder>(s: Seq<T::V>, x: T::V)
    requires
        is_sorted::<T>(s),
    ensures
        is_sorted::<T>(insert_sorted::<T>(s, x)),
        insert_sorted::<T>(s, x).to_multiset() == s.to_multiset().insert(x),
    decreases s.len(),
{
    if s.len() == 0 {
        assert(insert_sorted::<T>(s, x) =~= Seq::<T::V>::empty().push(x));
    } else if T::before(x, s[0]) {
        let r = insert_sorted::<T>(s, x);
        assert(r =~= s.insert(0, x));
        assert forall|i: int, j: int| 0 <= i < j < r.len() implies !T::before(#[trigger] r[j], #[trigger] r[i]) by {
            if i == 0 {
                T::lemma_before_asymmetric(x, s[j - 1]);
                if j - 1 > 0 {
                    if T::before(s[j - 1], x) {
                        T::lemma_before_transitive(s[j - 1], x, s[0]);
                    }
                }
            }
        }
    } else {
        let t = s.drop_first();
        assert(is_sorted::<T>(t)) by {
            assert forall|i: int, j: int| 0 <= i < j < t.len() implies !T::before(#[trigger] t[j], #[trigger] t[i]) by {
                assert(t[j] == s[j + 1] && t[i] == s[i + 1]);
            }
        }
        lemma_insert_sorted_sorted::<T>(t, x);
        let it = insert_sorted::<T>(t, x);
        let r = insert_sorted::<T>(s, x);
        assert(r =~= seq![s[0]] + it);
        assert forall|i: int, j: int| 0 <= i < j < r.len() implies !T::before(#[trigger] r[j], #[trigger] r[i]) by {
            if i == 0 {
                assert(r[j] == it[j - 1]);
                assert(it.to_multiset().count(it[j - 1]) > 0);
                assert(t.to_multiset().insert(x).count(it[j - 1]) > 0);
                if it[j - 1] != x {
                    assert(t.to_multiset().count(it[j - 1]) > 0);
                    let m = choose|m: int| 0 <= m < t.len() && t[m] == it[j - 1];
                    assert(s[m + 1] == t[m]);
                }
            } else {
                assert(r[i] == it[i - 1] && r[j] == it[j - 1]);
            }
        }
        assert(s =~= seq![s[0]] + t);
        assert(r.to_multiset() =~= s.to_multiset().insert(x)) by {
            vstd::seq_lib::lemma_multiset_commutative(seq![s[0]], it);
            vstd::seq_lib::lemma_multiset_commutative(seq![s[0]], t);
            assert((it + seq![s[0]]) =~= it.push(s[0]));
            assert((t + seq![s[0]]) =~= t.push(s[0]));
        }
    }
}

/// Law: the stable sort of a sequence is sorted, and holds the same
/// elements as the sequence, as often.
pub proof fn lemma_stable_sorted_sorted_permutation<T: SortOrder>(s: Seq<T::V>)
    ensures
        is_sorted::<T>(stable_sorted::<T>(s)),
        stable_sorted::<T>(s).to_multiset() == s.to_multiset(),
    decreases s.len(),
{
    if s.len() > 0 {
        lemma_stable_sorted_sorted_permutation::<T>(s.drop_last());
        lemma_insert_sorted_sorted::<T>(stable_sorted::<T>(s.drop_last()), s.last());
        assert(s =~= s.drop_last().push(s.last()));
    } else {
        assert(s.to_multiset() =~= Multiset::empty());
        assert(stable_sorted::<T>(s).to_multiset() =~= Multiset::empty());
    }
}

/// Elements that neither comes before the other rank alike: whatever comes
/// before `b` comes before every `c` that `b` does not come after.
pub open spec fn ranks_alike<T: SortOrder>() -> bool {
    forall|a: T::V, b: T::V, c: T::V|
        #![trigger T::before(a, b), T::before(c, b)]
        T::before(a, b) && !T::before(c, b) ==> T::before(a, c)
}

/// Filtering a concatenation filters each part.
pub proof fn lemma_filter_add<A>(a: Seq<A>, b: Seq<A>, p: spec_fn(A) -> bool)
    ensures
        (a + b).filter(p) == a.filter(p) + b.filter(p),
    decreases b.len(),
{
    reveal(Seq::filter);
    if b.len() == 0 {
        assert(a + b =~= a);
        assert(a.filter(p) + b.filter(p) =~= a.filter(p));
    } else {
        lemma_filter_add(a, b.drop_last(), p);
        assert((a + b).drop_last() =~= a + b.drop_last());
        assert((a + b).last() == b.last());
        if p(b.last()) {
            assert(a.filter(p) + b.filter(p) =~= (a.filter(p) + b.drop_last().filter(p)).push(b.last()));
        } else {
            assert(a.filter(p) + b.filter(p) =~= a.filter(p) + b.drop_last().filter(p));
        }
    }
}

/// Where `insert_sorted` places `x` in `s`.
proof fn lemma_insert_index<T: SortOrder>(s: Seq<T::V>, x: T::V) -> (k: int)
    ensures
        0 <= k <= s.len(),
        forall|j: int| 0 <= j < k ==> !T::before(x, #[trigger] s[j]),
        k < s.len() ==> T::before(x, s[k]),
    decreases s.len(),
{
    if s.len() == 0 || T::before(x, s[0]) {
        0
    } else {
        let t = s.drop_first();
        let k = lemma_insert_index::<T>(t, x);
        assert forall|j: int| 0 <= j < k + 1 implies !T::before(x, #[trigger] s[j]) by {
            if j > 0 {
                assert(s[j] == t[j - 1]);
            }
        }
        if k < t.len() {
            assert(s[k + 1] == t[k]);
        }
        k + 1
    }
}

/// Law: where elements that neither comes before the other rank alike,
/// sorting what a filter keeps gives what the filter keeps of the sorted
/// sequence, in the same order.
pub proof fn lemma_stable_sorted_filter<T: SortOrder>(s: Seq<T::V>, p: spec_fn(T::V) -> bool)
    requires
        ranks_alike::<T>(),
    ensures
        stable_sorted::<T>(s.filter(p)) == stable_sorted::<T>(s).filter(p),
    decreases s.len(),
{
    reveal(Seq::filter);
    if s.len() > 0 {
        let q = s.drop_last();
        let x = s.last();
        lemma_stable_sorted_filter::<T>(q, p);
        lemma_stable_sorted_sorted_permutation::<T>(q);
        let t = stable_sorted::<T>(q);
        let k = lemma_insert_index::<T>(t, x);
        lemma_insert_sorted_at::<T>(t, x, k);
        let lo = t.take(k);
        let hi = t.skip(k);
        assert(t =~= lo + hi);
        assert(t.insert(k, x) =~= lo.push(x) + hi);
        lemma_filter_add(lo, hi, p);
        lemma_filter_add(lo.push(x), hi, p);
        assert(lo.push(x).drop_last() =~= lo);
        let tf = t.filter(p);
        if p(x) {
            assert(s.filter(p).drop_last() =~= q.filter(p));
            assert(s.filter(p).last() == x);
            let lf = lo.filter(p);
            let hf = hi.filter(p);
            let kf = lf.len() as int;
            lo.lemma_filter_len(p);
            hi.lemma_filter_len(p);
            assert forall|j: int| 0 <= j < kf implies !T::before(x, #[trigger] tf[j]) by {
                assert(tf[j] == lf[j]);
                assert(lf.contains(lf[j]));
                lo.lemma_filter_contains_rev(p, lf[j]);
                let m = choose|m: int| 0 <= m < lo.len() && lo[m] == lf[j];
                assert(lo[m] == t[m]);
            }
            if kf < tf.len() {
                assert(tf[kf] == hf[0]);
                assert(hf.contains(hf[0]));
                hi.lemma_filter_contains_rev(p, hf[0]);
                let m = choose|m: int| 0 <= m < hi.len() && hi[m] == hf[0];
                assert(hi[m] == t[k + m]);
                assert(hi[0] == t[k]);
                if m > 0 {
                    assert(!T::before(t[k + m], t[k]));
                    assert(T::before(x, t[k]));
                }
            }
            lemma_insert_sorted_at::<T>(tf, x, kf);
            assert(tf.insert(kf, x) =~= lf.push(x) + hf);
        } else {
            assert(s.filter(p) =~= q.filter(p));
        }
    }
}

} // verus!
