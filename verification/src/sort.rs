//! Deterministic ordering: one insertion sort, proved once, for every ranked list this crate emits
//! (the findings window, directory rows, drawn nodes, folded edges). Each caller supplies a key type
//! whose strict order is total over the values it sorts, so the sorted result is unique.
use vstd::prelude::*;
use vstd::relations::*;

verus! {

broadcast use {vstd::seq_lib::group_seq_properties, vstd::seq_lib::to_multiset_insert};

/// A key with a strict order. `ties` names the pairs the order does not separate; a list to be
/// sorted must hold no two elements that tie.
pub trait Ranked: Sized {
    spec fn before(self, other: Self) -> bool;

    spec fn ties(self, other: Self) -> bool;

    fn is_before(&self, other: &Self) -> (r: bool)
        ensures
            r == self.before(*other),
    ;

    proof fn lemma_order(a: Self, b: Self, c: Self)
        ensures
            !a.before(a),
            a.before(b) && b.before(c) ==> a.before(c),
            a.before(b) || b.before(a) || a.ties(b),
            a.ties(b) == b.ties(a),
    ;
}

/// `s` is strictly increasing under the key order.
pub open spec fn strictly_sorted<T: Ranked>(s: Seq<T>) -> bool {
    forall|i: int, j: int| 0 <= i < j < s.len() ==> (#[trigger] s[i]).before(#[trigger] s[j])
}

/// No two distinct positions of `s` hold tying keys.
pub open spec fn tie_free<T: Ranked>(s: Seq<T>) -> bool {
    forall|i: int, j: int| 0 <= i < s.len() && 0 <= j < s.len() && i != j ==> !(#[trigger] s[i]).ties(
        #[trigger] s[j],
    )
}

proof fn lemma_from_prefix<T>(v: Seq<T>, i: int, out: Seq<T>, k: int) -> (j: int)
    requires
        0 <= i <= v.len(),
        out.to_multiset() == v.take(i).to_multiset(),
        0 <= k < out.len(),
    ensures
        0 <= j < i,
        v[j] == out[k],
{
    broadcast use vstd::seq_lib::group_to_multiset_ensures;

    assert(out.to_multiset().count(out[k]) > 0);
    assert(v.take(i).contains(out[k]));
    let j = choose|j: int| 0 <= j < v.take(i).len() && v.take(i)[j] == out[k];
    j
}

/// Sorts `v` by its key order. The result holds exactly the elements of `v` and is strictly
/// increasing, which determines it uniquely.
pub fn sort_ranked<T: Ranked>(v: Vec<T>) -> (r: Vec<T>)
    requires
        tie_free(v@),
    ensures
        strictly_sorted(r@),
        r@.to_multiset() == v@.to_multiset(),
        r@.len() == v@.len(),
{
    broadcast use vstd::seq_lib::group_to_multiset_ensures;

    let ghost orig = v@;
    let mut src = v;
    let mut out: Vec<T> = Vec::new();
    let n = src.len();
    let mut i: usize = 0;
    while i < n
        invariant
            n == orig.len(),
            i <= n,
            src@ == orig.skip(i as int),
            out@.to_multiset() == orig.take(i as int).to_multiset(),
            out@.len() == i,
            strictly_sorted(out@),
            tie_free(orig),
        decreases n - i,
    {
        let x = src.remove(0);
        proof {
            assert(x == orig[i as int]);
            assert(src@ =~= orig.skip(i + 1));
        }
        let mut p: usize = 0;
        while p < out.len()
            invariant
                p <= out@.len(),
                forall|k: int| 0 <= k < p ==> !x.before(#[trigger] out@[k]),
            ensures
                p <= out@.len(),
                forall|k: int| 0 <= k < p ==> !x.before(#[trigger] out@[k]),
                p < out@.len() ==> x.before(out@[p as int]),
            decreases out@.len() - p,
        {
            if x.is_before(&out[p]) {
                break;
            }
            p = p + 1;
        }
        proof {
            assert forall|k: int| 0 <= k < out@.len() implies !x.ties(#[trigger] out@[k]) by {
                let j = lemma_from_prefix(orig, i as int, out@, k);
                assert(orig[j] == out@[k]);
                assert(j != i);
            }
        }
        let ghost before_out = out@;
        out.insert(p, x);
        proof {
            assert(out@ =~= before_out.insert(p as int, x));
            assert forall|a: int, b: int| 0 <= a < b < out@.len() implies (#[trigger] out@[a]).before(
                #[trigger] out@[b],
            ) by {
                T::lemma_order(x, x, x);
                if a < p && b == p {
                    let y = before_out[a];
                    T::lemma_order(x, y, y);
                    assert(!x.before(y));
                    assert(!x.ties(y));
                } else if a == p && b > p {
                    let y = before_out[b - 1];
                    if p < before_out.len() {
                        let z = before_out[p as int];
                        assert(x.before(z));
                        if b - 1 > p {
                            assert(z.before(y));
                            T::lemma_order(x, z, y);
                        }
                    }
                } else if a < p && b > p {
                    assert(before_out[a].before(before_out[b - 1]));
                } else if a > p {
                    assert(before_out[a - 1].before(before_out[b - 1]));
                } else {
                    assert(before_out[a].before(before_out[b]));
                }
            }
            assert(orig.take(i + 1) =~= orig.take(i as int).push(x));
            vstd::seq_lib::to_multiset_build(orig.take(i as int), x);
        }
        i = i + 1;
    }
    proof {
        assert(orig.take(n as int) =~= orig);
    }
    out
}

} // verus!
