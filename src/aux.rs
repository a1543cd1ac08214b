use crate::number::Real;
use vstd::prelude::*;

verus! {

/// Index of the first largest of the first `n` values of `v` (0 for none):
/// scanning left to right, a value replaces the current best only when the
/// best is strictly below it.
pub open spec fn first_max<R: Real>(v: Seq<R>, n: int) -> int
    decreases n,
{
    if n <= 1 {
        0
    } else {
        let c = first_max(v, n - 1);
        if v[c].lt_spec(v[n - 1]) {
            n - 1
        } else {
            c
        }
    }
}

pub proof fn lemma_first_max_in_range<R: Real>(v: Seq<R>, n: int)
    ensures
        n >= 1 ==> 0 <= first_max(v, n) < n,
        n <= 1 ==> first_max(v, n) == 0,
    decreases n,
{
    if n > 1 {
        lemma_first_max_in_range(v, n - 1);
    }
}

/// `lt_spec` orders the first `n` values of `v` strictly and totally.
pub open spec fn strictly_ordered<R: Real>(v: Seq<R>, n: int) -> bool {
    &&& forall|i: int| 0 <= i < n ==> !(#[trigger] v[i]).lt_spec(v[i])
    &&& forall|i: int, j: int, k: int|
        0 <= i < n && 0 <= j < n && 0 <= k < n && (#[trigger] v[i].lt_spec(v[j])) && (#[trigger] v[j].lt_spec(v[k]))
            ==> v[i].lt_spec(v[k])
    &&& forall|i: int, j: int|
        0 <= i < n && 0 <= j < n ==> v[i] == v[j] || #[trigger] v[i].lt_spec(v[j]) || v[j].lt_spec(v[i])
}

/// Where the values are strictly and totally ordered (floats without NaN),
/// `first_max` is the first index of the largest value: no value is above
/// it, and every value before it is below it.
pub proof fn lemma_first_max_is_first_largest<R: Real>(v: Seq<R>, n: int)
    requires
        1 <= n <= v.len(),
        strictly_ordered(v, n),
    ensures
        forall|j: int| 0 <= j < n ==> !v[first_max(v, n)].lt_spec(#[trigger] v[j]),
        forall|i: int| 0 <= i < first_max(v, n) ==> (#[trigger] v[i]).lt_spec(v[first_max(v, n)]),
    decreases n,
{
    lemma_first_max_in_range(v, n);
    if n > 1 {
        let c = first_max(v, n - 1);
        lemma_first_max_in_range(v, n - 1);
        assert(strictly_ordered(v, n - 1));
        lemma_first_max_is_first_largest(v, n - 1);
        if v[c].lt_spec(v[n - 1]) {
            assert forall|j: int| 0 <= j < n implies !v[n - 1].lt_spec(#[trigger] v[j]) by {
                if j < n - 1 && v[n - 1].lt_spec(v[j]) {
                    assert(v[c].lt_spec(v[j]));
                }
            }
            assert forall|i: int| 0 <= i < n - 1 implies (#[trigger] v[i]).lt_spec(v[n - 1]) by {
                if i < c {
                    assert(v[i].lt_spec(v[c]));
                } else if i > c {
                    assert(!v[c].lt_spec(v[i]));
                    assert(v[i] == v[c] || v[i].lt_spec(v[c]));
                }
            }
        }
    }
}

/// Index of the first largest value of `vec` (0 when `vec` is empty): a
/// later value replaces the current best only when it is strictly larger.
pub fn maxf_idx<R: Real>(vec: &Vec<R>) -> (r: usize)
    ensures
        vec@.len() > 0 ==> r < vec@.len(),
        r == first_max(vec@, vec@.len() as int),
{
    let mut c_idx: usize = 0;
    let mut i: usize = 0;
    while i < vec.len()
        invariant
            i <= vec@.len(),
            c_idx == first_max(vec@, i as int),
            i > 0 ==> c_idx < i,
            i == 0 ==> c_idx == 0,
        decreases vec@.len() - i,
    {
        proof {
            lemma_first_max_in_range(vec@, i as int);
        }
        if vec[c_idx].less_than(vec[i]) {
            c_idx = i;
        }
        i = i + 1;
    }
    c_idx
}

} // verus!
