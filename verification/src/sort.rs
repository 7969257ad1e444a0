use vstd::prelude::*;
use vstd::relations::sorted_by;
use vstd::relations::total_ordering;
use vstd::seq_lib::lemma_sorted_unique;
use vstd::seq_lib::to_multiset_build;
use vstd::seq_lib::to_multiset_insert;

verus! {

/// The usual order of the integers.
pub open spec fn ascending() -> spec_fn(int, int) -> bool {
    |a: int, b: int| a <= b
}

/// A sequence of machine integers, read as mathematical ones.
pub open spec fn ints(s: Seq<i32>) -> Seq<int> {
    s.map_values(|v: i32| v as int)
}

/// The order of the integers is total.
pub proof fn lemma_ascending_total()
    ensures
        total_ordering(ascending()),
{
    let r = ascending();
    assert(vstd::relations::reflexive(r));
    assert(vstd::relations::antisymmetric(r));
    assert(vstd::relations::transitive(r));
    assert(vstd::relations::strongly_connected(r));
}

/// A sequence in ascending order that holds the same values as `s`, each as
/// often as `s` does, is `s` sorted.
pub proof fn lemma_sorted_is_sort(s: Seq<int>, t: Seq<int>)
    requires
        sorted_by(t, ascending()),
        t.to_multiset() == s.to_multiset(),
    ensures
        t == s.sort_by(ascending()),
{
    lemma_ascending_total();
    s.lemma_sort_by_ensures(ascending());
    lemma_sorted_unique(t, s.sort_by(ascending()), ascending());
}

/// Sorting keeps the number of values.
pub proof fn lemma_sort_len(s: Seq<int>)
    ensures
        s.sort_by(ascending()).len() == s.len(),
        sorted_by(s.sort_by(ascending()), ascending()),
{
    lemma_ascending_total();
    s.lemma_sort_by_ensures(ascending());
    vstd::seq_lib::to_multiset_len(s);
    vstd::seq_lib::to_multiset_len(s.sort_by(ascending()));
}

/// Returns the values of `v` in ascending order.
pub fn sort_ascending(v: &Vec<i32>) -> (out: Vec<i32>)
    ensures
        ints(out@) == ints(v@).sort_by(ascending()),
{
    let mut out: Vec<i32> = Vec::new();
    let n: usize = v.len();
    let mut k: usize = 0;
    assert(ints(v@.take(0)) =~= ints(out@));
    while k < n
        invariant
            n == v@.len(),
            0 <= k <= n,
            out@.len() == k,
            sorted_by(ints(out@), ascending()),
            ints(out@).to_multiset() == ints(v@.take(k as int)).to_multiset(),
        decreases n - k,
    {
        let value: i32 = v[k];
        let mut pos: usize = 0;
        while pos < k && out[pos] <= value
            invariant
                0 <= pos <= k,
                out@.len() == k,
                forall|i: int| 0 <= i < pos ==> out@[i] <= value,
            decreases k - pos,
        {
            pos = pos + 1;
        }
        let ghost before = out@;
        out.insert(pos, value);
        proof {
            assert(ints(out@) =~= ints(before).insert(pos as int, value as int));
            to_multiset_insert(ints(before), pos as int, value as int);
            assert(ints(v@.take(k + 1)) =~= ints(v@.take(k as int)).push(value as int));
            to_multiset_build(ints(v@.take(k as int)), value as int);
            assert forall|i: int, j: int| 0 <= i < j < out@.len() implies #[trigger] ascending()(
                ints(out@)[i],
                ints(out@)[j],
            ) by {
                if i < pos && j > pos {
                    assert(ascending()(ints(before)[i], ints(before)[j - 1]));
                } else if i > pos {
                    assert(ascending()(ints(before)[i - 1], ints(before)[j - 1]));
                } else if j < pos {
                    assert(ascending()(ints(before)[i], ints(before)[j]));
                } else if i == pos {
                    assert(ascending()(ints(before)[pos as int], ints(before)[j - 1]));
                }
            }
        }
        k = k + 1;
    }
    proof {
        assert(v@.take(n as int) =~= v@);
        lemma_sorted_is_sort(ints(v@), ints(out@));
    }
    out
}

} // verus!
