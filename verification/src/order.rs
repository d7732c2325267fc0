//! Small verified sorting helpers for integer label vectors, stated against
//! vstd's mathematical `sort_by`.

use vstd::prelude::*;
use vstd::relations::{sorted_by, total_ordering};

verus! {

broadcast use vstd::seq_lib::group_to_multiset_ensures;

/// The ascending order on `i64`.
pub open spec fn le_i64() -> spec_fn(i64, i64) -> bool {
    |x: i64, y: i64| x <= y
}

/// `le_i64` is a total order.
pub proof fn lemma_le_i64_total()
    ensures
        total_ordering(le_i64()),
{
    let r = le_i64();
    assert(vstd::relations::reflexive(r));
    assert(vstd::relations::antisymmetric(r));
    assert(vstd::relations::transitive(r));
    assert(vstd::relations::strongly_connected(r));
}

/// A sequence sorted ascending with the same elements as `s` is `s`'s sort.
pub proof fn lemma_is_the_sort(s: Seq<i64>, t: Seq<i64>)
    requires
        t.to_multiset() == s.to_multiset(),
        sorted_by(t, le_i64()),
    ensures
        t == s.sort_by(le_i64()),
{
    lemma_le_i64_total();
    s.lemma_sort_by_ensures(le_i64());
    vstd::seq_lib::lemma_sorted_unique(t, s.sort_by(le_i64()), le_i64());
}

/// Exchanging two entries keeps the multiset of a sequence.
pub proof fn lemma_swap_multiset<A>(s: Seq<A>, i: int, j: int)
    requires
        0 <= i < s.len(),
        0 <= j < s.len(),
    ensures
        s.update(i, s[j]).update(j, s[i]).to_multiset() == s.to_multiset(),
{
    broadcast use vstd::multiset::group_multiset_axioms;

    let s1 = s.update(i, s[j]);
    assert(s1.to_multiset() == s.to_multiset().insert(s[j]).remove(s[i]));
    assert(s1.update(j, s[i]).to_multiset() == s1.to_multiset().insert(s[i]).remove(s1[j]));
    if i == j {
        assert(s.update(i, s[j]).update(j, s[i]) =~= s);
    } else {
        assert(s1[j] == s[j]);
        assert(s.to_multiset().insert(s[j]).remove(s[i]).insert(s[i]).remove(s[j])
            =~= s.to_multiset());
    }
}

/// Sort a vector of integers ascending in place (insertion sort by adjacent
/// exchanges).
pub fn sort_ascending(v: &mut Vec<i64>)
    ensures
        final(v)@ == old(v)@.sort_by(le_i64()),
        final(v)@.len() == old(v)@.len(),
        final(v)@.to_multiset() == old(v)@.to_multiset(),
        sorted_by(final(v)@, le_i64()),
{
    let n = v.len();
    let ghost orig = v@;
    let mut i: usize = 1;
    if n == 0 {
        proof {
            lemma_is_the_sort(orig, v@);
        }
        return;
    }
    while i < n
        invariant
            1 <= i <= n == v.len(),
            v@.to_multiset() == orig.to_multiset(),
            forall|a: int, b: int| 0 <= a < b < i ==> v@[a] <= v@[b],
        decreases n - i,
    {
        let mut j: usize = i;
        while j > 0 && v[j - 1] > v[j]
            invariant
                0 <= j <= i < n == v.len(),
                v@.to_multiset() == orig.to_multiset(),
                forall|a: int, b: int| 0 <= a < b < j ==> v@[a] <= v@[b],
                forall|a: int, b: int| j <= a < b <= i ==> v@[a] <= v@[b],
                forall|a: int, b: int| 0 <= a < j && j < b <= i ==> v@[a] <= v@[b],
            decreases j,
        {
            let x = v[j];
            let y = v[j - 1];
            proof {
                lemma_swap_multiset(v@, j as int, (j - 1) as int);
            }
            v.set(j, y);
            v.set(j - 1, x);
            j = j - 1;
        }
        i = i + 1;
    }
    proof {
        assert(sorted_by(v@, le_i64()));
        lemma_is_the_sort(orig, v@);
    }
}

} // verus!
