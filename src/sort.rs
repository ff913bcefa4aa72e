use vstd::prelude::*;

use crate::ranked::Ranked;

verus! {

/// The ranks along `s` never go down.
pub open spec fn sorted_by_rank<T: Ranked>(s: Seq<T>) -> bool {
    forall|a: int, b: int| 0 <= a <= b < s.len() ==> s[a].rank() <= s[b].rank()
}

/// Sorts `v` in place by insertion: each value in turn is carried down past
/// every earlier value that `is_less` puts after it. `is_less` must order
/// values by rank.
pub fn insert_sort<T: Copy + Ranked, F: Fn(T, T) -> bool>(v: &mut [T], is_less: F)
    requires
        forall|a: T, b: T| #[trigger] is_less.requires((a, b)),
        forall|a: T, b: T, r: bool| #[trigger] is_less.ensures((a, b), r) ==> r == (a.rank() < b.rank()),
    ensures
        final(v)@.to_multiset() == old(v)@.to_multiset(),
        sorted_by_rank(final(v)@),
{
    let n = v.len();
    if n > 1 {
        let mut i: usize = 1;
        while i < n
            invariant
                1 <= i <= n,
                v@.len() == n,
                v@.to_multiset() == old(v)@.to_multiset(),
                forall|a: int, b: int| 0 <= a <= b < i ==> v@[a].rank() <= v@[b].rank(),
                forall|a: T, b: T| #[trigger] is_less.requires((a, b)),
                forall|a: T, b: T, r: bool|
                    #[trigger] is_less.ensures((a, b), r) ==> r == (a.rank() < b.rank()),
            decreases n - i,
        {
            let mut j: usize = i;
            while j > 0
                invariant
                    0 <= j <= i < n,
                    v@.len() == n,
                    v@.to_multiset() == old(v)@.to_multiset(),
                    forall|a: int, b: int| 0 <= a <= b < j ==> v@[a].rank() <= v@[b].rank(),
                    forall|a: int, b: int| j <= a <= b <= i ==> v@[a].rank() <= v@[b].rank(),
                    forall|a: int, b: int| 0 <= a < j && j < b <= i ==> v@[a].rank() <= v@[b].rank(),
                    forall|a: T, b: T| #[trigger] is_less.requires((a, b)),
                    forall|a: T, b: T, r: bool|
                        #[trigger] is_less.ensures((a, b), r) ==> r == (a.rank() < b.rank()),
                decreases j,
            {
                let x = v[j];
                let y = v[j - 1];
                if is_less(x, y) {
                    let ghost s0 = v@;
                    v[j] = y;
                    v[j - 1] = x;
                    proof {
                        assert(v@ == s0.update(j as int, y).update(j - 1, x));
                        vstd::seq_lib::to_multiset_update(s0, j as int, y);
                        vstd::seq_lib::to_multiset_update(s0.update(j as int, y), j - 1, x);
                        broadcast use vstd::multiset::group_multiset_axioms;
                        vstd::seq_lib::to_multiset_contains(s0, x);
                        assert(s0[j as int] == x);
                        assert(s0.contains(x));
                        assert(s0.to_multiset().count(x) > 0);
                        assert(v@.to_multiset() =~= s0.to_multiset());
                    }
                }
                j = j - 1;
            }
            i = i + 1;
        }
    }
}

} // verus!
