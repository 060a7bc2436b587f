use vstd::prelude::*;
use vstd::set_lib::{lemma_int_range, lemma_len_subset, set_int_range};

verus! {

/// `r` is the smallest positive integer that does not occur in `ids`.
pub open spec fn smallest_free(ids: Seq<usize>, r: int) -> bool {
    &&& r >= 1
    &&& !ids.contains(r as usize)
    &&& forall|k: usize| 1 <= k < r ==> #[trigger] ids.contains(k)
}

/// Whether `x` occurs in `v`.
pub fn contains_usize(v: &Vec<usize>, x: usize) -> (r: bool)
    ensures
        r == v@.contains(x),
{
    let mut i: usize = 0;
    while i < v.len()
        invariant
            i <= v@.len(),
            forall|j: int| 0 <= j < i ==> v@[j] != x,
        decreases v@.len() - i,
    {
        if v[i] == x {
            return true;
        }
        i = i + 1;
    }
    false
}

/// If every integer of `1..c` occurs in `ids`, then `ids` has at least `c - 1` entries.
proof fn lemma_prefix_fits(ids: Seq<usize>, c: int)
    requires
        c >= 1,
        c <= usize::MAX + 1,
        forall|k: usize| 1 <= k < c ==> #[trigger] ids.contains(k),
    ensures
        c - 1 <= ids.len(),
{
    let wide = ids.map_values(|x: usize| x as int);
    let range = set_int_range(1, c);
    lemma_int_range(1, c);
    assert forall|i: int| range.contains(i) implies wide.to_set().contains(i) by {
        assert(ids.contains(i as usize));
        let j = choose|j: int| 0 <= j < ids.len() && ids[j] == i as usize;
        assert(wide[j] == i);
    }
    wide.lemma_cardinality_of_set();
    lemma_len_subset(range, wide.to_set());
}

/// Returns the smallest positive identifier that is not already in use.
pub fn find_free_ids(ids: &Vec<usize>) -> (r: usize)
    requires
        ids@.len() < usize::MAX,
    ensures
        smallest_free(ids@, r as int),
{
    let mut current: usize = 1;
    let mut taken = contains_usize(ids, current);
    while taken
        invariant
            ids@.len() < usize::MAX,
            taken == ids@.contains(current),
            1 <= current <= ids@.len() + 1,
            forall|k: usize| 1 <= k < current ==> #[trigger] ids@.contains(k),
        decreases ids@.len() + 1 - current,
    {
        proof {
            assert forall|k: usize| 1 <= k < current + 1 implies #[trigger] ids@.contains(k) by {
                if k < current {
                    assert(ids@.contains(k));
                }
            }
            lemma_prefix_fits(ids@, current + 1);
        }
        current = current + 1;
        taken = contains_usize(ids, current);
    }
    current
}

} // verus!
