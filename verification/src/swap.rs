//! Swapping two elements of a vector.

use vstd::prelude::*;

verus! {

/// `s` with the elements at `i` and `j` swapped.
pub open spec fn swapped<T>(s: Seq<T>, i: int, j: int) -> Seq<T> {
    s.update(i, s[j]).update(j, s[i])
}

/// A swap keeps the elements of the sequence, each as often as before.
pub proof fn lemma_swapped_multiset<T>(s: Seq<T>, i: int, j: int)
    requires
        0 <= i < s.len(),
        0 <= j < s.len(),
    ensures
        swapped(s, i, j).to_multiset() == s.to_multiset(),
{
    broadcast use vstd::seq_lib::to_multiset_update;

    let t = s.update(i, s[j]);
    assert(t.to_multiset() == s.to_multiset().insert(s[j]).remove(s[i]));
    assert(swapped(s, i, j).to_multiset() == t.to_multiset().insert(s[i]).remove(t[j]));
    if i == j {
        assert(swapped(s, i, j) =~= s);
    } else {
        assert(t[j] == s[j]);
        assert(s.to_multiset().count(s[i]) > 0) by {
            s.to_multiset_ensures();
            assert(s.contains(s[i]));
        }
        assert(s.to_multiset().count(s[j]) > 0) by {
            s.to_multiset_ensures();
            assert(s.contains(s[j]));
        }
        assert(s.to_multiset().insert(s[j]).remove(s[i]).insert(s[i]).remove(s[j])
            =~= s.to_multiset());
    }
}

/// Swaps the elements at `i` and `j`.
pub fn swap_elements<T>(v: &mut Vec<T>, i: usize, j: usize)
    requires
        i < old(v)@.len(),
        j < old(v)@.len(),
    ensures
        final(v)@ == swapped(old(v)@, i as int, j as int),
{
    if i < j {
        let (head, tail) = v.as_mut_slice().split_at_mut(j);
        core::mem::swap(&mut head[i], &mut tail[0]);
    } else if j < i {
        let (head, tail) = v.as_mut_slice().split_at_mut(i);
        core::mem::swap(&mut head[j], &mut tail[0]);
    }
    proof {
        assert(v@ =~= swapped(old(v)@, i as int, j as int));
    }
}

} // verus!
