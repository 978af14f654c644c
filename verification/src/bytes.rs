//! Sorted, deduplicated byte vectors: the universal currency for
//! "which characters are possible" in this crate.

use vstd::prelude::*;

verus! {

/// A byte set is represented as a strictly increasing sequence:
/// sorted and free of duplicates.
pub open spec fn strictly_sorted(s: Seq<u8>) -> bool {
    forall|i: int, j: int| 0 <= i < j < s.len() ==> s[i] < s[j]
}

/// A strictly increasing sequence has no duplicates.
pub proof fn lemma_strictly_sorted_no_duplicates(s: Seq<u8>)
    requires
        strictly_sorted(s),
    ensures
        s.no_duplicates(),
{
}

/// Two strictly increasing sequences that hold the same set of bytes are equal.
pub proof fn lemma_strictly_sorted_same_set(x: Seq<u8>, y: Seq<u8>)
    requires
        strictly_sorted(x),
        strictly_sorted(y),
        x.to_set() == y.to_set(),
    ensures
        x == y,
    decreases x.len(),
{
    if x.len() == 0 {
        if y.len() > 0 {
            assert(x.to_set().contains(y[0]));
            assert(false);
        }
        assert(x =~= y);
    } else if y.len() == 0 {
        assert(y.to_set().contains(x[0]));
        assert(false);
    } else {
        // Both heads are the unique minimum of the common set.
        assert(x.to_set().contains(y[0]));
        assert(y.to_set().contains(x[0]));
        let i = choose|i: int| 0 <= i < x.len() && x[i] == y[0];
        let j = choose|j: int| 0 <= j < y.len() && y[j] == x[0];
        assert(x[0] <= x[i]);
        assert(y[0] <= y[j]);
        assert(x[0] == y[0]);
        assert(x.drop_first().to_set() =~= x.to_set().remove(x[0])) by {
            assert forall|e: u8| x.drop_first().to_set().contains(e)
                implies x.to_set().remove(x[0]).contains(e) by {
                let k = choose|k: int| 0 <= k < x.drop_first().len() && x.drop_first()[k] == e;
                assert(x[k + 1] == e);
            }
            assert forall|e: u8| x.to_set().remove(x[0]).contains(e)
                implies x.drop_first().to_set().contains(e) by {
                let k = choose|k: int| 0 <= k < x.len() && x[k] == e;
                assert(k != 0);
                assert(x.drop_first()[k - 1] == e);
            }
        }
        assert(y.drop_first().to_set() =~= y.to_set().remove(y[0])) by {
            assert forall|e: u8| y.drop_first().to_set().contains(e)
                implies y.to_set().remove(y[0]).contains(e) by {
                let k = choose|k: int| 0 <= k < y.drop_first().len() && y.drop_first()[k] == e;
                assert(y[k + 1] == e);
            }
            assert forall|e: u8| y.to_set().remove(y[0]).contains(e)
                implies y.drop_first().to_set().contains(e) by {
                let k = choose|k: int| 0 <= k < y.len() && y[k] == e;
                assert(k != 0);
                assert(y.drop_first()[k - 1] == e);
            }
        }
        lemma_strictly_sorted_same_set(x.drop_first(), y.drop_first());
        assert(x =~= seq![x[0]] + x.drop_first());
        assert(y =~= seq![y[0]] + y.drop_first());
    }
}

/// In a strictly increasing sequence every entry is at least its index.
pub proof fn lemma_strictly_sorted_index_lb(s: Seq<u8>, k: int)
    requires
        strictly_sorted(s),
        0 <= k < s.len(),
    ensures
        s[k] >= k,
    decreases k,
{
    if k > 0 {
        lemma_strictly_sorted_index_lb(s, k - 1);
    }
}

/// A strictly increasing byte sequence has at most 256 entries.
pub proof fn lemma_strictly_sorted_len(s: Seq<u8>)
    requires
        strictly_sorted(s),
    ensures
        s.len() <= 256,
{
    if s.len() > 256 {
        lemma_strictly_sorted_index_lb(s, 256);
        assert(false);
    }
}

/// Insert a byte into a sorted deduplicated vector, keeping it sorted
/// and deduplicated; inserting a byte already present changes nothing.
pub fn insert_sorted(v: &mut Vec<u8>, c: u8)
    requires
        strictly_sorted(old(v)@),
        old(v)@.len() < usize::MAX,
    ensures
        strictly_sorted(final(v)@),
        final(v)@.to_set() == old(v)@.to_set().insert(c),
        old(v)@.to_set().contains(c) ==> final(v)@ == old(v)@,
{
    let ghost orig = v@;
    let mut i: usize = 0;
    while i < v.len() && v[i] < c
        invariant
            strictly_sorted(v@),
            v@ == orig,
            i <= v@.len(),
            forall|k: int| 0 <= k < i ==> v@[k] < c,
        decreases v@.len() - i,
    {
        i = i + 1;
    }
    if i < v.len() && v[i] == c {
        proof {
            assert(v@.to_set().contains(c));
            assert(v@.to_set() =~= v@.to_set().insert(c));
        }
    } else {
        proof {
            if orig.to_set().contains(c) {
                let k = choose|k: int| 0 <= k < orig.len() && orig[k] == c;
                assert(k < i ==> orig[k] < c);
                assert(k >= i && i < orig.len() ==> orig[k] >= orig[i as int] && orig[i as int] > c);
                assert(false);
            }
        }
        v.insert(i, c);
        proof {
            assert(forall|k: int| 0 <= k < i ==> v@[k] == orig[k]);
            assert(forall|k: int| i < k < v@.len() ==> v@[k] == orig[k - 1]);
            assert forall|k: int| i < k < v@.len() implies v@[k] > c by {
                assert(v@[k] == orig[k - 1]);
                assert(i < orig.len());
                assert(k - 1 >= i ==> orig[k - 1] >= orig[i as int]);
            }
            assert(strictly_sorted(v@));
            assert(v@.to_set() =~= orig.to_set().insert(c)) by {
                assert forall|e: u8| v@.to_set().contains(e)
                    implies orig.to_set().insert(c).contains(e) by {
                    let k = choose|k: int| 0 <= k < v@.len() && v@[k] == e;
                    if k < i {
                        assert(orig[k] == e);
                    } else if k > i {
                        assert(orig[k - 1] == e);
                    }
                }
                assert forall|e: u8| orig.to_set().insert(c).contains(e)
                    implies v@.to_set().contains(e) by {
                    if e == c {
                        assert(v@[i as int] == c);
                    } else {
                        let k = choose|k: int| 0 <= k < orig.len() && orig[k] == e;
                        if k < i {
                            assert(v@[k] == e);
                        } else {
                            assert(v@[k + 1] == e);
                        }
                    }
                }
            }
        }
    }
}

} // verus!
