//! Counting facts about sequences.

use vstd::prelude::*;

verus! {

/// At most `n` numbers below `n` are distinct.
pub proof fn lemma_distinct_below(s: Seq<int>, n: nat)
    requires
        s.no_duplicates(),
        forall|i: int| 0 <= i < s.len() ==> 0 <= (#[trigger] s[i]) < n,
    ensures
        s.len() <= n,
    decreases n,
{
    if n == 0 {
        if s.len() > 0 {
            assert(s[0] < n);
        }
    } else {
        let top = n - 1;
        if s.contains(top) {
            let i = choose|i: int| 0 <= i < s.len() && s[i] == top;
            let t = s.remove(i);
            assert forall|k: int| 0 <= k < t.len() implies 0 <= (#[trigger] t[k]) < n - 1 by {
                let j = if k < i { k } else { k + 1 };
                assert(t[k] == s[j]);
                assert(s[j] != top);
            }
            assert forall|a: int, b: int|
                0 <= a < t.len() && 0 <= b < t.len() && a != b implies t[a] != t[b] by {
                let x = if a < i { a } else { a + 1 };
                let y = if b < i { b } else { b + 1 };
                assert(t[a] == s[x] && t[b] == s[y]);
            }
            lemma_distinct_below(t, (n - 1) as nat);
        } else {
            assert forall|k: int| 0 <= k < s.len() implies 0 <= (#[trigger] s[k]) < n - 1 by {
                if s[k] == top {
                    assert(s.contains(s[k]));
                }
            }
            lemma_distinct_below(s, (n - 1) as nat);
        }
    }
}

/// At most `n` indices below `n` are distinct.
pub proof fn lemma_distinct_indices(s: Seq<usize>, n: nat)
    requires
        s.no_duplicates(),
        forall|i: int| 0 <= i < s.len() ==> (#[trigger] s[i]) < n,
    ensures
        s.len() <= n,
{
    let t = Seq::new(s.len(), |i: int| s[i] as int);
    lemma_distinct_below(t, n);
}

/// At most `n` vertex numbers below `n` are distinct.
pub proof fn lemma_distinct_vertices(s: Seq<u32>, n: nat)
    requires
        s.no_duplicates(),
        forall|i: int| 0 <= i < s.len() ==> (#[trigger] s[i]) < n,
    ensures
        s.len() <= n,
{
    let t = Seq::new(s.len(), |i: int| s[i] as int);
    lemma_distinct_below(t, n);
}

} // verus!
