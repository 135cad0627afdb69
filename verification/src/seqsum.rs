use vstd::prelude::*;

verus! {

/// Sum of `f` over the elements of `s`, in order.
pub open spec fn seq_sum(s: Seq<usize>, f: spec_fn(usize) -> int) -> int
    decreases s.len(),
{
    if s.len() == 0 {
        0
    } else {
        f(s[0]) + seq_sum(s.drop_first(), f)
    }
}

/// Sum of `f` over the indices `0 .. n`.
pub open spec fn range_sum(n: nat, f: spec_fn(usize) -> int) -> int
    decreases n,
{
    if n == 0 {
        0
    } else {
        range_sum((n - 1) as nat, f) + f((n - 1) as usize)
    }
}

/// Removing one element removes exactly its contribution from the sum.
pub proof fn lemma_seq_sum_remove(s: Seq<usize>, f: spec_fn(usize) -> int, i: int)
    requires
        0 <= i < s.len(),
    ensures
        seq_sum(s.remove(i), f) == seq_sum(s, f) - f(s[i]),
    decreases s.len(),
{
    if i == 0 {
        assert(s.remove(0) =~= s.drop_first());
    } else {
        assert(s.remove(i).drop_first() =~= s.drop_first().remove(i - 1));
        lemma_seq_sum_remove(s.drop_first(), f, i - 1);
        assert(s.remove(i)[0] == s[0]);
        assert(s.drop_first()[i - 1] == s[i]);
    }
}

/// Removing an element keeps a sequence duplicate-free and keeps every
/// other value it contains.
pub proof fn lemma_remove_keeps(s: Seq<usize>, i: int)
    requires
        0 <= i < s.len(),
        s.no_duplicates(),
    ensures
        s.remove(i).no_duplicates(),
        forall|j: usize| #[trigger] s.remove(i).contains(j) <==> (s.contains(j) && j != s[i]),
{
    let s2 = s.remove(i);
    assert forall|p: int, q: int| 0 <= p < q < s2.len() implies s2[p] != s2[q] by {
        assert(s2[p] == if p < i { s[p] } else { s[p + 1] });
        assert(s2[q] == if q < i { s[q] } else { s[q + 1] });
    }
    assert forall|j: usize| #[trigger] s2.contains(j) implies (s.contains(j) && j != s[i]) by {
        let k = choose|k: int| 0 <= k < s2.len() && s2[k] == j;
        if k < i {
            assert(s[k] == j);
        } else {
            assert(s[k + 1] == j);
        }
    }
    assert forall|j: usize| s.contains(j) && j != s[i] implies #[trigger] s2.contains(j) by {
        let k = choose|k: int| 0 <= k < s.len() && s[k] == j;
        if k < i {
            assert(s2[k] == j);
        } else {
            assert(s2[k - 1] == j);
        }
    }
}

/// A duplicate-free sequence whose elements lie below `n` has at most `n`
/// elements.
pub proof fn lemma_nodup_bounded_len(s: Seq<usize>, n: nat)
    requires
        n <= usize::MAX,
        s.no_duplicates(),
        forall|k: int| 0 <= k < s.len() ==> (#[trigger] s[k] as int) < n,
    ensures
        s.len() <= n,
    decreases n,
{
    if n == 0 {
        if s.len() > 0 {
            assert((s[0] as int) < 0);
        }
    } else {
        let m = (n - 1) as usize;
        if s.contains(m) {
            let i = choose|i: int| 0 <= i < s.len() && s[i] == m;
            let s2 = s.remove(i);
            lemma_remove_keeps(s, i);
            assert forall|k: int| 0 <= k < s2.len() implies (#[trigger] s2[k] as int) < n - 1 by {
                assert(s2.contains(s2[k]));
                assert(s2[k] != m);
            }
            lemma_nodup_bounded_len(s2, (n - 1) as nat);
        } else {
            assert forall|k: int| 0 <= k < s.len() implies (#[trigger] s[k] as int) < n - 1 by {
                assert(s.contains(s[k]));
            }
            lemma_nodup_bounded_len(s, (n - 1) as nat);
        }
    }
}

/// A duplicate-free sequence with elements below `n` that contains every
/// index where `f` is not zero sums `f` to the same value as `0 .. n` does.
pub proof fn lemma_seq_sum_complete(s: Seq<usize>, f: spec_fn(usize) -> int, n: nat)
    requires
        n <= usize::MAX,
        s.no_duplicates(),
        forall|k: int| 0 <= k < s.len() ==> (#[trigger] s[k] as int) < n,
        forall|j: usize| (j as int) < n && #[trigger] f(j) != 0 ==> s.contains(j),
    ensures
        seq_sum(s, f) == range_sum(n, f),
    decreases n,
{
    if n == 0 {
        if s.len() > 0 {
            assert((s[0] as int) < 0);
        }
    } else {
        let m = (n - 1) as usize;
        if s.contains(m) {
            let i = choose|i: int| 0 <= i < s.len() && s[i] == m;
            let s2 = s.remove(i);
            lemma_seq_sum_remove(s, f, i);
            lemma_remove_keeps(s, i);
            assert forall|k: int| 0 <= k < s2.len() implies (#[trigger] s2[k] as int) < n - 1 by {
                assert(s2.contains(s2[k]));
                assert(s2[k] != m);
            }
            assert forall|j: usize| (j as int) < n - 1 && #[trigger] f(j) != 0 implies s2.contains(j) by {
                assert(s.contains(j));
            }
            lemma_seq_sum_complete(s2, f, (n - 1) as nat);
        } else {
            assert(f(m) == 0) by {
                if f(m) != 0 {
                    assert(s.contains(m));
                }
            }
            assert forall|k: int| 0 <= k < s.len() implies (#[trigger] s[k] as int) < n - 1 by {
                assert(s.contains(s[k]));
            }
            lemma_seq_sum_complete(s, f, (n - 1) as nat);
        }
    }
}

/// Pushing an element onto a sequence adds its contribution to the sum.
pub proof fn lemma_seq_sum_push(s: Seq<usize>, f: spec_fn(usize) -> int, x: usize)
    ensures
        seq_sum(s.push(x), f) == seq_sum(s, f) + f(x),
    decreases s.len(),
{
    if s.len() == 0 {
        assert(s.push(x).len() == 1);
        assert(s.push(x)[0] == x);
        assert(s.push(x).drop_first() =~= Seq::<usize>::empty());
        assert(seq_sum(s.push(x), f) == f(x) + seq_sum(s.push(x).drop_first(), f));
    } else {
        assert(s.push(x).drop_first() =~= s.drop_first().push(x));
        lemma_seq_sum_push(s.drop_first(), f, x);
        assert(s.push(x)[0] == s[0]);
        assert(seq_sum(s.push(x), f) == f(s[0]) + seq_sum(s.push(x).drop_first(), f));
    }
}

} // verus!
