//! Greedy left-to-right rewriting: every non-overlapping occurrence of one
//! pair is collapsed into a single replacement unit, and scanning resumes
//! after the replacement.

use vstd::prelude::*;

use crate::pairs::pair_count;
use crate::pairs::Pair;

verus! {

/// `s` with every non-overlapping, left-to-right occurrence of `p` replaced
/// by `idx`: `[x, x, x]` under pair `(x, x)` becomes `[idx, x]`.
pub open spec fn merge_full(s: Seq<i32>, p: Pair, idx: i32) -> Seq<i32>
    decreases s.len(),
{
    if s.len() < 2 {
        s
    } else if s[0] == p.0 && s[1] == p.1 {
        seq![idx] + merge_full(s.skip(2), p, idx)
    } else {
        seq![s[0]] + merge_full(s.skip(1), p, idx)
    }
}

/// Unfolds [`merge_full`] on the tail of `s` starting at `i`.
pub proof fn lemma_merge_full_step(s: Seq<i32>, p: Pair, idx: i32, i: int)
    requires
        0 <= i <= s.len(),
    ensures
        i + 2 <= s.len() && s[i] == p.0 && s[i + 1] == p.1 ==> merge_full(s.skip(i), p, idx)
            == seq![idx] + merge_full(s.skip(i + 2), p, idx),
        i + 2 <= s.len() && !(s[i] == p.0 && s[i + 1] == p.1) ==> merge_full(s.skip(i), p, idx)
            == seq![s[i]] + merge_full(s.skip(i + 1), p, idx),
        i + 2 > s.len() ==> merge_full(s.skip(i), p, idx) == s.skip(i),
{
    if i + 2 <= s.len() {
        assert(s.skip(i)[0] == s[i]);
        assert(s.skip(i)[1] == s[i + 1]);
        assert(s.skip(i).skip(2) =~= s.skip(i + 2));
        assert(s.skip(i).skip(1) =~= s.skip(i + 1));
    } else {
        assert(s.skip(i).len() < 2);
    }
}

/// Rewriting never lengthens a sequence, and strictly shortens it whenever
/// the pair occurs at all.
pub proof fn lemma_merge_shrinks(s: Seq<i32>, p: Pair, idx: i32)
    ensures
        merge_full(s, p, idx).len() <= s.len(),
        pair_count(s, p) >= 1 ==> merge_full(s, p, idx).len() < s.len(),
    decreases s.len(),
{
    if s.len() < 2 {
    } else if s[0] == p.0 && s[1] == p.1 {
        lemma_merge_shrinks(s.skip(2), p, idx);
    } else {
        lemma_merge_shrinks(s.skip(1), p, idx);
    }
}

/// Every unit of the rewritten sequence is the replacement unit or a unit of
/// the original sequence.
pub proof fn lemma_merge_elements(s: Seq<i32>, p: Pair, idx: i32)
    ensures
        forall|t: int|
            0 <= t < merge_full(s, p, idx).len() ==> merge_full(s, p, idx)[t] == idx
                || s.contains(#[trigger] merge_full(s, p, idx)[t]),
    decreases s.len(),
{
    let m = merge_full(s, p, idx);
    if s.len() < 2 {
        assert forall|t: int| 0 <= t < m.len() implies m[t] == idx || s.contains(#[trigger] m[t]) by {
            assert(s[t] == m[t]);
        }
    } else if s[0] == p.0 && s[1] == p.1 {
        lemma_merge_elements(s.skip(2), p, idx);
        let m2 = merge_full(s.skip(2), p, idx);
        assert forall|t: int| 0 <= t < m.len() implies m[t] == idx || s.contains(#[trigger] m[t]) by {
            if t == 0 {
                assert(m[0] == idx);
            } else {
                assert(m[t] == m2[t - 1]);
                if m2[t - 1] != idx {
                    let u = choose|u: int| 0 <= u < s.skip(2).len() && s.skip(2)[u] == m2[t - 1];
                    assert(s[u + 2] == m2[t - 1]);
                }
            }
        }
    } else {
        lemma_merge_elements(s.skip(1), p, idx);
        let m2 = merge_full(s.skip(1), p, idx);
        assert forall|t: int| 0 <= t < m.len() implies m[t] == idx || s.contains(#[trigger] m[t]) by {
            if t == 0 {
                assert(m[0] == s[0]);
                assert(s.contains(s[0]));
            } else {
                assert(m[t] == m2[t - 1]);
                if m2[t - 1] != idx {
                    let u = choose|u: int| 0 <= u < s.skip(1).len() && s.skip(1)[u] == m2[t - 1];
                    assert(s[u + 1] == m2[t - 1]);
                }
            }
        }
    }
}

/// The rewritten sequence keeps the original's head, unless the head was
/// merged away into the replacement unit.
pub proof fn lemma_merge_head(s: Seq<i32>, p: Pair, idx: i32)
    requires
        s.len() > 0,
    ensures
        merge_full(s, p, idx).len() > 0,
        merge_full(s, p, idx)[0] == idx || merge_full(s, p, idx)[0] == s[0],
{
    if s.len() < 2 {
    } else if s[0] == p.0 && s[1] == p.1 {
        assert(merge_full(s, p, idx)[0] == idx);
    } else {
        assert(merge_full(s, p, idx)[0] == s[0]);
    }
}

/// Rewriting removes every occurrence of the rewritten pair, provided the
/// replacement unit is not one of the pair's own units.
pub proof fn lemma_merge_removes_pair(s: Seq<i32>, p: Pair, idx: i32)
    requires
        idx != p.0,
        idx != p.1,
    ensures
        pair_count(merge_full(s, p, idx), p) == 0,
    decreases s.len(),
{
    let m = merge_full(s, p, idx);
    if s.len() < 2 {
    } else if s[0] == p.0 && s[1] == p.1 {
        let m2 = merge_full(s.skip(2), p, idx);
        lemma_merge_removes_pair(s.skip(2), p, idx);
        assert(m.skip(1) =~= m2);
        assert(m[0] == idx);
    } else {
        let m2 = merge_full(s.skip(1), p, idx);
        lemma_merge_removes_pair(s.skip(1), p, idx);
        assert(m.skip(1) =~= m2);
        assert(m[0] == s[0]);
        if m.len() >= 2 && m[0] == p.0 && m[1] == p.1 {
            assert(m[1] == m2[0]);
            assert(s.skip(1).len() > 0);
            lemma_merge_head(s.skip(1), p, idx);
            assert(m2[0] == idx || m2[0] == s[1]);
            assert(false);
        }
    }
}

/// Rewriting one pair never creates occurrences of a different pair that
/// avoids the replacement unit.
pub proof fn lemma_merge_count_mono(s: Seq<i32>, q: Pair, p: Pair, idx: i32)
    requires
        q != p,
        q.0 != idx,
        q.1 != idx,
    ensures
        pair_count(merge_full(s, p, idx), q) <= pair_count(s, q),
    decreases s.len(),
{
    let m = merge_full(s, p, idx);
    if s.len() < 2 {
    } else if s[0] == p.0 && s[1] == p.1 {
        let m2 = merge_full(s.skip(2), p, idx);
        lemma_merge_count_mono(s.skip(2), q, p, idx);
        assert(m.skip(1) =~= m2);
        assert(m[0] == idx);
        assert(pair_count(s.skip(2), q) <= pair_count(s.skip(1), q)) by {
            lemma_pair_count_skip_of_skip(s, q);
        }
    } else {
        let m2 = merge_full(s.skip(1), p, idx);
        lemma_merge_count_mono(s.skip(1), q, p, idx);
        assert(m.skip(1) =~= m2);
        assert(m[0] == s[0]);
        if m.len() >= 2 && m[0] == q.0 && m[1] == q.1 {
            assert(m[1] == m2[0]);
            assert(s.skip(1).len() > 0);
            lemma_merge_head(s.skip(1), p, idx);
            assert(m2[0] == s[1]);
            assert(s[0] == q.0 && s[1] == q.1);
        }
    }
}

/// The tail-of-tail counts no more than the tail.
proof fn lemma_pair_count_skip_of_skip(s: Seq<i32>, q: Pair)
    requires
        s.len() >= 2,
    ensures
        pair_count(s.skip(2), q) <= pair_count(s.skip(1), q),
{
    if s.len() == 2 {
        assert(s.skip(1).len() < 2);
        assert(s.skip(2).len() < 2);
    } else {
        assert(s.skip(1).skip(1) =~= s.skip(2));
        assert(s.skip(1).len() >= 2);
    }
}

/// Rewrites `units`, replacing every non-overlapping left-to-right occurrence
/// of `pair` with the unit `idx`.
pub fn merge(units: &Vec<i32>, pair: Pair, idx: i32) -> (r: Vec<i32>)
    ensures
        r@ == merge_full(units@, pair, idx),
{
    let n = units.len();
    let mut out: Vec<i32> = Vec::new();
    let mut i: usize = 0;
    proof {
        assert(units@.skip(0) =~= units@);
    }
    while i < n
        invariant
            n == units@.len(),
            i <= n,
            out@ + merge_full(units@.skip(i as int), pair, idx) == merge_full(units@, pair, idx),
        decreases n - i,
    {
        let ghost out0 = out@;
        proof {
            lemma_merge_full_step(units@, pair, idx, i as int);
        }
        if i < n - 1 && units[i] == pair.0 && units[i + 1] == pair.1 {
            out.push(idx);
            proof {
                assert(out@ + merge_full(units@.skip(i as int + 2), pair, idx) =~= out0
                    + merge_full(units@.skip(i as int), pair, idx));
            }
            i = i + 2;
        } else {
            out.push(units[i]);
            proof {
                if i as int + 2 > units@.len() {
                    assert(units@.skip(i as int) =~= seq![units@[i as int]]);
                    assert(merge_full(units@.skip(i as int), pair, idx) == units@.skip(i as int));
                    assert(units@.skip(i as int + 1) =~= Seq::<i32>::empty());
                    assert(merge_full(units@.skip(i as int + 1), pair, idx) =~= Seq::<
                        i32,
                    >::empty());
                }
                assert(out@ + merge_full(units@.skip(i as int + 1), pair, idx) =~= out0
                    + merge_full(units@.skip(i as int), pair, idx));
            }
            i = i + 1;
        }
    }
    proof {
        assert(units@.skip(n as int) =~= Seq::<i32>::empty());
        assert(out@ + merge_full(units@.skip(n as int), pair, idx) =~= out@);
    }
    out
}

} // verus!
