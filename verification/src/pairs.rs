//! Adjacent-pair statistics: counting every pair of neighbouring units in a
//! sequence, and selecting the most frequent pair under a deterministic
//! tie-break (higher count first, then lexicographically smaller pair).

use vstd::prelude::*;

verus! {

/// An ordered pair of units: `(a, b)` means `a` immediately followed by `b`.
pub type Pair = (i32, i32);

/// Number of positions at which `p` occurs as an adjacent pair in `s`.
/// Overlapping occurrences all count: `[x, x, x]` holds `(x, x)` twice.
pub open spec fn pair_count(s: Seq<i32>, p: Pair) -> nat
    decreases s.len(),
{
    if s.len() < 2 {
        0
    } else {
        (if s[0] == p.0 && s[1] == p.1 {
            1nat
        } else {
            0nat
        }) + pair_count(s.skip(1), p)
    }
}

/// Occurrence count of the pair keyed `p` in a count list: the count of the
/// first entry for `p`, or zero when no entry carries `p`.
pub open spec fn count_of(cs: Seq<(Pair, usize)>, p: Pair) -> nat
    decreases cs.len(),
{
    if cs.len() == 0 {
        0
    } else if cs[0].0 == p {
        cs[0].1 as nat
    } else {
        count_of(cs.skip(1), p)
    }
}

/// No two entries of the count list are keyed by the same pair.
pub open spec fn distinct_pairs(cs: Seq<(Pair, usize)>) -> bool {
    forall|j: int, k: int|
        0 <= j < k < cs.len() ==> (#[trigger] cs[j]).0 != (#[trigger] cs[k]).0
}

/// The count list `cs` is exactly the pair statistics of the sequence `s`:
/// one entry per occurring pair, carrying its occurrence count.
pub open spec fn counts_for(cs: Seq<(Pair, usize)>, s: Seq<i32>) -> bool {
    &&& distinct_pairs(cs)
    &&& forall|j: int| 0 <= j < cs.len() ==> (#[trigger] cs[j]).1 >= 1
    &&& forall|p: Pair| count_of(cs, p) == pair_count(s, p)
}

/// Counting one window at `i` splits off from the tail count at `i + 1`.
pub proof fn lemma_pair_count_skip_step(s: Seq<i32>, p: Pair, i: int)
    requires
        0 <= i,
        i + 1 <= s.len(),
    ensures
        pair_count(s.skip(i), p) == (if i + 1 < s.len() && s[i] == p.0 && s[i + 1] == p.1 {
            1nat
        } else {
            0nat
        }) + pair_count(s.skip(i + 1), p),
{
    if i + 1 < s.len() {
        assert(s.skip(i).skip(1) =~= s.skip(i + 1));
        assert(s.skip(i)[0] == s[i]);
        assert(s.skip(i)[1] == s[i + 1]);
    } else {
        assert(s.skip(i).len() < 2);
        assert(s.skip(i + 1).len() < 2);
    }
}

/// A sequence with at least two units contains its leading pair.
pub proof fn lemma_first_pair_occurs(s: Seq<i32>)
    requires
        s.len() >= 2,
    ensures
        pair_count(s, (s[0], s[1])) >= 1,
{
}

/// A pair listed nowhere has occurrence count zero.
pub proof fn lemma_count_of_absent(cs: Seq<(Pair, usize)>, p: Pair)
    requires
        forall|j: int| 0 <= j < cs.len() ==> (#[trigger] cs[j]).0 != p,
    ensures
        count_of(cs, p) == 0,
    decreases cs.len(),
{
    if cs.len() > 0 {
        assert(forall|j: int|
            0 <= j < cs.skip(1).len() ==> (#[trigger] cs.skip(1)[j]).0 != p) by {
            assert(forall|j: int|
                0 <= j < cs.skip(1).len() ==> cs.skip(1)[j] == cs[j + 1]);
        }
        lemma_count_of_absent(cs.skip(1), p);
    }
}

/// A pair with a nonzero count is listed somewhere.
pub proof fn lemma_count_of_present(cs: Seq<(Pair, usize)>, p: Pair)
    requires
        count_of(cs, p) != 0,
    ensures
        exists|j: int| 0 <= j < cs.len() && (#[trigger] cs[j]).0 == p,
    decreases cs.len(),
{
    if cs.len() > 0 {
        if cs[0].0 == p {
            assert(cs[0].0 == p);
        } else {
            lemma_count_of_present(cs.skip(1), p);
            let j = choose|j: int| 0 <= j < cs.skip(1).len() && (#[trigger] cs.skip(1)[j]).0 == p;
            assert(cs[j + 1].0 == p);
        }
    }
}

/// In a distinct count list, an entry's stored count is its pair's count.
pub proof fn lemma_count_of_entry(cs: Seq<(Pair, usize)>, j: int)
    requires
        distinct_pairs(cs),
        0 <= j < cs.len(),
    ensures
        count_of(cs, cs[j].0) == cs[j].1,
    decreases cs.len(),
{
    if j == 0 {
    } else {
        assert(cs[0].0 != cs[j].0);
        assert(distinct_pairs(cs.skip(1))) by {
            assert(forall|a: int, b: int|
                0 <= a < b < cs.skip(1).len() ==> cs.skip(1)[a] == cs[a + 1] && cs.skip(1)[b]
                    == cs[b + 1]);
        }
        lemma_count_of_entry(cs.skip(1), j - 1);
        assert(cs.skip(1)[j - 1] == cs[j]);
    }
}

/// Appending an entry for a pair not yet listed: the new pair takes the new
/// count, every other pair keeps its count.
pub proof fn lemma_count_of_push_fresh(cs: Seq<(Pair, usize)>, p: Pair, c: usize, q: Pair)
    requires
        forall|j: int| 0 <= j < cs.len() ==> (#[trigger] cs[j]).0 != p,
    ensures
        count_of(cs.push((p, c)), q) == (if q == p {
            c as nat
        } else {
            count_of(cs, q)
        }),
    decreases cs.len(),
{
    if cs.len() == 0 {
        assert(cs.push((p, c))[0] == (p, c));
        assert(cs.push((p, c)).skip(1) =~= Seq::<(Pair, usize)>::empty());
        if q != p {
            assert(count_of(cs.push((p, c)), q) == count_of(Seq::<(Pair, usize)>::empty(), q));
        }
    } else {
        assert(cs.push((p, c))[0] == cs[0]);
        assert(cs.push((p, c)).skip(1) =~= cs.skip(1).push((p, c)));
        assert(forall|j: int|
            0 <= j < cs.skip(1).len() ==> (#[trigger] cs.skip(1)[j]).0 != p) by {
            assert(forall|j: int|
                0 <= j < cs.skip(1).len() ==> cs.skip(1)[j] == cs[j + 1]);
        }
        lemma_count_of_push_fresh(cs.skip(1), p, c, q);
    }
}

/// Replacing the count stored at entry `j`: the entry's pair takes the new
/// count, every other pair keeps its count.
pub proof fn lemma_count_of_update(cs: Seq<(Pair, usize)>, j: int, c: usize, q: Pair)
    requires
        distinct_pairs(cs),
        0 <= j < cs.len(),
    ensures
        count_of(cs.update(j, (cs[j].0, c)), q) == (if q == cs[j].0 {
            c as nat
        } else {
            count_of(cs, q)
        }),
    decreases cs.len(),
{
    let cs2 = cs.update(j, (cs[j].0, c));
    if j == 0 {
        assert(cs2[0] == (cs[0].0, c));
        assert(cs2.skip(1) =~= cs.skip(1));
    } else {
        assert(cs2[0] == cs[0]);
        assert(cs[0].0 != cs[j].0);
        assert(distinct_pairs(cs.skip(1))) by {
            assert(forall|a: int, b: int|
                0 <= a < b < cs.skip(1).len() ==> cs.skip(1)[a] == cs[a + 1] && cs.skip(1)[b]
                    == cs[b + 1]);
        }
        assert(cs2.skip(1) =~= cs.skip(1).update(j - 1, (cs.skip(1)[j - 1].0, c)));
        lemma_count_of_update(cs.skip(1), j - 1, c, q);
    }
}

/// A pair that occurs somewhere has both of its units in the sequence.
pub proof fn lemma_pair_occurs_contains(s: Seq<i32>, p: Pair)
    requires
        pair_count(s, p) >= 1,
    ensures
        s.contains(p.0),
        s.contains(p.1),
    decreases s.len(),
{
    if s.len() >= 2 {
        if s[0] == p.0 && s[1] == p.1 {
            assert(s.contains(p.0)) by {
                assert(s[0] == p.0);
            }
            assert(s.contains(p.1)) by {
                assert(s[1] == p.1);
            }
        } else {
            lemma_pair_occurs_contains(s.skip(1), p);
            let a = choose|t: int| 0 <= t < s.skip(1).len() && s.skip(1)[t] == p.0;
            let b = choose|t: int| 0 <= t < s.skip(1).len() && s.skip(1)[t] == p.1;
            assert(s[a + 1] == p.0);
            assert(s[b + 1] == p.1);
        }
    }
}

/// Strict lexicographic order on pairs.
pub open spec fn lex_lt(p: Pair, q: Pair) -> bool {
    p.0 < q.0 || (p.0 == q.0 && p.1 < q.1)
}

/// `p` is the pair to merge next in `s`: it occurs, no pair occurs more
/// often, and among equally frequent pairs it is lexicographically smallest.
pub open spec fn is_top_pair(s: Seq<i32>, p: Pair) -> bool {
    &&& pair_count(s, p) >= 1
    &&& forall|q: Pair| #[trigger] pair_count(s, q) <= pair_count(s, p)
    &&& forall|q: Pair|
        q != p && #[trigger] pair_count(s, q) == pair_count(s, p) ==> lex_lt(p, q)
}

/// The unique pair satisfying [`is_top_pair`], where one exists.
pub open spec fn top_pair(s: Seq<i32>) -> Pair {
    choose|p: Pair| is_top_pair(s, p)
}

/// At most one pair is top: the tie-break is a total order.
pub proof fn lemma_top_pair_unique(s: Seq<i32>, p: Pair, q: Pair)
    requires
        is_top_pair(s, p),
        is_top_pair(s, q),
    ensures
        p == q,
{
    if p != q {
        assert(pair_count(s, q) <= pair_count(s, p));
        assert(pair_count(s, p) <= pair_count(s, q));
        assert(lex_lt(p, q));
        assert(lex_lt(q, p));
    }
}

/// The entry with the highest count, ties broken toward the lexicographically
/// smaller pair; `None` exactly when the list is empty.
pub fn pick_top(counts: &Vec<(Pair, usize)>) -> (r: Option<Pair>)
    requires
        distinct_pairs(counts@),
        forall|j: int| 0 <= j < counts@.len() ==> (#[trigger] counts@[j]).1 >= 1,
    ensures
        match r {
            Option::None => counts@.len() == 0,
            Option::Some(p) => {
                &&& count_of(counts@, p) >= 1
                &&& forall|q: Pair| #[trigger] count_of(counts@, q) <= count_of(counts@, p)
                &&& forall|q: Pair|
                    q != p && #[trigger] count_of(counts@, q) == count_of(counts@, p)
                        ==> lex_lt(p, q)
            },
        },
{
    if counts.len() == 0 {
        return Option::None;
    }
    let mut best: Pair = counts[0].0;
    let mut best_c: usize = counts[0].1;
    let mut k: usize = 1;
    while k < counts.len()
        invariant
            distinct_pairs(counts@),
            forall|j: int| 0 <= j < counts@.len() ==> (#[trigger] counts@[j]).1 >= 1,
            1 <= k <= counts@.len(),
            exists|j: int| 0 <= j < k && #[trigger] counts@[j] == (best, best_c),
            forall|j: int| 0 <= j < k ==> (#[trigger] counts@[j]).1 <= best_c,
            forall|j: int|
                0 <= j < k && (#[trigger] counts@[j]).1 == best_c && counts@[j].0 != best
                    ==> lex_lt(best, counts@[j].0),
        decreases counts@.len() - k,
    {
        let q = counts[k].0;
        let cq = counts[k].1;
        if cq > best_c || (cq == best_c && (q.0 < best.0 || (q.0 == best.0 && q.1 < best.1))) {
            best = q;
            best_c = cq;
            assert(counts@[k as int] == (best, best_c));
        }
        k = k + 1;
    }
    proof {
        let j = choose|j: int| 0 <= j < counts@.len() && #[trigger] counts@[j] == (best, best_c);
        lemma_count_of_entry(counts@, j);
        assert forall|q: Pair| #[trigger] count_of(counts@, q) <= count_of(counts@, best) by {
            if count_of(counts@, q) != 0 {
                lemma_count_of_present(counts@, q);
                let t = choose|t: int| 0 <= t < counts@.len() && (#[trigger] counts@[t]).0 == q;
                lemma_count_of_entry(counts@, t);
            }
        }
        assert forall|q: Pair|
            q != best && #[trigger] count_of(counts@, q) == count_of(counts@, best) implies lex_lt(
            best,
            q,
        ) by {
            lemma_count_of_present(counts@, q);
            let t = choose|t: int| 0 <= t < counts@.len() && (#[trigger] counts@[t]).0 == q;
            lemma_count_of_entry(counts@, t);
        }
    }
    Option::Some(best)
}

/// A pair occurs at most once per window: counts are bounded by the length.
pub proof fn lemma_pair_count_le_len(s: Seq<i32>, p: Pair)
    ensures
        pair_count(s, p) <= s.len(),
    decreases s.len(),
{
    if s.len() >= 2 {
        lemma_pair_count_le_len(s.skip(1), p);
    }
}

/// Index of the first entry keyed `p`, if any entry carries `p`.
pub(crate) fn find_pair(cs: &Vec<(Pair, usize)>, p: Pair) -> (r: Option<usize>)
    ensures
        match r {
            Option::Some(j) => (j as int) < cs@.len() && cs@[j as int].0 == p,
            Option::None => forall|k: int| 0 <= k < cs@.len() ==> (#[trigger] cs@[k]).0 != p,
        },
{
    let mut k: usize = 0;
    while k < cs.len()
        invariant
            k <= cs@.len(),
            forall|t: int| 0 <= t < k ==> (#[trigger] cs@[t]).0 != p,
        decreases cs@.len() - k,
    {
        if cs[k].0 .0 == p.0 && cs[k].0 .1 == p.1 {
            return Option::Some(k);
        }
        k = k + 1;
    }
    Option::None
}

/// Counts of every adjacent pair of `units`: each occurring pair is listed
/// exactly once with its occurrence count, and nothing else is listed.  The
/// result is empty exactly when the sequence has no adjacent pair at all.
pub fn get_counts(units: &Vec<i32>) -> (r: Vec<(Pair, usize)>)
    ensures
        counts_for(r@, units@),
        r@.len() == 0 <==> units@.len() < 2,
{
    let n = units.len();
    let mut counts: Vec<(Pair, usize)> = Vec::new();
    if n < 2 {
        return counts;
    }
    proof {
        assert(units@.skip(0) =~= units@);
    }
    let mut i: usize = 0;
    while i < n - 1
        invariant
            2 <= n == units@.len(),
            i <= n - 1,
            distinct_pairs(counts@),
            forall|j: int|
                0 <= j < counts@.len() ==> 1 <= (#[trigger] counts@[j]).1 && counts@[j].1 <= i,
            forall|p: Pair|
                count_of(counts@, p) + pair_count(units@.skip(i as int), p) == pair_count(
                    units@,
                    p,
                ),
        decreases n - 1 - i,
    {
        let p: Pair = (units[i], units[i + 1]);
        let ghost cs0 = counts@;
        proof {
            assert forall|q: Pair|
                pair_count(units@.skip(i as int), q) == (if q == p {
                    1nat
                } else {
                    0nat
                }) + pair_count(units@.skip(i as int + 1), q) by {
                lemma_pair_count_skip_step(units@, q, i as int);
            }
        }
        match find_pair(&counts, p) {
            Option::Some(j) => {
                let c = counts[j].1;
                proof {
                    lemma_count_of_entry(cs0, j as int);
                }
                counts.set(j, (p, c + 1));
                proof {
                    assert forall|q: Pair|
                        count_of(counts@, q) == (if q == p {
                            (c + 1) as nat
                        } else {
                            count_of(cs0, q)
                        }) by {
                        lemma_count_of_update(cs0, j as int, (c + 1) as usize, q);
                    }
                }
            },
            Option::None => {
                counts.push((p, 1));
                proof {
                    lemma_count_of_absent(cs0, p);
                    assert(counts@ == cs0.push((p, 1)));
                    assert forall|q: Pair|
                        count_of(counts@, q) == (if q == p {
                            1nat
                        } else {
                            count_of(cs0, q)
                        }) by {
                        lemma_count_of_push_fresh(cs0, p, 1, q);
                    }
                    assert forall|a: int, b: int|
                        0 <= a < b < counts@.len() implies (#[trigger] counts@[a]).0 != (
                    #[trigger] counts@[b]).0 by {
                        if b == cs0.len() {
                            assert(counts@[a] == cs0[a]);
                        } else {
                            assert(counts@[a] == cs0[a]);
                            assert(counts@[b] == cs0[b]);
                        }
                    }
                }
            },
        }
        proof {
            assert forall|q: Pair|
                count_of(counts@, q) + pair_count(units@.skip(i as int + 1), q) == pair_count(
                    units@,
                    q,
                ) by {
                assert(count_of(cs0, q) + pair_count(units@.skip(i as int), q) == pair_count(
                    units@,
                    q,
                ));
            }
        }
        i = i + 1;
    }
    proof {
        assert(units@.skip(n - 1).len() < 2);
        assert forall|p: Pair| count_of(counts@, p) == pair_count(units@, p) by {
            assert(pair_count(units@.skip(n - 1), p) == 0);
        }
        lemma_first_pair_occurs(units@);
        assert(counts@.len() > 0) by {
            assert(count_of(counts@, (units@[0], units@[1])) >= 1);
        }
    }
    counts
}

} // verus!
