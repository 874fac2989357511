//! Training: repeated rounds of pair counting, top-pair selection and
//! rewriting, growing a merge table until the target vocabulary size is
//! reached or no adjacent pair remains.

use vstd::prelude::*;

use crate::pairs::count_of;
use crate::pairs::get_counts;
use crate::pairs::is_top_pair;
use crate::pairs::lemma_pair_occurs_contains;
use crate::pairs::lemma_top_pair_unique;
use crate::pairs::pair_count;
use crate::pairs::pick_top;
use crate::pairs::top_pair;
use crate::pairs::Pair;
use crate::rewrite::lemma_merge_count_mono;
use crate::rewrite::lemma_merge_elements;
use crate::rewrite::lemma_merge_removes_pair;
use crate::rewrite::merge;
use crate::rewrite::merge_full;
use crate::table::wf_table;
use crate::table::FitError;
use crate::table::MergeTable;

verus! {

/// Largest unit value in `s`, or the smallest unit value at all when `s` is
/// empty (so that the result is always a lower bound for fresh ids).
pub open spec fn max_unit(s: Seq<i32>) -> int
    decreases s.len(),
{
    if s.len() == 0 {
        i32::MIN as int
    } else {
        let m = max_unit(s.skip(1));
        if s[0] as int > m {
            s[0] as int
        } else {
            m
        }
    }
}

/// Number of distinct unit values in `s`.
pub open spec fn distinct_count(s: Seq<i32>) -> nat {
    s.to_set().len()
}

/// Every unit of `s` lies strictly below `bound`.
pub open spec fn all_below(s: Seq<i32>, bound: int) -> bool {
    forall|t: int| 0 <= t < s.len() ==> (#[trigger] s[t]) < bound
}

/// Number of merge rounds a training run attempts.
pub open spec fn fit_rounds(s: Seq<i32>, target: usize) -> nat {
    if target > distinct_count(s) {
        (target - distinct_count(s)) as nat
    } else {
        0
    }
}

/// Ids assigned by a training run stay representable: the largest input unit
/// plus the number of attempted rounds still fits an `i32`.
pub open spec fn ids_in_range(s: Seq<i32>, target: usize) -> bool {
    max_unit(s) + fit_rounds(s, target) <= i32::MAX
}

/// One full training run over `s`: up to `rounds` rounds, each selecting the
/// top pair (most frequent, ties to the lexicographically smaller pair),
/// recording it under the next fresh id and rewriting the sequence; stops
/// early once no adjacent pair remains.  Returns the rewritten sequence and
/// the merge records in learning order.
pub open spec fn fit_spec(s: Seq<i32>, rounds: nat, next_id: int) -> (Seq<i32>, Seq<(Pair, i32)>)
    decreases rounds,
{
    if rounds == 0 || !(exists|p: Pair| is_top_pair(s, p)) {
        (s, Seq::empty())
    } else {
        let p = top_pair(s);
        let rec = fit_spec(merge_full(s, p, next_id as i32), (rounds - 1) as nat, next_id + 1);
        (rec.0, seq![(p, next_id as i32)] + rec.1)
    }
}

/// No unit exceeds [`max_unit`].
pub proof fn lemma_max_unit_ge(s: Seq<i32>)
    ensures
        forall|t: int| 0 <= t < s.len() ==> (#[trigger] s[t]) as int <= max_unit(s),
    decreases s.len(),
{
    if s.len() > 0 {
        lemma_max_unit_ge(s.skip(1));
        assert forall|t: int| 0 <= t < s.len() implies (#[trigger] s[t]) as int <= max_unit(s) by {
            if t > 0 {
                assert(s.skip(1)[t - 1] == s[t]);
            }
        }
    }
}

/// The largest unit value is itself a representable unit.
pub proof fn lemma_max_unit_ub(s: Seq<i32>)
    ensures
        max_unit(s) <= i32::MAX as int,
    decreases s.len(),
{
    if s.len() > 0 {
        lemma_max_unit_ub(s.skip(1));
    }
}

/// The largest unit value is never below the smallest representable unit.
pub proof fn lemma_max_unit_lb(s: Seq<i32>)
    ensures
        max_unit(s) >= i32::MIN as int,
    decreases s.len(),
{
    if s.len() > 0 {
        lemma_max_unit_lb(s.skip(1));
    }
}

/// Unfolds [`max_unit`] on the tail of `s` starting at `i`.
pub proof fn lemma_max_unit_skip_step(s: Seq<i32>, i: int)
    requires
        0 <= i < s.len(),
    ensures
        max_unit(s.skip(i)) == (if s[i] as int > max_unit(s.skip(i + 1)) {
            s[i] as int
        } else {
            max_unit(s.skip(i + 1))
        }),
{
    assert(s.skip(i)[0] == s[i]);
    assert(s.skip(i).skip(1) =~= s.skip(i + 1));
}

/// A sequence without two units has no top pair; its statistics are empty.
pub proof fn lemma_no_top_pair_short(s: Seq<i32>)
    requires
        s.len() < 2,
    ensures
        !(exists|p: Pair| is_top_pair(s, p)),
{
    assert forall|p: Pair| !is_top_pair(s, p) by {
        assert(pair_count(s, p) == 0);
    }
}

/// Monotonic ids: training over units all below the fresh base id records
/// consecutive ids `base`, `base + 1`, ..., each strictly greater than both
/// units of its pair and than every previously assigned id; hence the table
/// is well-formed, and at most `rounds` merges are recorded.
pub proof fn lemma_fit_ids(s: Seq<i32>, rounds: nat, base: int)
    requires
        all_below(s, base),
        i32::MIN <= base,
        base + rounds <= i32::MAX + 1,
    ensures
        ({
            let (out, tb) = fit_spec(s, rounds, base);
            &&& tb.len() <= rounds
            &&& forall|k: int| 0 <= k < tb.len() ==> (#[trigger] tb[k]).1 == base + k
            &&& forall|k: int|
                0 <= k < tb.len() ==> (#[trigger] tb[k]).1 > tb[k].0 .0 && tb[k].1 > tb[k].0 .1
            &&& wf_table(tb)
            &&& all_below(out, base + tb.len())
        }),
    decreases rounds,
{
    if rounds == 0 || !(exists|p: Pair| is_top_pair(s, p)) {
    } else {
        let p = top_pair(s);
        assert(is_top_pair(s, p));
        let idx = base as i32;
        assert(idx as int == base);
        lemma_pair_occurs_contains(s, p);
        assert(p.0 < idx && p.1 < idx) by {
            let a = choose|t: int| 0 <= t < s.len() && s[t] == p.0;
            let b = choose|t: int| 0 <= t < s.len() && s[t] == p.1;
        }
        let s2 = merge_full(s, p, idx);
        assert(all_below(s2, base + 1)) by {
            lemma_merge_elements(s, p, idx);
            assert forall|t: int| 0 <= t < s2.len() implies (#[trigger] s2[t]) < base + 1 by {
                if s2[t] != idx {
                    let u = choose|u: int| 0 <= u < s.len() && s[u] == s2[t];
                }
            }
        }
        lemma_fit_ids(s2, (rounds - 1) as nat, base + 1);
        let rec = fit_spec(s2, (rounds - 1) as nat, base + 1);
        let tb = fit_spec(s, rounds, base).1;
        assert(tb == seq![(p, idx)] + rec.1);
        assert(tb[0] == (p, idx));
        assert(forall|k: int| 1 <= k < tb.len() ==> tb[k] == rec.1[k - 1]);
        assert(forall|k: int| 0 <= k < tb.len() ==> (#[trigger] tb[k]).1 == base + k);
        assert(wf_table(tb)) by {
            assert(forall|j: int, k: int|
                0 <= j < k < tb.len() ==> (#[trigger] tb[j]).1 < (#[trigger] tb[k]).1);
        }
        assert(fit_spec(s, rounds, base).0 == rec.0);
    }
}

/// A pair that does not occur, and whose units lie below the fresh-id base,
/// is never recorded by training: rewriting with fresh ids cannot create it.
proof fn lemma_fit_absent_pair(s: Seq<i32>, rounds: nat, base: int, q: Pair)
    requires
        all_below(s, base),
        i32::MIN <= base,
        base + rounds <= i32::MAX + 1,
        q.0 < base,
        q.1 < base,
        pair_count(s, q) == 0,
    ensures
        forall|k: int|
            0 <= k < fit_spec(s, rounds, base).1.len() ==> (#[trigger] fit_spec(
                s,
                rounds,
                base,
            ).1[k]).0 != q,
    decreases rounds,
{
    if rounds != 0 && (exists|p: Pair| is_top_pair(s, p)) {
        let p = top_pair(s);
        assert(is_top_pair(s, p));
        let idx = base as i32;
        assert(idx as int == base);
        let s2 = merge_full(s, p, idx);
        lemma_merge_count_mono(s, q, p, idx);
        assert(all_below(s2, base + 1)) by {
            lemma_merge_elements(s, p, idx);
            assert forall|t: int| 0 <= t < s2.len() implies (#[trigger] s2[t]) < base + 1 by {
                if s2[t] != idx {
                    let u = choose|u: int| 0 <= u < s.len() && s[u] == s2[t];
                }
            }
        }
        lemma_fit_absent_pair(s2, (rounds - 1) as nat, base + 1, q);
        let tb = fit_spec(s, rounds, base).1;
        let rec = fit_spec(s2, (rounds - 1) as nat, base + 1).1;
        assert(tb == seq![(p, idx)] + rec);
        assert forall|k: int| 0 <= k < tb.len() implies (#[trigger] tb[k]).0 != q by {
            if k > 0 {
                assert(tb[k] == rec[k - 1]);
            }
        }
    }
}

/// Each pair is recorded at most once: merging a pair removes every one of
/// its occurrences, and later rounds cannot recreate it.
pub proof fn lemma_fit_pairs_distinct(s: Seq<i32>, rounds: nat, base: int)
    requires
        all_below(s, base),
        i32::MIN <= base,
        base + rounds <= i32::MAX + 1,
    ensures
        ({
            let tb = fit_spec(s, rounds, base).1;
            forall|j: int, k: int|
                0 <= j < k < tb.len() ==> (#[trigger] tb[j]).0 != (#[trigger] tb[k]).0
        }),
    decreases rounds,
{
    if rounds != 0 && (exists|p: Pair| is_top_pair(s, p)) {
        let p = top_pair(s);
        assert(is_top_pair(s, p));
        let idx = base as i32;
        assert(idx as int == base);
        let s2 = merge_full(s, p, idx);
        lemma_pair_occurs_contains(s, p);
        assert(p.0 < idx && p.1 < idx) by {
            let a = choose|t: int| 0 <= t < s.len() && s[t] == p.0;
            let b = choose|t: int| 0 <= t < s.len() && s[t] == p.1;
        }
        lemma_merge_removes_pair(s, p, idx);
        assert(all_below(s2, base + 1)) by {
            lemma_merge_elements(s, p, idx);
            assert forall|t: int| 0 <= t < s2.len() implies (#[trigger] s2[t]) < base + 1 by {
                if s2[t] != idx {
                    let u = choose|u: int| 0 <= u < s.len() && s[u] == s2[t];
                }
            }
        }
        lemma_fit_absent_pair(s2, (rounds - 1) as nat, base + 1, p);
        lemma_fit_pairs_distinct(s2, (rounds - 1) as nat, base + 1);
        let tb = fit_spec(s, rounds, base).1;
        let rec = fit_spec(s2, (rounds - 1) as nat, base + 1).1;
        assert(tb == seq![(p, idx)] + rec);
        assert forall|j: int, k: int|
            0 <= j < k < tb.len() implies (#[trigger] tb[j]).0 != (#[trigger] tb[k]).0 by {
            assert(tb[k] == rec[k - 1]);
            if j > 0 {
                assert(tb[j] == rec[j - 1]);
            }
        }
    }
}

/// True of `r` exactly when `x` occurs in `v`.
fn vec_contains(v: &Vec<i32>, x: i32) -> (r: bool)
    ensures
        r == v@.contains(x),
{
    let n = v.len();
    let mut k: usize = 0;
    while k < n
        invariant
            n == v@.len(),
            k <= n,
            forall|t: int| 0 <= t < k ==> v@[t] != x,
        decreases n - k,
    {
        if v[k] == x {
            return true;
        }
        k = k + 1;
    }
    false
}

/// Extends `seen` with every unit of `units` not yet present, keeping it
/// duplicate-free; afterwards `seen` holds exactly the old units plus those
/// of `units`.
pub(crate) fn collect_distinct(seen: Vec<i32>, units: &Vec<i32>) -> (r: Vec<i32>)
    requires
        seen@.no_duplicates(),
    ensures
        r@.no_duplicates(),
        r@.to_set() == seen@.to_set().union(units@.to_set()),
{
    let ghost seen0 = seen@;
    let mut seen = seen;
    let n = units.len();
    let mut i: usize = 0;
    proof {
        assert(units@.take(0) =~= Seq::<i32>::empty());
        assert(seen@.to_set().union(units@.take(0).to_set()) =~= seen@.to_set());
    }
    while i < n
        invariant
            n == units@.len(),
            i <= n,
            seen@.no_duplicates(),
            seen@.to_set() == seen0.to_set().union(units@.take(i as int).to_set()),
        decreases n - i,
    {
        let ghost pre = seen@;
        let x = units[i];
        proof {
            assert(units@.take(i as int + 1) =~= units@.take(i as int) + seq![x]);
            Seq::<i32>::lemma_to_set_insert_commutes(units@.take(i as int), x);
        }
        if !vec_contains(&seen, x) {
            seen.push(x);
            proof {
                assert(seen@ =~= pre + seq![x]);
                Seq::<i32>::lemma_to_set_insert_commutes(pre, x);
                assert(seen@.no_duplicates()) by {
                    assert(forall|t: int| 0 <= t < pre.len() ==> seen@[t] == pre[t]);
                    assert(seen@[pre.len() as int] == x);
                }
            }
        } else {
            proof {
                assert(pre.to_set().contains(x));
            }
        }
        proof {
            assert(seen@.to_set() =~= seen0.to_set().union(units@.take(i as int + 1).to_set()));
        }
        i = i + 1;
    }
    proof {
        assert(units@.take(n as int) =~= units@);
    }
    seen
}

/// Number of distinct unit values in `units`.
fn distinct_count_exec(units: &Vec<i32>) -> (r: usize)
    ensures
        r == distinct_count(units@),
{
    let empty: Vec<i32> = Vec::new();
    proof {
        broadcast use vstd::set::group_set_axioms;

        assert(empty@.to_set() =~= Set::<i32>::empty());
    }
    let seen = collect_distinct(empty, units);
    proof {
        assert(seen@.to_set() =~= units@.to_set());
        seen@.unique_seq_to_set();
    }
    seen.len()
}

/// Largest of `init` and every unit of `units`.
pub(crate) fn fold_max(init: i32, units: &Vec<i32>) -> (r: i32)
    ensures
        r as int == (if init as int > max_unit(units@) {
            init as int
        } else {
            max_unit(units@)
        }),
{
    let n = units.len();
    let mut m = init;
    let mut i: usize = 0;
    proof {
        assert(units@.skip(0) =~= units@);
    }
    while i < n
        invariant
            n == units@.len(),
            i <= n,
            m >= init,
            (if init as int > max_unit(units@) {
                init as int
            } else {
                max_unit(units@)
            }) == (if m as int > max_unit(units@.skip(i as int)) {
                m as int
            } else {
                max_unit(units@.skip(i as int))
            }),
        decreases n - i,
    {
        proof {
            lemma_max_unit_skip_step(units@, i as int);
        }
        if units[i] > m {
            m = units[i];
        }
        i = i + 1;
    }
    proof {
        assert(units@.skip(n as int) =~= Seq::<i32>::empty());
    }
    m
}

/// True of `r` exactly when training `units` toward `target_vocab_size`
/// keeps every fresh id representable: the bound [`fit`] demands of its
/// callers, decided at run time.
pub fn fit_ids_representable(units: &Vec<i32>, target_vocab_size: usize) -> (r: bool)
    ensures
        r == ids_in_range(units@, target_vocab_size),
{
    let initial = distinct_count_exec(units);
    let max = fold_max(i32::MIN, units);
    proof {
        lemma_max_unit_lb(units@);
        lemma_max_unit_ub(units@);
        assert(max as int == max_unit(units@));
    }
    if target_vocab_size <= initial {
        proof {
            assert(fit_rounds(units@, target_vocab_size) == 0);
        }
        true
    } else {
        let rounds = target_vocab_size - initial;
        (max as i128) + (rounds as i128) <= i32::MAX as i128
    }
}

/// Learns merges from `units` until the vocabulary would reach
/// `target_vocab_size` distinct symbols, or no adjacent pair remains.
///
/// Fails with `InvalidTarget` exactly when the target does not exceed the
/// number of distinct units already present; otherwise returns the rewritten
/// sequence and the learned table, exactly as [`fit_spec`] describes, with
/// at most `target_vocab_size - distinct_count` merges recorded.
pub fn fit(units: Vec<i32>, target_vocab_size: usize) -> (r: Result<
    (Vec<i32>, MergeTable),
    FitError,
>)
    requires
        ids_in_range(units@, target_vocab_size),
    ensures
        r is Err <==> target_vocab_size <= distinct_count(units@),
        r is Err ==> r->Err_0 == FitError::InvalidTarget,
        r is Ok ==> ({
            let (out, tb) = fit_spec(
                units@,
                fit_rounds(units@, target_vocab_size),
                max_unit(units@) + 1,
            );
            &&& r->Ok_0.0@ == out
            &&& r->Ok_0.1@ == tb
            &&& r->Ok_0.1.wf()
            &&& tb.len() <= fit_rounds(units@, target_vocab_size)
            &&& forall|j: int, k: int|
                0 <= j < k < tb.len() ==> (#[trigger] tb[j]).0 != (#[trigger] tb[k]).0
        }),
{
    let ghost units0 = units@;
    let initial = distinct_count_exec(&units);
    if target_vocab_size <= initial {
        return Result::Err(FitError::InvalidTarget);
    }
    let num_merges = target_vocab_size - initial;
    let mut max_idx = fold_max(i32::MIN, &units);
    let ghost base: int = max_unit(units0) + 1;
    proof {
        lemma_max_unit_lb(units0);
        assert(max_idx as int == max_unit(units0));
        lemma_max_unit_ge(units0);
        assert(all_below(units0, base));
        assert(num_merges == fit_rounds(units0, target_vocab_size));
        assert(base + num_merges <= i32::MAX + 1);
        lemma_fit_ids(units0, num_merges as nat, base);
    }
    let mut cur = units;
    let mut table = MergeTable::new();
    let mut done: usize = 0;
    while done < num_merges
        invariant_except_break
            done <= num_merges,
            base == max_unit(units0) + 1,
            i32::MIN <= base,
            base + num_merges <= i32::MAX + 1,
            table@.len() == done,
            max_idx as int == base + done - 1,
            all_below(cur@, base + done),
            forall|k: int|
                0 <= k < table@.len() ==> (#[trigger] table@[k]).1 == base + k && table@[k].1
                    > table@[k].0 .0 && table@[k].1 > table@[k].0 .1,
            fit_spec(units0, num_merges as nat, base) == (
                fit_spec(cur@, (num_merges - done) as nat, base + done).0,
                table@ + fit_spec(cur@, (num_merges - done) as nat, base + done).1,
            ),
        ensures
            fit_spec(units0, num_merges as nat, base).0 == cur@,
            fit_spec(units0, num_merges as nat, base).1 == table@,
            forall|k: int|
                0 <= k < table@.len() ==> (#[trigger] table@[k]).1 == base + k && table@[k].1
                    > table@[k].0 .0 && table@[k].1 > table@[k].0 .1,
        decreases num_merges - done,
    {
        let ghost rem = (num_merges - done) as nat;
        let counts = get_counts(&cur);
        if counts.len() == 0 {
            proof {
                lemma_no_top_pair_short(cur@);
                assert(fit_spec(cur@, rem, base + done) == (cur@, Seq::<(Pair, i32)>::empty()));
                assert(table@ + Seq::<(Pair, i32)>::empty() =~= table@);
            }
            break ;
        }
        let p = match pick_top(&counts) {
            Option::Some(p) => p,
            Option::None => {
                proof {
                    assert(false);
                }
                (0, 0)
            },
        };
        proof {
            assert(is_top_pair(cur@, p)) by {
                assert(forall|q: Pair| #[trigger] pair_count(cur@, q) == count_of(counts@, q));
            }
            assert(exists|q: Pair| is_top_pair(cur@, q));
            assert(is_top_pair(cur@, top_pair(cur@)));
            lemma_top_pair_unique(cur@, p, top_pair(cur@));
            assert(p == top_pair(cur@));
        }
        let new_idx = max_idx + 1;
        proof {
            assert(new_idx as int == base + done);
            assert((base + done) as i32 == new_idx);
        }
        let next = merge(&cur, p, new_idx);
        let ghost tb0 = table@;
        table.entries.push((p, new_idx));
        proof {
            let rec = fit_spec(next@, (rem - 1) as nat, base + done + 1);
            assert(fit_spec(cur@, rem, base + done) == (rec.0, seq![(p, new_idx)] + rec.1));
            assert(table@ =~= tb0 + seq![(p, new_idx)]);
            assert(table@ + rec.1 =~= tb0 + (seq![(p, new_idx)] + rec.1));
            assert(all_below(next@, base + done + 1)) by {
                lemma_merge_elements(cur@, p, new_idx);
                assert forall|t: int| 0 <= t < next@.len() implies (#[trigger] next@[t]) < base
                    + done + 1 by {
                    if next@[t] != new_idx {
                        let u = choose|u: int| 0 <= u < cur@.len() && cur@[u] == next@[t];
                    }
                }
            }
            assert(p.0 < new_idx && p.1 < new_idx) by {
                lemma_pair_occurs_contains(cur@, p);
                let a = choose|t: int| 0 <= t < cur@.len() && cur@[t] == p.0;
                let b = choose|t: int| 0 <= t < cur@.len() && cur@[t] == p.1;
            }
        }
        cur = next;
        max_idx = new_idx;
        done = done + 1;
    }
    proof {
        let tb = table@;
        assert(wf_table(tb)) by {
            assert(forall|j: int, k: int|
                0 <= j < k < tb.len() ==> (#[trigger] tb[j]).1 < (#[trigger] tb[k]).1);
        }
        assert(tb.len() <= fit_rounds(units0, target_vocab_size));
        lemma_fit_pairs_distinct(units0, num_merges as nat, base);
    }
    Result::Ok((cur, table))
}

/// Training with the table flattened to its ordered `(pair, id)` records,
/// the external representation of a merge table.
pub fn fit_py(units: Vec<i32>, target_vocab_size: usize) -> (r: Result<
    (Vec<i32>, Vec<(Pair, i32)>),
    FitError,
>)
    requires
        ids_in_range(units@, target_vocab_size),
    ensures
        r is Err <==> target_vocab_size <= distinct_count(units@),
        r is Err ==> r->Err_0 == FitError::InvalidTarget,
        r is Ok ==> ({
            let (out, tb) = fit_spec(
                units@,
                fit_rounds(units@, target_vocab_size),
                max_unit(units@) + 1,
            );
            &&& r->Ok_0.0@ == out
            &&& r->Ok_0.1@ == tb
            &&& wf_table(r->Ok_0.1@)
        }),
{
    match fit(units, target_vocab_size) {
        Result::Ok((out, table)) => Result::Ok((out, table.entries)),
        Result::Err(e) => Result::Err(e),
    }
}

} // verus!
