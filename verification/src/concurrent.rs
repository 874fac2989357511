//! Batched training, encoding and decoding over a corpus of independent
//! sequences.
//!
//! The per-sequence work — counting, rewriting, encoding, decoding — runs as
//! a parallel fan-out over the corpus; each call applies a verified function
//! to one exclusively owned sequence, and order is preserved.  The only
//! cross-sequence step, summing per-sequence pair counts into corpus-global
//! counts, is the verified single-threaded fold below.

use vstd::prelude::*;

use rayon::iter::IntoParallelIterator;
use rayon::iter::IntoParallelRefIterator;
use rayon::iter::ParallelIterator;

use crate::codec::decode;
use crate::codec::encode;
use crate::codec::encode_spec;
use crate::codec::expand_seq;
use crate::pairs::count_of;
use crate::pairs::counts_for;
use crate::pairs::distinct_pairs;
use crate::pairs::find_pair;
use crate::pairs::get_counts;
use crate::pairs::lemma_count_of_absent;
use crate::pairs::lemma_count_of_entry;
use crate::pairs::lemma_count_of_push_fresh;
use crate::pairs::lemma_count_of_update;
use crate::pairs::lemma_pair_count_le_len;
use crate::pairs::lex_lt;
use crate::pairs::pair_count;
use crate::pairs::Pair;
use crate::pairs::is_top_pair;
use crate::pairs::lemma_pair_occurs_contains;
use crate::pairs::lemma_top_pair_unique;
use crate::pairs::pick_top;
use crate::pairs::top_pair;
use crate::rewrite::lemma_merge_count_mono;
use crate::rewrite::lemma_merge_elements;
use crate::rewrite::lemma_merge_removes_pair;
use crate::rewrite::lemma_merge_shrinks;
use crate::rewrite::merge;
use crate::rewrite::merge_full;
use crate::table::wf_table;
use crate::table::FitError;
use crate::table::MergeTable;
use crate::trainer::collect_distinct;
use crate::trainer::fit_spec;
use crate::trainer::fold_max;
use crate::trainer::max_unit;

verus! {

/// The corpus a list of sequences stands for.
pub open spec fn corpus_view(vs: Seq<Vec<i32>>) -> Seq<Seq<i32>> {
    vs.map_values(|v: Vec<i32>| v@)
}

/// Summed pair statistics over a corpus: occurrences never span two
/// sequences.
pub open spec fn corpus_count(ss: Seq<Seq<i32>>, p: Pair) -> nat
    decreases ss.len(),
{
    if ss.len() == 0 {
        0
    } else {
        pair_count(ss[0], p) + corpus_count(ss.skip(1), p)
    }
}

/// Total number of units across a corpus.
pub open spec fn corpus_len(ss: Seq<Seq<i32>>) -> nat
    decreases ss.len(),
{
    if ss.len() == 0 {
        0
    } else {
        ss[0].len() + corpus_len(ss.skip(1))
    }
}

/// All unit values occurring anywhere in a corpus.
pub open spec fn corpus_units(ss: Seq<Seq<i32>>) -> Set<i32>
    decreases ss.len(),
{
    if ss.len() == 0 {
        Set::empty()
    } else {
        ss[0].to_set().union(corpus_units(ss.skip(1)))
    }
}

/// Number of distinct unit values across a corpus.
pub open spec fn corpus_distinct(ss: Seq<Seq<i32>>) -> nat {
    corpus_units(ss).len()
}

/// Largest unit value in a corpus, or the smallest representable value for
/// an empty corpus.
pub open spec fn corpus_max(ss: Seq<Seq<i32>>) -> int
    decreases ss.len(),
{
    if ss.len() == 0 {
        i32::MIN as int
    } else {
        let m = corpus_max(ss.skip(1));
        if max_unit(ss[0]) > m {
            max_unit(ss[0])
        } else {
            m
        }
    }
}

/// Every unit of every sequence lies strictly below `bound`.
pub open spec fn corpus_all_below(ss: Seq<Seq<i32>>, bound: int) -> bool {
    forall|j: int, u: int|
        0 <= j < ss.len() && 0 <= u < ss[j].len() ==> (#[trigger] ss[j][u]) < bound
}

/// `p` is the pair to merge next across the corpus: it occurs, no pair
/// occurs more often corpus-wide, and ties go to the lexicographically
/// smaller pair.
pub open spec fn is_corpus_top_pair(ss: Seq<Seq<i32>>, p: Pair) -> bool {
    &&& corpus_count(ss, p) >= 1
    &&& forall|q: Pair| #[trigger] corpus_count(ss, q) <= corpus_count(ss, p)
    &&& forall|q: Pair|
        q != p && #[trigger] corpus_count(ss, q) == corpus_count(ss, p) ==> lex_lt(p, q)
}

/// The unique pair satisfying [`is_corpus_top_pair`], where one exists.
pub open spec fn corpus_top_pair(ss: Seq<Seq<i32>>) -> Pair {
    choose|p: Pair| is_corpus_top_pair(ss, p)
}

/// Every sequence rewritten with the same pair and replacement unit.
pub open spec fn merge_all(ss: Seq<Seq<i32>>, p: Pair, idx: i32) -> Seq<Seq<i32>> {
    ss.map_values(|s: Seq<i32>| merge_full(s, p, idx))
}

/// Number of merge rounds a batched training run attempts.
pub open spec fn fit_batch_rounds(ss: Seq<Seq<i32>>, target: usize) -> nat {
    if target > corpus_distinct(ss) {
        (target - corpus_distinct(ss)) as nat
    } else {
        0
    }
}

/// Ids assigned by a batched training run stay representable.
pub open spec fn batch_ids_in_range(ss: Seq<Seq<i32>>, target: usize) -> bool {
    corpus_max(ss) + fit_batch_rounds(ss, target) <= i32::MAX
}

/// One full batched training run: like `fit_spec`, with statistics summed
/// over the whole corpus and every sequence rewritten each round.
pub open spec fn fit_batch_spec(ss: Seq<Seq<i32>>, rounds: nat, next_id: int) -> (
    Seq<Seq<i32>>,
    Seq<(Pair, i32)>,
)
    decreases rounds,
{
    if rounds == 0 || !(exists|p: Pair| is_corpus_top_pair(ss, p)) {
        (ss, Seq::empty())
    } else {
        let p = corpus_top_pair(ss);
        let rec = fit_batch_spec(merge_all(ss, p, next_id as i32), (rounds - 1) as nat, next_id + 1);
        (rec.0, seq![(p, next_id as i32)] + rec.1)
    }
}

/// At most one pair is corpus-top: the tie-break is a total order.
pub proof fn lemma_corpus_top_unique(ss: Seq<Seq<i32>>, p: Pair, q: Pair)
    requires
        is_corpus_top_pair(ss, p),
        is_corpus_top_pair(ss, q),
    ensures
        p == q,
{
    if p != q {
        assert(corpus_count(ss, q) <= corpus_count(ss, p));
        assert(corpus_count(ss, p) <= corpus_count(ss, q));
        assert(lex_lt(p, q));
        assert(lex_lt(q, p));
    }
}

/// Appending a sequence adds its counts.
pub proof fn lemma_corpus_count_push(ss: Seq<Seq<i32>>, s: Seq<i32>, p: Pair)
    ensures
        corpus_count(ss.push(s), p) == corpus_count(ss, p) + pair_count(s, p),
    decreases ss.len(),
{
    if ss.len() == 0 {
        assert(ss.push(s)[0] == s);
        assert(ss.push(s).skip(1) =~= Seq::<Seq<i32>>::empty());
        assert(corpus_count(Seq::<Seq<i32>>::empty(), p) == 0);
    } else {
        assert(ss.push(s)[0] == ss[0]);
        assert(ss.push(s).skip(1) =~= ss.skip(1).push(s));
        lemma_corpus_count_push(ss.skip(1), s, p);
    }
}

/// Corpus counts split over concatenation.
pub proof fn lemma_corpus_count_concat(a: Seq<Seq<i32>>, b: Seq<Seq<i32>>, p: Pair)
    ensures
        corpus_count(a + b, p) == corpus_count(a, p) + corpus_count(b, p),
    decreases a.len(),
{
    if a.len() == 0 {
        assert(a + b =~= b);
    } else {
        assert((a + b)[0] == a[0]);
        assert((a + b).len() > 0);
        assert((a + b).skip(1) =~= a.skip(1) + b);
        lemma_corpus_count_concat(a.skip(1), b, p);
    }
}

/// No pair occurs more often than the corpus has units.
pub proof fn lemma_corpus_count_le_len(ss: Seq<Seq<i32>>, p: Pair)
    ensures
        corpus_count(ss, p) <= corpus_len(ss),
    decreases ss.len(),
{
    if ss.len() > 0 {
        lemma_pair_count_le_len(ss[0], p);
        lemma_corpus_count_le_len(ss.skip(1), p);
    }
}

/// A prefix of the corpus never counts more than the whole corpus.
pub proof fn lemma_corpus_count_prefix_le(ss: Seq<Seq<i32>>, i: int, p: Pair)
    requires
        0 <= i <= ss.len(),
    ensures
        corpus_count(ss.take(i), p) <= corpus_count(ss, p),
{
    assert(ss.take(i) + ss.skip(i) =~= ss);
    lemma_corpus_count_concat(ss.take(i), ss.skip(i), p);
}

/// Appending a sequence adds its units.
pub proof fn lemma_corpus_units_push(ss: Seq<Seq<i32>>, s: Seq<i32>)
    ensures
        corpus_units(ss.push(s)) == corpus_units(ss).union(s.to_set()),
    decreases ss.len(),
{
    if ss.len() == 0 {
        assert(ss.push(s)[0] == s);
        assert(ss.push(s).skip(1) =~= Seq::<Seq<i32>>::empty());
        assert(corpus_units(Seq::<Seq<i32>>::empty()) =~= Set::<i32>::empty());
        assert(s.to_set().union(Set::<i32>::empty()) =~= Set::<i32>::empty().union(s.to_set()));
    } else {
        assert(ss.push(s)[0] == ss[0]);
        assert(ss.push(s).skip(1) =~= ss.skip(1).push(s));
        lemma_corpus_units_push(ss.skip(1), s);
        assert(ss[0].to_set().union(corpus_units(ss.skip(1)).union(s.to_set())) =~= (
        ss[0].to_set().union(corpus_units(ss.skip(1)))).union(s.to_set()));
    }
}

/// Appending a sequence folds in its largest unit.
pub proof fn lemma_corpus_max_push(ss: Seq<Seq<i32>>, s: Seq<i32>)
    ensures
        corpus_max(ss.push(s)) == (if max_unit(s) > corpus_max(ss) {
            max_unit(s)
        } else {
            corpus_max(ss)
        }),
    decreases ss.len(),
{
    if ss.len() == 0 {
        assert(ss.push(s)[0] == s);
        assert(ss.push(s).skip(1) =~= Seq::<Seq<i32>>::empty());
        assert(corpus_max(Seq::<Seq<i32>>::empty()) == i32::MIN as int);
        crate::trainer::lemma_max_unit_lb(s);
    } else {
        assert(ss.push(s)[0] == ss[0]);
        assert(ss.push(s).skip(1) =~= ss.skip(1).push(s));
        lemma_corpus_max_push(ss.skip(1), s);
    }
}

/// A corpus-wide occurrence lives in some one sequence.
pub proof fn lemma_corpus_count_witness(ss: Seq<Seq<i32>>, p: Pair)
    requires
        corpus_count(ss, p) >= 1,
    ensures
        exists|j: int| 0 <= j < ss.len() && pair_count(#[trigger] ss[j], p) >= 1,
    decreases ss.len(),
{
    if ss.len() > 0 {
        if pair_count(ss[0], p) >= 1 {
            assert(pair_count(ss[0], p) >= 1);
        } else {
            lemma_corpus_count_witness(ss.skip(1), p);
            let j = choose|j: int|
                0 <= j < ss.skip(1).len() && pair_count(#[trigger] ss.skip(1)[j], p) >= 1;
            assert(pair_count(ss[j + 1], p) >= 1);
        }
    }
}

/// Relies on rayon's `par_iter().map(..).collect()`: applies the verified
/// `get_counts` to every sequence in parallel; collection preserves order.
#[verifier::external_body]
fn par_counts(seqs: &Vec<Vec<i32>>) -> (r: Vec<Vec<(Pair, usize)>>)
    ensures
        r@.len() == seqs@.len(),
        forall|j: int| 0 <= j < r@.len() ==> counts_for((#[trigger] r@[j])@, seqs@[j]@),
{
    seqs.par_iter().map(|s| get_counts(s)).collect()
}

/// Relies on rayon's `par_iter().map(..).collect()`: applies the verified
/// `merge` to every sequence in parallel; collection preserves order.
#[verifier::external_body]
fn par_merge(seqs: &Vec<Vec<i32>>, pair: Pair, idx: i32) -> (r: Vec<Vec<i32>>)
    ensures
        r@.len() == seqs@.len(),
        forall|j: int| 0 <= j < r@.len() ==> (#[trigger] r@[j])@ == merge_full(seqs@[j]@, pair, idx),
{
    seqs.par_iter().map(|s| merge(s, pair, idx)).collect()
}

/// Relies on rayon's `into_par_iter().map(..).collect()`: applies the
/// verified `encode` to every sequence in parallel; collection preserves
/// order.
#[verifier::external_body]
fn par_encode(seqs: Vec<Vec<i32>>, merges: &MergeTable) -> (r: Vec<Vec<i32>>)
    requires
        merges.wf(),
    ensures
        r@.len() == seqs@.len(),
        forall|j: int|
            0 <= j < r@.len() ==> (#[trigger] r@[j])@ == encode_spec(merges@, seqs@[j]@),
{
    seqs.into_par_iter().map(|s| encode(s, merges)).collect()
}

/// Relies on rayon's `into_par_iter().map(..).collect()`: applies the
/// verified `decode` to every sequence in parallel; collection preserves
/// order.
#[verifier::external_body]
fn par_decode(seqs: Vec<Vec<i32>>, merges: &MergeTable) -> (r: Vec<Vec<i32>>)
    requires
        merges.wf(),
    ensures
        r@.len() == seqs@.len(),
        forall|j: int|
            0 <= j < r@.len() ==> (#[trigger] r@[j])@ == expand_seq(merges@, seqs@[j]@),
{
    seqs.into_par_iter().map(|s| decode(s, merges)).collect()
}

/// Folds one worker's local counts into the running global counts.
fn add_counts(global: Vec<(Pair, usize)>, local: &Vec<(Pair, usize)>) -> (r: Vec<(Pair, usize)>)
    requires
        distinct_pairs(global@),
        forall|j: int| 0 <= j < global@.len() ==> (#[trigger] global@[j]).1 >= 1,
        distinct_pairs(local@),
        forall|j: int| 0 <= j < local@.len() ==> (#[trigger] local@[j]).1 >= 1,
        forall|p: Pair| count_of(global@, p) + count_of(local@, p) <= usize::MAX,
    ensures
        distinct_pairs(r@),
        forall|j: int| 0 <= j < r@.len() ==> (#[trigger] r@[j]).1 >= 1,
        forall|p: Pair| count_of(r@, p) == count_of(global@, p) + count_of(local@, p),
{
    let ghost g0 = global@;
    let mut global = global;
    let n = local.len();
    let mut i: usize = 0;
    proof {
        assert(local@.take(0) =~= Seq::<(Pair, usize)>::empty());
        assert(forall|p: Pair| count_of(local@.take(0), p) == 0);
    }
    while i < n
        invariant
            n == local@.len(),
            i <= n,
            distinct_pairs(local@),
            forall|j: int| 0 <= j < local@.len() ==> (#[trigger] local@[j]).1 >= 1,
            forall|p: Pair| count_of(g0, p) + count_of(local@, p) <= usize::MAX,
            distinct_pairs(global@),
            forall|j: int| 0 <= j < global@.len() ==> (#[trigger] global@[j]).1 >= 1,
            forall|p: Pair|
                count_of(global@, p) == count_of(g0, p) + count_of(local@.take(i as int), p),
        decreases n - i,
    {
        let ghost g = global@;
        let p = local[i].0;
        let c = local[i].1;
        proof {
            lemma_count_of_entry(local@, i as int);
            assert(forall|t: int| 0 <= t < i ==> (#[trigger] local@.take(i as int)[t]).0 != p);
            lemma_count_of_absent(local@.take(i as int), p);
            assert(local@.take(i as int + 1) =~= local@.take(i as int).push((p, c)));
            assert forall|q: Pair|
                count_of(local@.take(i as int + 1), q) == count_of(local@.take(i as int), q) + (
                if q == p {
                    c as nat
                } else {
                    0nat
                }) by {
                lemma_count_of_push_fresh(local@.take(i as int), p, c, q);
            }
        }
        match find_pair(&global, p) {
            Option::Some(j) => {
                let gc = global[j].1;
                proof {
                    lemma_count_of_entry(g, j as int);
                    assert(gc == count_of(g, p));
                    assert(count_of(g, p) == count_of(g0, p));
                    assert(c == count_of(local@, p));
                }
                global.set(j, (p, gc + c));
                proof {
                    assert forall|q: Pair|
                        count_of(global@, q) == (if q == p {
                            (gc + c) as nat
                        } else {
                            count_of(g, q)
                        }) by {
                        lemma_count_of_update(g, j as int, (gc + c) as usize, q);
                    }
                }
            },
            Option::None => {
                proof {
                    lemma_count_of_absent(g, p);
                }
                global.push((p, c));
                proof {
                    assert(global@ == g.push((p, c)));
                    assert forall|q: Pair|
                        count_of(global@, q) == (if q == p {
                            c as nat
                        } else {
                            count_of(g, q)
                        }) by {
                        lemma_count_of_push_fresh(g, p, c, q);
                    }
                    assert forall|a: int, b: int|
                        0 <= a < b < global@.len() implies (#[trigger] global@[a]).0 != (
                    #[trigger] global@[b]).0 by {
                        if b == g.len() {
                            assert(global@[a] == g[a]);
                        } else {
                            assert(global@[a] == g[a]);
                            assert(global@[b] == g[b]);
                        }
                    }
                }
            },
        }
        i = i + 1;
    }
    proof {
        assert(local@.take(n as int) =~= local@);
    }
    global
}

/// Sums every worker's local counts into corpus-global counts: the
/// single-threaded reduction between the two parallel phases of a round.
fn combine_counts(locals: &Vec<Vec<(Pair, usize)>>, Ghost(ss): Ghost<Seq<Seq<i32>>>) -> (r: Vec<
    (Pair, usize),
>)
    requires
        locals@.len() == ss.len(),
        forall|j: int| 0 <= j < locals@.len() ==> counts_for((#[trigger] locals@[j])@, ss[j]),
        corpus_len(ss) <= usize::MAX,
    ensures
        distinct_pairs(r@),
        forall|j: int| 0 <= j < r@.len() ==> (#[trigger] r@[j]).1 >= 1,
        forall|p: Pair| count_of(r@, p) == corpus_count(ss, p),
{
    let mut global: Vec<(Pair, usize)> = Vec::new();
    let n = locals.len();
    let mut i: usize = 0;
    proof {
        assert(ss.take(0) =~= Seq::<Seq<i32>>::empty());
    }
    while i < n
        invariant
            n == locals@.len(),
            i <= n,
            locals@.len() == ss.len(),
            forall|j: int| 0 <= j < locals@.len() ==> counts_for((#[trigger] locals@[j])@, ss[j]),
            corpus_len(ss) <= usize::MAX,
            distinct_pairs(global@),
            forall|j: int| 0 <= j < global@.len() ==> (#[trigger] global@[j]).1 >= 1,
            forall|p: Pair| count_of(global@, p) == corpus_count(ss.take(i as int), p),
        decreases n - i,
    {
        proof {
            assert(ss.take(i as int + 1) =~= ss.take(i as int).push(ss[i as int]));
            assert forall|p: Pair|
                corpus_count(ss.take(i as int + 1), p) == corpus_count(ss.take(i as int), p)
                    + pair_count(ss[i as int], p) by {
                lemma_corpus_count_push(ss.take(i as int), ss[i as int], p);
            }
            assert forall|p: Pair|
                count_of(global@, p) + count_of(locals@[i as int]@, p) <= usize::MAX by {
                assert(count_of(locals@[i as int]@, p) == pair_count(ss[i as int], p));
                lemma_corpus_count_prefix_le(ss, i as int + 1, p);
                lemma_corpus_count_le_len(ss, p);
            }
        }
        global = add_counts(global, &locals[i]);
        i = i + 1;
    }
    proof {
        assert(ss.take(n as int) =~= ss);
    }
    global
}

/// No sequence's largest unit exceeds the corpus maximum.
pub proof fn lemma_corpus_max_ge(ss: Seq<Seq<i32>>)
    ensures
        forall|j: int| 0 <= j < ss.len() ==> max_unit(#[trigger] ss[j]) <= corpus_max(ss),
    decreases ss.len(),
{
    if ss.len() > 0 {
        lemma_corpus_max_ge(ss.skip(1));
        assert forall|j: int| 0 <= j < ss.len() implies max_unit(#[trigger] ss[j]) <= corpus_max(
            ss,
        ) by {
            if j > 0 {
                assert(ss.skip(1)[j - 1] == ss[j]);
            }
        }
    }
}

/// Rewriting the whole corpus with a fresh unit below `bound` keeps every
/// unit below `bound`.
pub proof fn lemma_merge_all_below(ss: Seq<Seq<i32>>, p: Pair, idx: i32, bound: int)
    requires
        corpus_all_below(ss, bound),
        (idx as int) < bound,
    ensures
        corpus_all_below(merge_all(ss, p, idx), bound),
{
    let mm = merge_all(ss, p, idx);
    assert forall|j: int, u: int|
        0 <= j < mm.len() && 0 <= u < mm[j].len() implies (#[trigger] mm[j][u]) < bound by {
        assert(mm[j] == merge_full(ss[j], p, idx));
        lemma_merge_elements(ss[j], p, idx);
        if mm[j][u] != idx {
            let w = choose|w: int| 0 <= w < ss[j].len() && ss[j][w] == mm[j][u];
            assert(ss[j][w] < bound);
        }
    }
}

/// Rewriting never grows the corpus.
pub proof fn lemma_merge_all_len(ss: Seq<Seq<i32>>, p: Pair, idx: i32)
    ensures
        corpus_len(merge_all(ss, p, idx)) <= corpus_len(ss),
    decreases ss.len(),
{
    if ss.len() > 0 {
        lemma_merge_shrinks(ss[0], p, idx);
        assert(merge_all(ss, p, idx)[0] == merge_full(ss[0], p, idx));
        assert(merge_all(ss, p, idx).len() == ss.len());
        assert(merge_all(ss, p, idx).skip(1) =~= merge_all(ss.skip(1), p, idx));
        lemma_merge_all_len(ss.skip(1), p, idx);
    }
}

/// Rewriting removes every corpus-wide occurrence of the rewritten pair.
proof fn lemma_merge_all_removes_pair(ss: Seq<Seq<i32>>, p: Pair, idx: i32)
    requires
        idx != p.0,
        idx != p.1,
    ensures
        corpus_count(merge_all(ss, p, idx), p) == 0,
    decreases ss.len(),
{
    if ss.len() > 0 {
        lemma_merge_removes_pair(ss[0], p, idx);
        assert(merge_all(ss, p, idx)[0] == merge_full(ss[0], p, idx));
        assert(merge_all(ss, p, idx).len() == ss.len());
        assert(merge_all(ss, p, idx).skip(1) =~= merge_all(ss.skip(1), p, idx));
        lemma_merge_all_removes_pair(ss.skip(1), p, idx);
    }
}

/// Rewriting one pair never creates corpus-wide occurrences of a different
/// pair that avoids the replacement unit.
proof fn lemma_merge_all_count_mono(ss: Seq<Seq<i32>>, q: Pair, p: Pair, idx: i32)
    requires
        q != p,
        q.0 != idx,
        q.1 != idx,
    ensures
        corpus_count(merge_all(ss, p, idx), q) <= corpus_count(ss, q),
    decreases ss.len(),
{
    if ss.len() > 0 {
        lemma_merge_count_mono(ss[0], q, p, idx);
        assert(merge_all(ss, p, idx)[0] == merge_full(ss[0], p, idx));
        assert(merge_all(ss, p, idx).len() == ss.len());
        assert(merge_all(ss, p, idx).skip(1) =~= merge_all(ss.skip(1), p, idx));
        lemma_merge_all_count_mono(ss.skip(1), q, p, idx);
    }
}

/// A pair that does not occur anywhere, and whose units lie below the
/// fresh-id base, is never recorded by batched training.
proof fn lemma_fit_batch_absent_pair(ss: Seq<Seq<i32>>, rounds: nat, base: int, q: Pair)
    requires
        corpus_all_below(ss, base),
        i32::MIN <= base,
        base + rounds <= i32::MAX + 1,
        q.0 < base,
        q.1 < base,
        corpus_count(ss, q) == 0,
    ensures
        forall|k: int|
            0 <= k < fit_batch_spec(ss, rounds, base).1.len() ==> (#[trigger] fit_batch_spec(
                ss,
                rounds,
                base,
            ).1[k]).0 != q,
    decreases rounds,
{
    if rounds != 0 && (exists|p: Pair| is_corpus_top_pair(ss, p)) {
        let p = corpus_top_pair(ss);
        assert(is_corpus_top_pair(ss, p));
        let idx = base as i32;
        assert(idx as int == base);
        let ss2 = merge_all(ss, p, idx);
        lemma_merge_all_count_mono(ss, q, p, idx);
        lemma_merge_all_below(ss, p, idx, base + 1);
        lemma_fit_batch_absent_pair(ss2, (rounds - 1) as nat, base + 1, q);
        let tb = fit_batch_spec(ss, rounds, base).1;
        let rec = fit_batch_spec(ss2, (rounds - 1) as nat, base + 1).1;
        assert(tb == seq![(p, idx)] + rec);
        assert forall|k: int| 0 <= k < tb.len() implies (#[trigger] tb[k]).0 != q by {
            if k > 0 {
                assert(tb[k] == rec[k - 1]);
            }
        }
    }
}

/// Each pair is recorded at most once by a batched run: merging a pair
/// removes every corpus-wide occurrence, and later rounds cannot recreate
/// it.
pub proof fn lemma_fit_batch_pairs_distinct(ss: Seq<Seq<i32>>, rounds: nat, base: int)
    requires
        corpus_all_below(ss, base),
        i32::MIN <= base,
        base + rounds <= i32::MAX + 1,
    ensures
        ({
            let tb = fit_batch_spec(ss, rounds, base).1;
            forall|j: int, k: int|
                0 <= j < k < tb.len() ==> (#[trigger] tb[j]).0 != (#[trigger] tb[k]).0
        }),
    decreases rounds,
{
    if rounds != 0 && (exists|p: Pair| is_corpus_top_pair(ss, p)) {
        let p = corpus_top_pair(ss);
        assert(is_corpus_top_pair(ss, p));
        let idx = base as i32;
        assert(idx as int == base);
        let ss2 = merge_all(ss, p, idx);
        lemma_corpus_count_witness(ss, p);
        let w = choose|j: int| 0 <= j < ss.len() && pair_count(#[trigger] ss[j], p) >= 1;
        lemma_pair_occurs_contains(ss[w], p);
        assert(p.0 < idx && p.1 < idx) by {
            let a = choose|t: int| 0 <= t < ss[w].len() && ss[w][t] == p.0;
            let b = choose|t: int| 0 <= t < ss[w].len() && ss[w][t] == p.1;
        }
        lemma_merge_all_removes_pair(ss, p, idx);
        lemma_merge_all_below(ss, p, idx, base + 1);
        lemma_fit_batch_absent_pair(ss2, (rounds - 1) as nat, base + 1, p);
        lemma_fit_batch_pairs_distinct(ss2, (rounds - 1) as nat, base + 1);
        let tb = fit_batch_spec(ss, rounds, base).1;
        let rec = fit_batch_spec(ss2, (rounds - 1) as nat, base + 1).1;
        assert(tb == seq![(p, idx)] + rec);
        assert forall|j: int, k: int|
            0 <= j < k < tb.len() implies (#[trigger] tb[j]).0 != (#[trigger] tb[k]).0 by {
            assert(tb[k] == rec[k - 1]);
            if j > 0 {
                assert(tb[j] == rec[j - 1]);
            }
        }
    }
}

/// Appending a sequence adds its length.
proof fn lemma_corpus_len_push(ss: Seq<Seq<i32>>, s: Seq<i32>)
    ensures
        corpus_len(ss.push(s)) == corpus_len(ss) + s.len(),
    decreases ss.len(),
{
    if ss.len() == 0 {
        assert(ss.push(s)[0] == s);
        assert(ss.push(s).skip(1) =~= Seq::<Seq<i32>>::empty());
        assert(corpus_len(Seq::<Seq<i32>>::empty()) == 0);
    } else {
        assert(ss.push(s)[0] == ss[0]);
        assert(ss.push(s).skip(1) =~= ss.skip(1).push(s));
        lemma_corpus_len_push(ss.skip(1), s);
    }
}

/// Total unit count splits over concatenation.
proof fn lemma_corpus_len_concat(a: Seq<Seq<i32>>, b: Seq<Seq<i32>>)
    ensures
        corpus_len(a + b) == corpus_len(a) + corpus_len(b),
    decreases a.len(),
{
    if a.len() == 0 {
        assert(a + b =~= b);
    } else {
        assert((a + b)[0] == a[0]);
        assert((a + b).len() > 0);
        assert((a + b).skip(1) =~= a.skip(1) + b);
        lemma_corpus_len_concat(a.skip(1), b);
    }
}

/// The corpus maximum is itself a representable unit.
proof fn lemma_corpus_max_ub(ss: Seq<Seq<i32>>)
    ensures
        corpus_max(ss) <= i32::MAX as int,
    decreases ss.len(),
{
    if ss.len() > 0 {
        crate::trainer::lemma_max_unit_ub(ss[0]);
        lemma_corpus_max_ub(ss.skip(1));
    }
}

/// Number of distinct unit values across the corpus.
fn corpus_distinct_exec(units_list: &Vec<Vec<i32>>) -> (r: usize)
    ensures
        r == corpus_distinct(corpus_view(units_list@)),
{
    let ghost cv = corpus_view(units_list@);
    let n_seqs = units_list.len();
    let mut seen: Vec<i32> = Vec::new();
    proof {
        broadcast use vstd::set::group_set_axioms;

        assert(cv.take(0) =~= Seq::<Seq<i32>>::empty());
        assert(corpus_units(Seq::<Seq<i32>>::empty()) =~= Set::<i32>::empty());
        assert(seen@.to_set() =~= Set::<i32>::empty());
    }
    let mut si: usize = 0;
    while si < n_seqs
        invariant
            n_seqs == units_list@.len(),
            si <= n_seqs,
            cv == corpus_view(units_list@),
            seen@.no_duplicates(),
            seen@.to_set() == corpus_units(cv.take(si as int)),
        decreases n_seqs - si,
    {
        seen = collect_distinct(seen, &units_list[si]);
        proof {
            assert(cv[si as int] == units_list@[si as int]@);
            assert(cv.take(si as int + 1) =~= cv.take(si as int).push(cv[si as int]));
            lemma_corpus_units_push(cv.take(si as int), cv[si as int]);
        }
        si = si + 1;
    }
    proof {
        assert(cv.take(n_seqs as int) =~= cv);
        seen@.unique_seq_to_set();
    }
    seen.len()
}

/// Largest unit value across the corpus, or the smallest representable
/// value when the corpus holds no unit.
fn corpus_max_exec(units_list: &Vec<Vec<i32>>) -> (r: i32)
    ensures
        r as int == corpus_max(corpus_view(units_list@)),
{
    let ghost cv = corpus_view(units_list@);
    let n_seqs = units_list.len();
    let mut max_idx = i32::MIN;
    let mut mi: usize = 0;
    proof {
        assert(cv.take(0) =~= Seq::<Seq<i32>>::empty());
        assert(corpus_max(Seq::<Seq<i32>>::empty()) == i32::MIN as int);
    }
    while mi < n_seqs
        invariant
            n_seqs == units_list@.len(),
            mi <= n_seqs,
            cv == corpus_view(units_list@),
            max_idx as int == corpus_max(cv.take(mi as int)),
        decreases n_seqs - mi,
    {
        max_idx = fold_max(max_idx, &units_list[mi]);
        proof {
            assert(cv[mi as int] == units_list@[mi as int]@);
            assert(cv.take(mi as int + 1) =~= cv.take(mi as int).push(cv[mi as int]));
            lemma_corpus_max_push(cv.take(mi as int), cv[mi as int]);
        }
        mi = mi + 1;
    }
    proof {
        assert(cv.take(n_seqs as int) =~= cv);
    }
    max_idx
}

/// True of `r` exactly when the corpus is small enough for corpus-global
/// counts and training toward `target_vocab_size` keeps every fresh id
/// representable: the bounds [`fit_concurrent`] demands of its callers,
/// decided at run time.
pub fn fit_batch_ids_representable(units_list: &Vec<Vec<i32>>, target_vocab_size: usize) -> (r:
    bool)
    ensures
        r == (corpus_len(corpus_view(units_list@)) <= usize::MAX && batch_ids_in_range(
            corpus_view(units_list@),
            target_vocab_size,
        )),
{
    let ghost cv = corpus_view(units_list@);
    let n = units_list.len();
    let mut total: u128 = 0;
    let mut i: usize = 0;
    proof {
        assert(cv.take(0) =~= Seq::<Seq<i32>>::empty());
        assert(corpus_len(Seq::<Seq<i32>>::empty()) == 0);
    }
    while i < n
        invariant
            n == units_list@.len(),
            i <= n,
            cv == corpus_view(units_list@),
            total as nat == corpus_len(cv.take(i as int)),
            total <= usize::MAX as u128,
        decreases n - i,
    {
        proof {
            assert(cv[i as int] == units_list@[i as int]@);
            assert(cv.take(i as int + 1) =~= cv.take(i as int).push(cv[i as int]));
            lemma_corpus_len_push(cv.take(i as int), cv[i as int]);
        }
        total = total + (units_list[i].len() as u128);
        if total > (usize::MAX as u128) {
            proof {
                assert(corpus_len(cv.take(i as int + 1)) > usize::MAX);
                assert(cv.take(i as int + 1) + cv.skip(i as int + 1) =~= cv);
                lemma_corpus_len_concat(cv.take(i as int + 1), cv.skip(i as int + 1));
            }
            return false;
        }
        i = i + 1;
    }
    proof {
        assert(cv.take(n as int) =~= cv);
    }
    let initial = corpus_distinct_exec(units_list);
    let max = corpus_max_exec(units_list);
    proof {
        lemma_corpus_max_ub(cv);
    }
    if target_vocab_size <= initial {
        proof {
            assert(fit_batch_rounds(cv, target_vocab_size) == 0);
        }
        true
    } else {
        let rounds = target_vocab_size - initial;
        (max as i128) + (rounds as i128) <= i32::MAX as i128
    }
}

/// A one-sequence corpus has its sequence's statistics: the same distinct
/// units and the same largest unit, so a batched run starts from the same
/// round budget and fresh id as the single-sequence run.
pub proof fn lemma_singleton_corpus(s: Seq<i32>)
    ensures
        corpus_units(seq![s]) == s.to_set(),
        corpus_distinct(seq![s]) == crate::trainer::distinct_count(s),
        corpus_max(seq![s]) == max_unit(s),
{
    assert(seq![s].len() == 1);
    assert(seq![s][0] == s);
    assert(seq![s].skip(1) =~= Seq::<Seq<i32>>::empty());
    assert(corpus_units(Seq::<Seq<i32>>::empty()) =~= Set::<i32>::empty());
    assert(s.to_set().union(Set::<i32>::empty()) =~= s.to_set());
    assert(corpus_max(Seq::<Seq<i32>>::empty()) == i32::MIN as int);
    crate::trainer::lemma_max_unit_lb(s);
}

/// Round-count bound: a batched run records at most `rounds` merges, fewer
/// only when the corpus runs out of pairs first.
pub proof fn lemma_fit_batch_round_bound(ss: Seq<Seq<i32>>, rounds: nat, next_id: int)
    ensures
        fit_batch_spec(ss, rounds, next_id).1.len() <= rounds,
    decreases rounds,
{
    if rounds != 0 && (exists|p: Pair| is_corpus_top_pair(ss, p)) {
        let p = corpus_top_pair(ss);
        lemma_fit_batch_round_bound(
            merge_all(ss, p, next_id as i32),
            (rounds - 1) as nat,
            next_id + 1,
        );
    }
}

/// Batch/single agreement: training a one-sequence corpus records the same
/// merges as training the sequence alone, and the one rewritten sequence
/// matches.
pub proof fn lemma_fit_batch_single(s: Seq<i32>, rounds: nat, next_id: int)
    ensures
        fit_batch_spec(seq![s], rounds, next_id).1 == fit_spec(s, rounds, next_id).1,
        fit_batch_spec(seq![s], rounds, next_id).0 == seq![fit_spec(s, rounds, next_id).0],
    decreases rounds,
{
    assert(seq![s].len() == 1);
    assert(seq![s][0] == s);
    assert(seq![s].skip(1) =~= Seq::<Seq<i32>>::empty());
    assert forall|p: Pair| #[trigger] corpus_count(seq![s], p) == pair_count(s, p) by {
        assert(corpus_count(Seq::<Seq<i32>>::empty(), p) == 0);
    }
    assert forall|p: Pair| #[trigger] is_corpus_top_pair(seq![s], p) implies is_top_pair(
        s,
        p,
    ) by {
        assert forall|q: Pair| #[trigger] pair_count(s, q) <= pair_count(s, p) by {
            assert(corpus_count(seq![s], q) <= corpus_count(seq![s], p));
        }
        assert forall|q: Pair|
            q != p && #[trigger] pair_count(s, q) == pair_count(s, p) implies lex_lt(p, q) by {
            assert(corpus_count(seq![s], q) == corpus_count(seq![s], p));
        }
    }
    assert forall|p: Pair| #[trigger] is_top_pair(s, p) implies is_corpus_top_pair(
        seq![s],
        p,
    ) by {
        assert forall|q: Pair| #[trigger] corpus_count(seq![s], q) <= corpus_count(
            seq![s],
            p,
        ) by {
            assert(pair_count(s, q) <= pair_count(s, p));
        }
        assert forall|q: Pair|
            q != p && #[trigger] corpus_count(seq![s], q) == corpus_count(
                seq![s],
                p,
            ) implies lex_lt(p, q) by {
            assert(pair_count(s, q) == pair_count(s, p));
        }
    }
    if rounds == 0 {
    } else if exists|p: Pair| is_corpus_top_pair(seq![s], p) {
        let pc = corpus_top_pair(seq![s]);
        assert(is_corpus_top_pair(seq![s], pc));
        assert(is_top_pair(s, pc));
        assert(exists|q: Pair| is_top_pair(s, q));
        assert(is_top_pair(s, top_pair(s)));
        lemma_top_pair_unique(s, pc, top_pair(s));
        let idx = next_id as i32;
        assert(merge_all(seq![s], pc, idx) =~= seq![merge_full(s, pc, idx)]);
        lemma_fit_batch_single(merge_full(s, pc, idx), (rounds - 1) as nat, next_id + 1);
    } else {
        assert(!(exists|q: Pair| is_top_pair(s, q))) by {
            if exists|q: Pair| is_top_pair(s, q) {
                let q = choose|q: Pair| is_top_pair(s, q);
                assert(is_corpus_top_pair(seq![s], q));
            }
        }
    }
}

/// Learns merges from a whole corpus sharing one table: pair statistics are
/// summed corpus-wide, and each round's rewrite runs over every sequence in
/// parallel.
///
/// Fails with `InvalidTarget` exactly when the target does not exceed the
/// number of distinct units across the corpus; otherwise returns the
/// rewritten corpus and the learned table, as [`fit_batch_spec`] describes.
pub fn fit_concurrent(units_list: Vec<Vec<i32>>, target_vocab_size: usize) -> (r: Result<
    (Vec<Vec<i32>>, MergeTable),
    FitError,
>)
    requires
        batch_ids_in_range(corpus_view(units_list@), target_vocab_size),
        corpus_len(corpus_view(units_list@)) <= usize::MAX,
    ensures
        r is Err <==> target_vocab_size <= corpus_distinct(corpus_view(units_list@)),
        r is Err ==> r->Err_0 == FitError::InvalidTarget,
        r is Ok ==> ({
            let (out, tb) = fit_batch_spec(
                corpus_view(units_list@),
                fit_batch_rounds(corpus_view(units_list@), target_vocab_size),
                corpus_max(corpus_view(units_list@)) + 1,
            );
            &&& corpus_view(r->Ok_0.0@) == out
            &&& r->Ok_0.1@ == tb
            &&& r->Ok_0.1.wf()
            &&& tb.len() <= fit_batch_rounds(corpus_view(units_list@), target_vocab_size)
            &&& forall|j: int, k: int|
                0 <= j < k < tb.len() ==> (#[trigger] tb[j]).0 != (#[trigger] tb[k]).0
        }),
{
    let ghost cv0 = corpus_view(units_list@);
    let initial = corpus_distinct_exec(&units_list);
    if target_vocab_size <= initial {
        return Result::Err(FitError::InvalidTarget);
    }
    let num_merges = target_vocab_size - initial;
    let mut max_idx = corpus_max_exec(&units_list);
    let ghost base: int = corpus_max(cv0) + 1;
    proof {
        assert(max_idx as int == corpus_max(cv0));
        assert(num_merges == fit_batch_rounds(cv0, target_vocab_size));
        assert(base + num_merges <= i32::MAX + 1);
        assert(corpus_all_below(cv0, base)) by {
            lemma_corpus_max_ge(cv0);
            assert forall|j: int, u: int|
                0 <= j < cv0.len() && 0 <= u < cv0[j].len() implies (#[trigger] cv0[j][u])
                < base by {
                crate::trainer::lemma_max_unit_ge(cv0[j]);
            }
        }
    }
    let mut cur = units_list;
    let mut table = MergeTable::new();
    let mut done: usize = 0;
    while done < num_merges
        invariant_except_break
            done <= num_merges,
            base == corpus_max(cv0) + 1,
            i32::MIN <= base,
            base + num_merges <= i32::MAX + 1,
            table@.len() == done,
            max_idx as int == base + done - 1,
            corpus_len(corpus_view(cur@)) <= usize::MAX,
            corpus_all_below(corpus_view(cur@), base + done),
            forall|k: int|
                0 <= k < table@.len() ==> (#[trigger] table@[k]).1 == base + k && table@[k].1
                    > table@[k].0 .0 && table@[k].1 > table@[k].0 .1,
            fit_batch_spec(cv0, num_merges as nat, base) == (
                fit_batch_spec(corpus_view(cur@), (num_merges - done) as nat, base + done).0,
                table@ + fit_batch_spec(
                    corpus_view(cur@),
                    (num_merges - done) as nat,
                    base + done,
                ).1,
            ),
        ensures
            fit_batch_spec(cv0, num_merges as nat, base).0 == corpus_view(cur@),
            fit_batch_spec(cv0, num_merges as nat, base).1 == table@,
            forall|k: int|
                0 <= k < table@.len() ==> (#[trigger] table@[k]).1 == base + k && table@[k].1
                    > table@[k].0 .0 && table@[k].1 > table@[k].0 .1,
        decreases num_merges - done,
    {
        let ghost cvc = corpus_view(cur@);
        let ghost rem = (num_merges - done) as nat;
        let locals = par_counts(&cur);
        proof {
            assert forall|j: int| 0 <= j < locals@.len() implies counts_for(
                (#[trigger] locals@[j])@,
                cvc[j],
            ) by {
                assert(cvc[j] == cur@[j]@);
            }
        }
        let global = combine_counts(&locals, Ghost(cvc));
        if global.len() == 0 {
            proof {
                assert forall|p: Pair| !is_corpus_top_pair(cvc, p) by {
                    assert(count_of(global@, p) == 0);
                }
                assert(fit_batch_spec(cvc, rem, base + done) == (
                    cvc,
                    Seq::<(Pair, i32)>::empty(),
                ));
                assert(table@ + Seq::<(Pair, i32)>::empty() =~= table@);
            }
            break ;
        }
        let p = match pick_top(&global) {
            Option::Some(p) => p,
            Option::None => {
                proof {
                    assert(false);
                }
                (0, 0)
            },
        };
        proof {
            assert(is_corpus_top_pair(cvc, p)) by {
                assert(forall|q: Pair|
                    #[trigger] corpus_count(cvc, q) == count_of(global@, q));
            }
            assert(exists|q: Pair| is_corpus_top_pair(cvc, q));
            assert(is_corpus_top_pair(cvc, corpus_top_pair(cvc)));
            lemma_corpus_top_unique(cvc, p, corpus_top_pair(cvc));
            assert(p == corpus_top_pair(cvc));
        }
        let new_idx = max_idx + 1;
        proof {
            assert(new_idx as int == base + done);
            assert((base + done) as i32 == new_idx);
        }
        let next = par_merge(&cur, p, new_idx);
        let ghost tb0 = table@;
        table.entries.push((p, new_idx));
        proof {
            assert(corpus_view(next@) =~= merge_all(cvc, p, new_idx));
            let rec = fit_batch_spec(merge_all(cvc, p, new_idx), (rem - 1) as nat, base + done + 1);
            assert(fit_batch_spec(cvc, rem, base + done) == (rec.0, seq![(p, new_idx)] + rec.1));
            assert(table@ =~= tb0 + seq![(p, new_idx)]);
            assert(table@ + rec.1 =~= tb0 + (seq![(p, new_idx)] + rec.1));
            lemma_merge_all_below(cvc, p, new_idx, base + done + 1);
            lemma_merge_all_len(cvc, p, new_idx);
            lemma_corpus_count_witness(cvc, p);
            let j = choose|j: int| 0 <= j < cvc.len() && pair_count(#[trigger] cvc[j], p) >= 1;
            lemma_pair_occurs_contains(cvc[j], p);
            assert(p.0 < new_idx && p.1 < new_idx) by {
                let a = choose|t: int| 0 <= t < cvc[j].len() && cvc[j][t] == p.0;
                let b = choose|t: int| 0 <= t < cvc[j].len() && cvc[j][t] == p.1;
            }
        }
        cur = next;
        max_idx = new_idx;
        done = done + 1;
    }
    proof {
        let tb = table@;
        assert(wf_table(tb)) by {
            assert(forall|j: int, k: int|
                0 <= j < k < tb.len() ==> (#[trigger] tb[j]).1 < (#[trigger] tb[k]).1);
        }
        lemma_fit_batch_round_bound(cv0, num_merges as nat, base);
        assert(tb.len() <= fit_batch_rounds(cv0, target_vocab_size));
        lemma_fit_batch_pairs_distinct(cv0, num_merges as nat, base);
    }
    Result::Ok((cur, table))
}

/// Batched training with the table flattened to its ordered records.
pub fn fit_concurrent_py(units_list: Vec<Vec<i32>>, target_vocab_size: usize) -> (r: Result<
    (Vec<Vec<i32>>, Vec<(Pair, i32)>),
    FitError,
>)
    requires
        batch_ids_in_range(corpus_view(units_list@), target_vocab_size),
        corpus_len(corpus_view(units_list@)) <= usize::MAX,
    ensures
        r is Err <==> target_vocab_size <= corpus_distinct(corpus_view(units_list@)),
        r is Err ==> r->Err_0 == FitError::InvalidTarget,
        r is Ok ==> ({
            let (out, tb) = fit_batch_spec(
                corpus_view(units_list@),
                fit_batch_rounds(corpus_view(units_list@), target_vocab_size),
                corpus_max(corpus_view(units_list@)) + 1,
            );
            &&& corpus_view(r->Ok_0.0@) == out
            &&& r->Ok_0.1@ == tb
            &&& wf_table(r->Ok_0.1@)
        }),
{
    match fit_concurrent(units_list, target_vocab_size) {
        Result::Ok((out, table)) => Result::Ok((out, table.entries)),
        Result::Err(e) => Result::Err(e),
    }
}

/// Encodes every sequence of a corpus independently against one table, in
/// parallel; sequences share no mutable state.
pub fn encode_concurrent(units_list: Vec<Vec<i32>>, merges: &MergeTable) -> (r: Vec<Vec<i32>>)
    requires
        merges.wf(),
    ensures
        r@.len() == units_list@.len(),
        forall|j: int|
            0 <= j < r@.len() ==> (#[trigger] r@[j])@ == encode_spec(merges@, units_list@[j]@),
{
    par_encode(units_list, merges)
}

/// Decodes every sequence of a corpus independently against one table, in
/// parallel; sequences share no mutable state.
pub fn decode_concurrent(units_list: Vec<Vec<i32>>, merges: &MergeTable) -> (r: Vec<Vec<i32>>)
    requires
        merges.wf(),
    ensures
        r@.len() == units_list@.len(),
        forall|j: int|
            0 <= j < r@.len() ==> (#[trigger] r@[j])@ == expand_seq(merges@, units_list@[j]@),
{
    par_decode(units_list, merges)
}

/// Batched encoding against a table given as its ordered records.
pub fn encode_concurrent_py(units_list: Vec<Vec<i32>>, merges: Vec<(Pair, i32)>) -> (r: Vec<
    Vec<i32>,
>)
    requires
        wf_table(merges@),
    ensures
        r@.len() == units_list@.len(),
        forall|j: int|
            0 <= j < r@.len() ==> (#[trigger] r@[j])@ == encode_spec(merges@, units_list@[j]@),
{
    let table = MergeTable { entries: merges };
    encode_concurrent(units_list, &table)
}

/// Batched decoding against a table given as its ordered records.
pub fn decode_concurrent_py(units_list: Vec<Vec<i32>>, merges: Vec<(Pair, i32)>) -> (r: Vec<
    Vec<i32>,
>)
    requires
        wf_table(merges@),
    ensures
        r@.len() == units_list@.len(),
        forall|j: int|
            0 <= j < r@.len() ==> (#[trigger] r@[j])@ == expand_seq(merges@, units_list@[j]@),
{
    let table = MergeTable { entries: merges };
    decode_concurrent(units_list, &table)
}

} // verus!
