//! Encoding and decoding against a trained merge table.
//!
//! The decoder's meaning is full expansion: every merge-created id unfolds
//! into its constituent units, recursively, until only plain units remain.
//! The encoder replays merges in learned-priority order; its defining law,
//! proved here, is that encoding never changes what a sequence expands to.

use vstd::prelude::*;

use crate::pairs::count_of;
use crate::pairs::get_counts;
use crate::pairs::lemma_count_of_entry;
use crate::pairs::lemma_count_of_present;
use crate::pairs::pair_count;
use crate::pairs::Pair;
use crate::rewrite::lemma_merge_shrinks;
use crate::rewrite::merge;
use crate::rewrite::merge_full;
use crate::table::id_of;
use crate::table::lemma_id_of_inverse;
use crate::table::lemma_id_of_unique;
use crate::table::lemma_pair_of_id_components;
use crate::table::lemma_pair_of_id_entry;
use crate::table::pair_of_id;
use crate::table::wf_table;
use crate::table::MergeTable;
use crate::trainer::all_below;

verus! {

/// Full expansion of one unit: a unit recorded as an id expands into the
/// expansions of the units of its pair; any other unit stands for itself.
/// The guard on the recorded units keeps the definition total; in a
/// well-formed table it always holds.
pub open spec fn expand_unit(t: Seq<(Pair, i32)>, u: i32) -> Seq<i32>
    decreases u - i32::MIN,
{
    match pair_of_id(t, u) {
        Option::Some(p) => {
            if p.0 < u && p.1 < u {
                expand_unit(t, p.0) + expand_unit(t, p.1)
            } else {
                seq![u]
            }
        },
        Option::None => seq![u],
    }
}

/// Full expansion of a sequence, unit by unit.
pub open spec fn expand_seq(t: Seq<(Pair, i32)>, s: Seq<i32>) -> Seq<i32>
    decreases s.len(),
{
    if s.len() == 0 {
        Seq::empty()
    } else {
        expand_unit(t, s[0]) + expand_seq(t, s.skip(1))
    }
}

/// A unit that no record of the table expands.
pub open spec fn terminal(t: Seq<(Pair, i32)>, u: i32) -> bool {
    pair_of_id(t, u) is None
}

/// A sequence of units that no record of the table expands.
pub open spec fn terminal_seq(t: Seq<(Pair, i32)>, s: Seq<i32>) -> bool {
    forall|j: int| 0 <= j < s.len() ==> terminal(t, #[trigger] s[j])
}

/// One full left-to-right expansion pass: every recorded id becomes its
/// pair of units, every other unit stays.
pub open spec fn expand_one(t: Seq<(Pair, i32)>, s: Seq<i32>) -> Seq<i32>
    decreases s.len(),
{
    if s.len() == 0 {
        Seq::empty()
    } else {
        (match pair_of_id(t, s[0]) {
            Option::Some(p) => seq![p.0, p.1],
            Option::None => seq![s[0]],
        }) + expand_one(t, s.skip(1))
    }
}

/// Expansion distributes over concatenation.
pub proof fn lemma_expand_seq_concat(t: Seq<(Pair, i32)>, a: Seq<i32>, b: Seq<i32>)
    ensures
        expand_seq(t, a + b) == expand_seq(t, a) + expand_seq(t, b),
    decreases a.len(),
{
    if a.len() == 0 {
        assert(a + b =~= b);
        assert(expand_seq(t, a) + expand_seq(t, b) =~= expand_seq(t, b));
    } else {
        assert((a + b)[0] == a[0]);
        assert((a + b).len() > 0);
        assert((a + b).skip(1) =~= a.skip(1) + b);
        lemma_expand_seq_concat(t, a.skip(1), b);
        assert(expand_unit(t, a[0]) + (expand_seq(t, a.skip(1)) + expand_seq(t, b)) =~= (
        expand_unit(t, a[0]) + expand_seq(t, a.skip(1))) + expand_seq(t, b));
    }
}

/// One-pass expansion distributes over concatenation.
pub proof fn lemma_expand_one_concat(t: Seq<(Pair, i32)>, a: Seq<i32>, b: Seq<i32>)
    ensures
        expand_one(t, a + b) == expand_one(t, a) + expand_one(t, b),
    decreases a.len(),
{
    if a.len() == 0 {
        assert(a + b =~= b);
        assert(expand_one(t, a) + expand_one(t, b) =~= expand_one(t, b));
    } else {
        assert((a + b)[0] == a[0]);
        assert((a + b).len() > 0);
        assert((a + b).skip(1) =~= a.skip(1) + b);
        lemma_expand_one_concat(t, a.skip(1), b);
        let h = match pair_of_id(t, a[0]) {
            Option::Some(p) => seq![p.0, p.1],
            Option::None => seq![a[0]],
        };
        assert(h + (expand_one(t, a.skip(1)) + expand_one(t, b)) =~= (h + expand_one(t, a.skip(1)))
            + expand_one(t, b));
    }
}

/// Expanding a singleton sequence expands its one unit.
pub proof fn lemma_expand_seq_singleton(t: Seq<(Pair, i32)>, u: i32)
    ensures
        expand_seq(t, seq![u]) == expand_unit(t, u),
{
    assert(seq![u].skip(1) =~= Seq::<i32>::empty());
    assert(expand_seq(t, Seq::<i32>::empty()) == Seq::<i32>::empty());
    assert(expand_unit(t, u) + Seq::<i32>::empty() =~= expand_unit(t, u));
}

/// Every unit expands to at least one unit.
pub proof fn lemma_expand_unit_len(t: Seq<(Pair, i32)>, u: i32)
    ensures
        expand_unit(t, u).len() >= 1,
    decreases u - i32::MIN,
{
    match pair_of_id(t, u) {
        Option::Some(p) => {
            if p.0 < u && p.1 < u {
                lemma_expand_unit_len(t, p.0);
                lemma_expand_unit_len(t, p.1);
            }
        },
        Option::None => {},
    }
}

/// Expansion never shortens a sequence.
pub proof fn lemma_expand_seq_len(t: Seq<(Pair, i32)>, s: Seq<i32>)
    ensures
        expand_seq(t, s).len() >= s.len(),
    decreases s.len(),
{
    if s.len() > 0 {
        lemma_expand_unit_len(t, s[0]);
        lemma_expand_seq_len(t, s.skip(1));
    }
}

/// A sequence of plain units expands to itself: decoding passes it through
/// unchanged, whatever its length.
pub proof fn lemma_expand_terminal(t: Seq<(Pair, i32)>, s: Seq<i32>)
    requires
        terminal_seq(t, s),
    ensures
        expand_seq(t, s) == s,
    decreases s.len(),
{
    if s.len() > 0 {
        assert(terminal(t, s[0]));
        assert(terminal_seq(t, s.skip(1))) by {
            assert(forall|j: int| 0 <= j < s.skip(1).len() ==> s.skip(1)[j] == s[j + 1]);
        }
        lemma_expand_terminal(t, s.skip(1));
        assert(seq![s[0]] + s.skip(1) =~= s);
    }
}

/// The expansion of a unit is already fully expanded.
pub proof fn lemma_expand_unit_fixpoint(t: Seq<(Pair, i32)>, u: i32)
    ensures
        expand_seq(t, expand_unit(t, u)) == expand_unit(t, u),
    decreases u - i32::MIN,
{
    match pair_of_id(t, u) {
        Option::Some(p) => {
            if p.0 < u && p.1 < u {
                lemma_expand_unit_fixpoint(t, p.0);
                lemma_expand_unit_fixpoint(t, p.1);
                lemma_expand_seq_concat(t, expand_unit(t, p.0), expand_unit(t, p.1));
            } else {
                lemma_expand_seq_singleton(t, u);
            }
        },
        Option::None => {
            lemma_expand_seq_singleton(t, u);
        },
    }
}

/// Decoding is idempotent: an already expanded sequence has no redex left,
/// so expanding it again changes nothing.
pub proof fn lemma_decode_idempotent(t: Seq<(Pair, i32)>, s: Seq<i32>)
    ensures
        expand_seq(t, expand_seq(t, s)) == expand_seq(t, s),
    decreases s.len(),
{
    if s.len() > 0 {
        lemma_expand_seq_concat(t, expand_unit(t, s[0]), expand_seq(t, s.skip(1)));
        lemma_expand_unit_fixpoint(t, s[0]);
        lemma_decode_idempotent(t, s.skip(1));
    }
}

/// One expansion pass keeps the full expansion unchanged.
pub proof fn lemma_expand_one_preserves(t: Seq<(Pair, i32)>, s: Seq<i32>)
    requires
        wf_table(t),
    ensures
        expand_seq(t, expand_one(t, s)) == expand_seq(t, s),
    decreases s.len(),
{
    if s.len() > 0 {
        lemma_expand_one_preserves(t, s.skip(1));
        match pair_of_id(t, s[0]) {
            Option::Some(p) => {
                lemma_pair_of_id_components(t, s[0]);
                lemma_expand_seq_concat(t, seq![p.0, p.1], expand_one(t, s.skip(1)));
                assert(seq![p.0, p.1].skip(1) =~= seq![p.1]);
                lemma_expand_seq_singleton(t, p.1);
                assert(expand_seq(t, seq![p.0, p.1]) == expand_unit(t, p.0) + expand_unit(
                    t,
                    p.1,
                ));
                assert(expand_unit(t, s[0]) == expand_unit(t, p.0) + expand_unit(t, p.1));
            },
            Option::None => {
                lemma_expand_seq_concat(t, seq![s[0]], expand_one(t, s.skip(1)));
                lemma_expand_seq_singleton(t, s[0]);
            },
        }
    }
}

/// Collapsing occurrences of a recorded pair into its id keeps the full
/// expansion unchanged: the id expands right back into the pair.
pub proof fn lemma_expand_merge(t: Seq<(Pair, i32)>, s: Seq<i32>, p: Pair, idx: i32)
    requires
        wf_table(t),
        pair_of_id(t, idx) == Option::Some(p),
    ensures
        expand_seq(t, merge_full(s, p, idx)) == expand_seq(t, s),
    decreases s.len(),
{
    lemma_pair_of_id_components(t, idx);
    if s.len() < 2 {
    } else if s[0] == p.0 && s[1] == p.1 {
        let m2 = merge_full(s.skip(2), p, idx);
        lemma_expand_merge(t, s.skip(2), p, idx);
        lemma_expand_seq_concat(t, seq![idx], m2);
        lemma_expand_seq_singleton(t, idx);
        assert(expand_unit(t, idx) == expand_unit(t, p.0) + expand_unit(t, p.1));
        assert(s.skip(1)[0] == s[1]);
        assert(s.skip(1).len() > 0);
        assert(s.skip(1).skip(1) =~= s.skip(2));
        assert(expand_seq(t, s.skip(1)) == expand_unit(t, p.1) + expand_seq(t, s.skip(2)));
        assert(expand_seq(t, s) == expand_unit(t, p.0) + expand_seq(t, s.skip(1)));
        assert(expand_seq(t, s) == expand_unit(t, p.0) + (expand_unit(t, p.1) + expand_seq(
            t,
            s.skip(2),
        )));
        assert((expand_unit(t, p.0) + expand_unit(t, p.1)) + expand_seq(t, s.skip(2)) =~=
        expand_unit(t, p.0) + (expand_unit(t, p.1) + expand_seq(t, s.skip(2))));
    } else {
        let m2 = merge_full(s.skip(1), p, idx);
        lemma_expand_merge(t, s.skip(1), p, idx);
        lemma_expand_seq_concat(t, seq![s[0]], m2);
        lemma_expand_seq_singleton(t, s[0]);
    }
}

/// `p`, recorded under id `i`, is the merge the encoder applies next to `s`:
/// it occurs in `s` and no other occurring recorded pair has a smaller id.
pub open spec fn is_best_merge(t: Seq<(Pair, i32)>, s: Seq<i32>, p: Pair, i: i32) -> bool {
    &&& pair_count(s, p) >= 1
    &&& id_of(t, p) == Option::Some(i)
    &&& forall|q: Pair|
        pair_count(s, q) >= 1 && (#[trigger] id_of(t, q)) is Some ==> i <= id_of(t, q)->Some_0
}

/// The merge the encoder applies next, if any occurring pair is recorded.
pub open spec fn best_merge(t: Seq<(Pair, i32)>, s: Seq<i32>) -> Option<(Pair, i32)> {
    if exists|pi: (Pair, i32)| is_best_merge(t, s, pi.0, pi.1) {
        Option::Some(choose|pi: (Pair, i32)| is_best_merge(t, s, pi.0, pi.1))
    } else {
        Option::None
    }
}

/// Replays the table against `s` in learned-priority order: repeatedly
/// rewrite with the occurring recorded pair of smallest id, until the
/// sequence is short or no occurring pair is recorded.
pub open spec fn encode_spec(t: Seq<(Pair, i32)>, s: Seq<i32>) -> Seq<i32>
    decreases s.len(),
{
    if s.len() < 2 {
        s
    } else {
        match best_merge(t, s) {
            Option::Some(pi) => {
                proof {
                    assert(is_best_merge(t, s, pi.0, pi.1));
                    lemma_merge_shrinks(s, pi.0, pi.1);
                }
                encode_spec(t, merge_full(s, pi.0, pi.1))
            },
            Option::None => s,
        }
    }
}

/// Encoding never changes what a sequence decodes to.
pub proof fn lemma_encode_preserves_expansion(t: Seq<(Pair, i32)>, s: Seq<i32>)
    requires
        wf_table(t),
    ensures
        expand_seq(t, encode_spec(t, s)) == expand_seq(t, s),
    decreases s.len(),
{
    if s.len() < 2 {
    } else {
        match best_merge(t, s) {
            Option::Some(pi) => {
                assert(is_best_merge(t, s, pi.0, pi.1));
                lemma_merge_shrinks(s, pi.0, pi.1);
                lemma_id_of_inverse(t, pi.0);
                lemma_expand_merge(t, s, pi.0, pi.1);
                lemma_encode_preserves_expansion(t, merge_full(s, pi.0, pi.1));
            },
            Option::None => {},
        }
    }
}

/// Round-trip: a sequence of plain units — none of them a merge-created id —
/// encodes and then decodes back to exactly itself.
pub proof fn lemma_round_trip(t: Seq<(Pair, i32)>, s: Seq<i32>)
    requires
        wf_table(t),
        terminal_seq(t, s),
    ensures
        expand_seq(t, encode_spec(t, s)) == s,
{
    lemma_encode_preserves_expansion(t, s);
    lemma_expand_terminal(t, s);
}

/// Units below the fresh-id base are plain for a table whose ids all lie at
/// or above the base — as a trained table's do.  With [`lemma_round_trip`],
/// any sequence over the training alphabet encodes and decodes back to
/// itself.
pub proof fn lemma_below_base_terminal(t: Seq<(Pair, i32)>, base: int, s: Seq<i32>)
    requires
        forall|k: int| 0 <= k < t.len() ==> (#[trigger] t[k]).1 >= base,
        all_below(s, base),
    ensures
        terminal_seq(t, s),
{
    assert forall|j: int| 0 <= j < s.len() implies terminal(t, #[trigger] s[j]) by {
        if pair_of_id(t, s[j]) is Some {
            lemma_pair_of_id_entry(t, s[j]);
            let k = choose|k: int|
                0 <= k < t.len() && #[trigger] t[k] == (pair_of_id(t, s[j])->Some_0, s[j]);
            assert(t[k].1 >= base);
        }
    }
}

/// A sequence without two units has no pair to merge: the encoder returns
/// it unchanged.
pub proof fn lemma_encode_short(t: Seq<(Pair, i32)>, s: Seq<i32>)
    requires
        s.len() < 2,
    ensures
        encode_spec(t, s) == s,
{
}

/// Applies a trained table to `units`, earliest-learned merges first: at
/// each step the occurring pair with the smallest recorded id is rewritten;
/// encoding stops when no occurring adjacent pair is recorded.
pub fn encode(units: Vec<i32>, merges: &MergeTable) -> (r: Vec<i32>)
    requires
        merges.wf(),
    ensures
        r@ == encode_spec(merges@, units@),
{
    let ghost t = merges@;
    let ghost s0 = units@;
    let mut cur = units;
    while cur.len() >= 2
        invariant_except_break
            merges@ == t,
            wf_table(t),
            encode_spec(t, cur@) == encode_spec(t, s0),
        ensures
            encode_spec(t, cur@) == encode_spec(t, s0),
            cur@.len() < 2 || best_merge(t, cur@) is None,
        decreases cur@.len(),
    {
        let counts = get_counts(&cur);
        let mut best: Option<(Pair, i32)> = Option::None;
        let mut k: usize = 0;
        while k < counts.len()
            invariant
                merges@ == t,
                k <= counts@.len(),
                match best {
                    Option::None => forall|j: int|
                        0 <= j < k ==> id_of(t, (#[trigger] counts@[j]).0) is None,
                    Option::Some(pi) => {
                        &&& exists|j: int| 0 <= j < k && (#[trigger] counts@[j]).0 == pi.0
                        &&& id_of(t, pi.0) == Option::Some(pi.1)
                        &&& forall|j: int|
                            0 <= j < k && id_of(t, (#[trigger] counts@[j]).0) is Some ==> pi.1
                                <= id_of(t, counts@[j].0)->Some_0
                    },
                },
            decreases counts@.len() - k,
        {
            let q = counts[k].0;
            match merges.lookup_pair(q) {
                Option::Some(i) => {
                    match best {
                        Option::None => {
                            best = Option::Some((q, i));
                            assert(counts@[k as int].0 == q);
                        },
                        Option::Some(b) => {
                            if i < b.1 {
                                best = Option::Some((q, i));
                                assert(counts@[k as int].0 == q);
                            }
                        },
                    }
                },
                Option::None => {},
            }
            k = k + 1;
        }
        match best {
            Option::None => {
                proof {
                    assert forall|pi: (Pair, i32)| !is_best_merge(t, cur@, pi.0, pi.1) by {
                        if pair_count(cur@, pi.0) >= 1 {
                            assert(count_of(counts@, pi.0) >= 1);
                            lemma_count_of_present(counts@, pi.0);
                        }
                    }
                    assert(best_merge(t, cur@) is None);
                    assert(encode_spec(t, cur@) == cur@);
                }
                break ;
            },
            Option::Some(bi) => {
                let p = bi.0;
                let i = bi.1;
                proof {
                    assert(is_best_merge(t, cur@, p, i)) by {
                        let j = choose|j: int|
                            0 <= j < counts@.len() && (#[trigger] counts@[j]).0 == p;
                        lemma_count_of_entry(counts@, j);
                        assert(pair_count(cur@, p) == count_of(counts@, p));
                        assert forall|q: Pair|
                            pair_count(cur@, q) >= 1 && (#[trigger] id_of(t, q)) is Some implies i
                            <= id_of(t, q)->Some_0 by {
                            assert(count_of(counts@, q) >= 1);
                            lemma_count_of_present(counts@, q);
                        }
                    }
                    assert(best_merge(t, cur@) == Option::Some((p, i))) by {
                        assert(is_best_merge(t, cur@, ((p, i)).0, ((p, i)).1));
                        assert(exists|pi: (Pair, i32)| is_best_merge(t, cur@, pi.0, pi.1));
                        let pi = choose|pi: (Pair, i32)| is_best_merge(t, cur@, pi.0, pi.1);
                        assert(pi.1 <= i);
                        assert(i <= pi.1);
                        lemma_id_of_unique(t, pi.0, p);
                    }
                    lemma_merge_shrinks(cur@, p, i);
                    assert(encode_spec(t, cur@) == encode_spec(t, merge_full(cur@, p, i)));
                }
                let next = merge(&cur, p, i);
                cur = next;
            },
        }
    }
    proof {
        assert(encode_spec(t, cur@) == cur@);
    }
    cur
}

/// Expands every merge-created id in `units` back into its constituent
/// units, repeating full passes until a pass replaces nothing.  Units absent
/// from the table pass through unchanged.
pub fn decode(units: Vec<i32>, merges: &MergeTable) -> (r: Vec<i32>)
    requires
        merges.wf(),
    ensures
        r@ == expand_seq(merges@, units@),
{
    let ghost t = merges@;
    let ghost s0 = units@;
    let mut cur = units;
    proof {
        lemma_expand_seq_len(t, cur@);
    }
    loop
        invariant_except_break
            merges@ == t,
            wf_table(t),
            expand_seq(t, cur@) == expand_seq(t, s0),
        ensures
            cur@ == expand_seq(t, s0),
        decreases expand_seq(t, cur@).len() - cur@.len(),
    {
        let n = cur.len();
        let mut next: Vec<i32> = Vec::new();
        let mut changed = false;
        let mut i: usize = 0;
        proof {
            assert(cur@.take(0) =~= Seq::<i32>::empty());
        }
        while i < n
            invariant
                merges@ == t,
                n == cur@.len(),
                i <= n,
                next@ == expand_one(t, cur@.take(i as int)),
                changed <==> !terminal_seq(t, cur@.take(i as int)),
                next@.len() >= i,
                changed ==> next@.len() >= i + 1,
            decreases n - i,
        {
            let ghost pre = next@;
            let u = cur[i];
            proof {
                assert(cur@.take(i as int + 1) =~= cur@.take(i as int) + seq![u]);
                lemma_expand_one_concat(t, cur@.take(i as int), seq![u]);
                assert(seq![u].skip(1) =~= Seq::<i32>::empty());
                assert(expand_one(t, Seq::<i32>::empty()) == Seq::<i32>::empty());
                assert(seq![u][0] == u);
            }
            match merges.lookup_id(u) {
                Option::Some(p) => {
                    next.push(p.0);
                    next.push(p.1);
                    changed = true;
                    proof {
                        assert(expand_one(t, seq![u]) =~= seq![p.0, p.1]);
                        assert(next@ =~= pre + seq![p.0, p.1]);
                        assert(!terminal(t, u));
                        assert(!terminal_seq(t, cur@.take(i as int + 1))) by {
                            assert(cur@.take(i as int + 1)[i as int] == u);
                        }
                    }
                },
                Option::None => {
                    next.push(u);
                    proof {
                        assert(expand_one(t, seq![u]) =~= seq![u]);
                        assert(next@ =~= pre + seq![u]);
                        assert(terminal(t, u));
                        assert(terminal_seq(t, cur@.take(i as int + 1)) <==> terminal_seq(
                            t,
                            cur@.take(i as int),
                        )) by {
                            assert(forall|j: int|
                                0 <= j < i as int + 1 ==> cur@.take(i as int + 1)[j] == cur@[j]);
                            assert(forall|j: int|
                                0 <= j < i as int ==> cur@.take(i as int)[j] == cur@[j]);
                            if terminal_seq(t, cur@.take(i as int)) {
                                assert forall|j: int|
                                    0 <= j < i as int + 1 implies terminal(
                                    t,
                                    #[trigger] cur@.take(i as int + 1)[j],
                                ) by {
                                    if j < i as int {
                                        assert(terminal(t, cur@.take(i as int)[j]));
                                    }
                                }
                            } else {
                                let j = choose|j: int|
                                    0 <= j < i as int && !terminal(
                                        t,
                                        #[trigger] cur@.take(i as int)[j],
                                    );
                                assert(!terminal(t, cur@.take(i as int + 1)[j]));
                            }
                        }
                    }
                },
            }
            i = i + 1;
        }
        proof {
            assert(cur@.take(n as int) =~= cur@);
        }
        if !changed {
            proof {
                lemma_expand_terminal(t, cur@);
            }
            break ;
        }
        proof {
            lemma_expand_one_preserves(t, cur@);
            lemma_expand_seq_len(t, next@);
        }
        cur = next;
    }
    cur
}

/// Encoding against a table given as its ordered `(pair, id)` records, the
/// external representation of a merge table.
pub fn encode_py(units: Vec<i32>, merges: Vec<(Pair, i32)>) -> (r: Vec<i32>)
    requires
        wf_table(merges@),
    ensures
        r@ == encode_spec(merges@, units@),
{
    let table = MergeTable { entries: merges };
    encode(units, &table)
}

/// Decoding against a table given as its ordered `(pair, id)` records.
pub fn decode_py(units: Vec<i32>, merges: Vec<(Pair, i32)>) -> (r: Vec<i32>)
    requires
        wf_table(merges@),
    ensures
        r@ == expand_seq(merges@, units@),
{
    let table = MergeTable { entries: merges };
    decode(units, &table)
}

} // verus!
