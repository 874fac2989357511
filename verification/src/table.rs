//! The merge table: an insertion-ordered record of the merges a training run
//! learned.  Order is priority — records learned earlier win at encode time —
//! and the id-growth invariant guarantees that decoding terminates.

use vstd::prelude::*;

use crate::pairs::Pair;

verus! {

/// Record-list well-formedness: created ids grow strictly along the list and
/// each id is strictly greater than both units of its pair, so expanding an
/// id always yields strictly smaller units and ids are never reused.
pub open spec fn wf_table(t: Seq<(Pair, i32)>) -> bool {
    &&& forall|j: int|
        0 <= j < t.len() ==> (#[trigger] t[j]).1 > t[j].0 .0 && t[j].1 > t[j].0 .1
    &&& forall|j: int, k: int|
        0 <= j < k < t.len() ==> (#[trigger] t[j]).1 < (#[trigger] t[k]).1
}

/// Id recorded for pair `p`: the id of the first record for `p`, if any.
pub open spec fn id_of(t: Seq<(Pair, i32)>, p: Pair) -> Option<i32>
    decreases t.len(),
{
    if t.len() == 0 {
        Option::None
    } else if t[0].0 == p {
        Option::Some(t[0].1)
    } else {
        id_of(t.skip(1), p)
    }
}

/// Pair recorded under id `u`: the pair of the first record whose id is `u`.
pub open spec fn pair_of_id(t: Seq<(Pair, i32)>, u: i32) -> Option<Pair>
    decreases t.len(),
{
    if t.len() == 0 {
        Option::None
    } else if t[0].1 == u {
        Option::Some(t[0].0)
    } else {
        pair_of_id(t.skip(1), u)
    }
}

/// Well-formedness carries over to every tail of the record list.
pub proof fn lemma_wf_skip(t: Seq<(Pair, i32)>)
    requires
        wf_table(t),
        t.len() > 0,
    ensures
        wf_table(t.skip(1)),
{
    assert(forall|j: int| 0 <= j < t.skip(1).len() ==> t.skip(1)[j] == t[j + 1]);
}

/// A recorded id points at an actual record.
pub proof fn lemma_id_of_entry(t: Seq<(Pair, i32)>, p: Pair)
    requires
        id_of(t, p) is Some,
    ensures
        exists|j: int| 0 <= j < t.len() && #[trigger] t[j] == (p, id_of(t, p)->Some_0),
    decreases t.len(),
{
    if t.len() > 0 {
        if t[0].0 == p {
            assert(t[0] == (p, id_of(t, p)->Some_0));
        } else {
            lemma_id_of_entry(t.skip(1), p);
            let j = choose|j: int|
                0 <= j < t.skip(1).len() && #[trigger] t.skip(1)[j] == (
                    p,
                    id_of(t.skip(1), p)->Some_0,
                );
            assert(t[j + 1] == (p, id_of(t, p)->Some_0));
        }
    }
}

/// A recorded pair points at an actual record.
pub proof fn lemma_pair_of_id_entry(t: Seq<(Pair, i32)>, u: i32)
    requires
        pair_of_id(t, u) is Some,
    ensures
        exists|j: int| 0 <= j < t.len() && #[trigger] t[j] == (pair_of_id(t, u)->Some_0, u),
    decreases t.len(),
{
    if t.len() > 0 {
        if t[0].1 == u {
            assert(t[0] == (pair_of_id(t, u)->Some_0, u));
        } else {
            lemma_pair_of_id_entry(t.skip(1), u);
            let j = choose|j: int|
                0 <= j < t.skip(1).len() && #[trigger] t.skip(1)[j] == (
                    pair_of_id(t.skip(1), u)->Some_0,
                    u,
                );
            assert(t[j + 1] == (pair_of_id(t, u)->Some_0, u));
        }
    }
}

/// In a well-formed table an id occurs in at most one record, so any record
/// with id `u` determines `pair_of_id`.
pub proof fn lemma_entry_pair_of_id(t: Seq<(Pair, i32)>, j: int)
    requires
        wf_table(t),
        0 <= j < t.len(),
    ensures
        pair_of_id(t, t[j].1) == Option::Some(t[j].0),
    decreases t.len(),
{
    if j == 0 {
    } else {
        assert(t[0].1 < t[j].1);
        lemma_wf_skip(t);
        lemma_entry_pair_of_id(t.skip(1), j - 1);
        assert(t.skip(1)[j - 1] == t[j]);
    }
}

/// In a well-formed table, looking a pair up and mapping its id back returns
/// the same pair.
pub proof fn lemma_id_of_inverse(t: Seq<(Pair, i32)>, p: Pair)
    requires
        wf_table(t),
        id_of(t, p) is Some,
    ensures
        pair_of_id(t, id_of(t, p)->Some_0) == Option::Some(p),
{
    lemma_id_of_entry(t, p);
    let j = choose|j: int| 0 <= j < t.len() && #[trigger] t[j] == (p, id_of(t, p)->Some_0);
    lemma_entry_pair_of_id(t, j);
}

/// In a well-formed table, the units of a recorded pair are strictly smaller
/// than the id that replaces them.
pub proof fn lemma_pair_of_id_components(t: Seq<(Pair, i32)>, u: i32)
    requires
        wf_table(t),
        pair_of_id(t, u) is Some,
    ensures
        pair_of_id(t, u)->Some_0.0 < u,
        pair_of_id(t, u)->Some_0.1 < u,
{
    lemma_pair_of_id_entry(t, u);
    let j = choose|j: int| 0 <= j < t.len() && #[trigger] t[j] == (pair_of_id(t, u)->Some_0, u);
    assert(t[j].1 > t[j].0 .0 && t[j].1 > t[j].0 .1);
}

/// In a well-formed table, two pairs recorded under the same id are equal.
pub proof fn lemma_id_of_unique(t: Seq<(Pair, i32)>, p: Pair, q: Pair)
    requires
        wf_table(t),
        id_of(t, p) is Some,
        id_of(t, q) is Some,
        id_of(t, p) == id_of(t, q),
    ensures
        p == q,
{
    lemma_id_of_inverse(t, p);
    lemma_id_of_inverse(t, q);
}

/// Unfolds [`id_of`] and [`pair_of_id`] on the tail of `t` starting at `k`.
pub proof fn lemma_lookup_skip_step(t: Seq<(Pair, i32)>, p: Pair, u: i32, k: int)
    requires
        0 <= k < t.len(),
    ensures
        id_of(t.skip(k), p) == (if t[k].0 == p {
            Option::Some(t[k].1)
        } else {
            id_of(t.skip(k + 1), p)
        }),
        pair_of_id(t.skip(k), u) == (if t[k].1 == u {
            Option::Some(t[k].0)
        } else {
            pair_of_id(t.skip(k + 1), u)
        }),
{
    assert(t.skip(k)[0] == t[k]);
    assert(t.skip(k).skip(1) =~= t.skip(k + 1));
}

/// The single fatal training error: the requested vocabulary size does not
/// exceed the number of distinct units already present.
#[derive(Clone, Copy, Debug, PartialEq, Eq, Structural)]
pub enum FitError {
    InvalidTarget,
}

/// An insertion-ordered mapping from pairs to the ids created for them.
///
/// Grown only by training; read-only afterwards.  The record order encodes
/// priority: merges learned earlier must be preferred by the encoder.
#[derive(Debug, PartialEq, Eq)]
pub struct MergeTable {
    /// The learned `(pair, id)` records, in learning order.
    pub entries: Vec<(Pair, i32)>,
}

impl View for MergeTable {
    type V = Seq<(Pair, i32)>;

    open spec fn view(&self) -> Seq<(Pair, i32)> {
        self.entries@
    }
}

impl MergeTable {
    /// The table invariant established by training.
    pub open spec fn wf(&self) -> bool {
        wf_table(self@)
    }

    /// A table holding no merges.
    pub fn new() -> (r: MergeTable)
        ensures
            r@ == Seq::<(Pair, i32)>::empty(),
    {
        MergeTable { entries: Vec::new() }
    }

    /// Number of learned merges.
    pub fn len(&self) -> (r: usize)
        ensures
            r == self@.len(),
    {
        self.entries.len()
    }

    /// Id recorded for `p`, if `p` was ever merged.
    pub fn lookup_pair(&self, p: Pair) -> (r: Option<i32>)
        ensures
            r == id_of(self@, p),
    {
        let n = self.entries.len();
        let mut k: usize = 0;
        proof {
            assert(self@.skip(0) =~= self@);
        }
        while k < n
            invariant
                n == self@.len(),
                k <= n,
                id_of(self@, p) == id_of(self@.skip(k as int), p),
            decreases n - k,
        {
            proof {
                lemma_lookup_skip_step(self@, p, 0, k as int);
            }
            let e = self.entries[k];
            if e.0 .0 == p.0 && e.0 .1 == p.1 {
                return Option::Some(e.1);
            }
            k = k + 1;
        }
        Option::None
    }

    /// Pair recorded under id `u`, if `u` was created by a merge.
    pub fn lookup_id(&self, u: i32) -> (r: Option<Pair>)
        ensures
            r == pair_of_id(self@, u),
    {
        let n = self.entries.len();
        let mut k: usize = 0;
        proof {
            assert(self@.skip(0) =~= self@);
        }
        while k < n
            invariant
                n == self@.len(),
                k <= n,
                pair_of_id(self@, u) == pair_of_id(self@.skip(k as int), u),
            decreases n - k,
        {
            proof {
                lemma_lookup_skip_step(self@, (0, 0), u, k as int);
            }
            let e = self.entries[k];
            if e.1 == u {
                return Option::Some(e.0);
            }
            k = k + 1;
        }
        Option::None
    }
}

} // verus!
