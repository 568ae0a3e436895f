use vstd::map::*;
use vstd::prelude::*;

use crate::accum::{
    acc_add, acc_merge, acc_new, acc_wf, lemma_acc_add_wf, lemma_acc_merge_wf, lemma_acc_new_wf,
    value_ok, AccModel,
};
use crate::text::lex_lt;
use crate::TempResult;

verus! {

/// One result entry: an entity name and its aggregate.
pub struct Entry {
    pub name: Vec<u8>,
    pub result: TempResult,
}

impl View for Entry {
    type V = (Seq<u8>, AccModel);

    open spec fn view(&self) -> (Seq<u8>, AccModel) {
        (self.name@, self.result@)
    }
}

/// Entries strictly ordered by name; in particular all names distinct.
pub open spec fn sorted_strict(es: Seq<(Seq<u8>, AccModel)>) -> bool {
    forall|i: int, j: int| 0 <= i < j < es.len() ==> lex_lt(es[i].0, es[j].0)
}

pub open spec fn wf_entries(es: Seq<(Seq<u8>, AccModel)>) -> bool {
    &&& sorted_strict(es)
    &&& forall|i: int| 0 <= i < es.len() ==> acc_wf(#[trigger] es[i].1)
}

/// The finite map described by an entry sequence.
pub open spec fn as_map(es: Seq<(Seq<u8>, AccModel)>) -> Map<Seq<u8>, AccModel>
    decreases es.len(),
{
    if es.len() == 0 {
        Map::empty()
    } else {
        as_map(es.drop_last()).insert(es.last().0, es.last().1)
    }
}

/// Total number of observations across all entries.
pub open spec fn sum_counts(es: Seq<(Seq<u8>, AccModel)>) -> int
    decreases es.len(),
{
    if es.len() == 0 {
        0
    } else {
        sum_counts(es.drop_last()) + es.last().1.count
    }
}

/// One parsed record folded into a result map.
pub open spec fn map_upd(m: Map<Seq<u8>, AccModel>, k: Seq<u8>, v: int) -> Map<Seq<u8>, AccModel> {
    if m.dom().contains(k) {
        m.insert(k, acc_add(m[k], v))
    } else {
        m.insert(k, acc_new(v))
    }
}

/// One whole aggregate absorbed into a result map.
pub open spec fn map_absorb(m: Map<Seq<u8>, AccModel>, k: Seq<u8>, a: AccModel) -> Map<
    Seq<u8>,
    AccModel,
> {
    if m.dom().contains(k) {
        m.insert(k, acc_merge(m[k], a))
    } else {
        m.insert(k, a)
    }
}

/// The aggregation of a record sequence, one record at a time.
pub open spec fn agg(rs: Seq<(Seq<u8>, int)>) -> Map<Seq<u8>, AccModel>
    decreases rs.len(),
{
    if rs.len() == 0 {
        Map::empty()
    } else {
        map_upd(agg(rs.drop_last()), rs.last().0, rs.last().1)
    }
}

/// The merge of two result maps: union of the keys, per-key accumulator
/// merge where both sides hold the key.
pub open spec fn map_merge(m1: Map<Seq<u8>, AccModel>, m2: Map<Seq<u8>, AccModel>) -> Map<
    Seq<u8>,
    AccModel,
> {
    Map::new(
        |k: Seq<u8>| m1.dom().contains(k) || m2.dom().contains(k),
        |k: Seq<u8>|
            if m1.dom().contains(k) && m2.dom().contains(k) {
                acc_merge(m1[k], m2[k])
            } else if m1.dom().contains(k) {
                m1[k]
            } else {
                m2[k]
            },
    )
}

// ----- facts about the entry-sequence view of a map -----
pub proof fn lemma_as_map_dom(es: Seq<(Seq<u8>, AccModel)>, k: Seq<u8>)
    ensures
        as_map(es).dom().contains(k) <==> exists|i: int|
            0 <= i < es.len() && (#[trigger] es[i]).0 == k,
    decreases es.len(),
{
    if es.len() > 0 {
        lemma_as_map_dom(es.drop_last(), k);
        if k == es.last().0 {
            assert(es[es.len() - 1].0 == k);
        } else {
            if as_map(es).dom().contains(k) {
                assert(as_map(es.drop_last()).dom().contains(k));
                let i = choose|i: int|
                    0 <= i < es.drop_last().len() && (#[trigger] es.drop_last()[i]).0 == k;
                assert(es.drop_last()[i] == es[i]);
                assert(es[i].0 == k);
            }
            if exists|i: int| 0 <= i < es.len() && (#[trigger] es[i]).0 == k {
                let i = choose|i: int| 0 <= i < es.len() && (#[trigger] es[i]).0 == k;
                assert(i < es.len() - 1);
                assert(es.drop_last()[i] == es[i]);
                assert(as_map(es.drop_last()).dom().contains(k));
            }
        }
    }
}

pub open spec fn distinct_keys(es: Seq<(Seq<u8>, AccModel)>) -> bool {
    forall|i: int, j: int| 0 <= i < j < es.len() ==> es[i].0 != es[j].0
}

pub proof fn lemma_sorted_distinct(es: Seq<(Seq<u8>, AccModel)>)
    requires
        sorted_strict(es),
    ensures
        distinct_keys(es),
{
    assert forall|i: int, j: int| 0 <= i < j < es.len() implies es[i].0 != es[j].0 by {
        crate::text::lemma_lex_irrefl(es[i].0);
        assert(lex_lt(es[i].0, es[j].0));
    }
}

pub proof fn lemma_as_map_get(es: Seq<(Seq<u8>, AccModel)>, i: int)
    requires
        distinct_keys(es),
        0 <= i < es.len(),
    ensures
        as_map(es)[es[i].0] == es[i].1,
    decreases es.len(),
{
    if i == es.len() - 1 {
    } else {
        assert(distinct_keys(es.drop_last()));
        assert(es.drop_last()[i] == es[i]);
        lemma_as_map_get(es.drop_last(), i);
        assert(es[i].0 != es.last().0);
    }
}

pub proof fn lemma_sum_insert(es: Seq<(Seq<u8>, AccModel)>, p: int, e: (Seq<u8>, AccModel))
    requires
        0 <= p <= es.len(),
    ensures
        sum_counts(es.insert(p, e)) == sum_counts(es) + e.1.count,
    decreases es.len() - p,
{
    if p == es.len() {
        assert(es.insert(p, e).drop_last() =~= es);
    } else {
        assert(es.insert(p, e).drop_last() =~= es.drop_last().insert(p, e));
        assert(es.insert(p, e).last() == es.last());
        lemma_sum_insert(es.drop_last(), p, e);
    }
}

pub proof fn lemma_sum_update(es: Seq<(Seq<u8>, AccModel)>, p: int, e: (Seq<u8>, AccModel))
    requires
        0 <= p < es.len(),
    ensures
        sum_counts(es.update(p, e)) == sum_counts(es) - es[p].1.count + e.1.count,
    decreases es.len() - p,
{
    if p == es.len() - 1 {
        assert(es.update(p, e).drop_last() =~= es.drop_last());
    } else {
        assert(es.update(p, e).drop_last() =~= es.drop_last().update(p, e));
        assert(es.update(p, e).last() == es.last());
        lemma_sum_update(es.drop_last(), p, e);
    }
}

pub proof fn lemma_sum_nonneg(es: Seq<(Seq<u8>, AccModel)>)
    requires
        forall|i: int| 0 <= i < es.len() ==> acc_wf(#[trigger] es[i].1),
    ensures
        sum_counts(es) >= 0,
    decreases es.len(),
{
    if es.len() > 0 {
        assert(forall|i: int|
            0 <= i < es.drop_last().len() ==> acc_wf(#[trigger] es.drop_last()[i].1));
        lemma_sum_nonneg(es.drop_last());
        assert(acc_wf(es[es.len() - 1].1));
    }
}

/// Prefix sums of observation counts never exceed the whole sum.
pub proof fn lemma_sum_prefix(es: Seq<(Seq<u8>, AccModel)>, j: int)
    requires
        forall|i: int| 0 <= i < es.len() ==> acc_wf(#[trigger] es[i].1),
        0 <= j <= es.len(),
    ensures
        0 <= sum_counts(es.take(j)) <= sum_counts(es),
    decreases es.len() - j,
{
    if j == es.len() {
        assert(es.take(j) =~= es);
        lemma_sum_nonneg(es);
    } else {
        lemma_sum_prefix(es, j + 1);
        assert(es.take(j + 1).drop_last() =~= es.take(j));
        assert(es.take(j + 1).last() == es[j]);
        assert(acc_wf(es[j].1));
        assert forall|i2: int| 0 <= i2 < es.take(j).len() implies acc_wf(
            #[trigger] es.take(j)[i2].1,
        ) by {
            assert(es.take(j)[i2] == es[i2]);
        }
        lemma_sum_nonneg(es.take(j));
    }
}

/// Every single entry's count is bounded by the whole sum.
pub proof fn lemma_count_le_sum(es: Seq<(Seq<u8>, AccModel)>, i: int)
    requires
        forall|i: int| 0 <= i < es.len() ==> acc_wf(#[trigger] es[i].1),
        0 <= i < es.len(),
    ensures
        es[i].1.count <= sum_counts(es),
    decreases es.len(),
{
    if i == es.len() - 1 {
        lemma_sum_prefix(es, es.len() - 1);
        assert(es.take(es.len() - 1) =~= es.drop_last());
    } else {
        assert(es.drop_last()[i] == es[i]);
        lemma_count_le_sum(es.drop_last(), i);
        assert(acc_wf(es.last().1));
    }
}

pub proof fn lemma_as_map_insert(es: Seq<(Seq<u8>, AccModel)>, p: int, e: (Seq<u8>, AccModel))
    requires
        0 <= p <= es.len(),
        forall|i: int| 0 <= i < es.len() ==> (#[trigger] es[i]).0 != e.0,
    ensures
        as_map(es.insert(p, e)) == as_map(es).insert(e.0, e.1),
    decreases es.len() - p,
{
    if p == es.len() {
        assert(es.insert(p, e).drop_last() =~= es);
    } else {
        assert(es.insert(p, e).drop_last() =~= es.drop_last().insert(p, e));
        assert(es.insert(p, e).last() == es.last());
        assert(forall|i: int|
            0 <= i < es.drop_last().len() ==> (#[trigger] es.drop_last()[i]).0 != e.0);
        lemma_as_map_insert(es.drop_last(), p, e);
        assert(es[es.len() - 1].0 != e.0);
        assert(as_map(es.drop_last()).insert(e.0, e.1).insert(es.last().0, es.last().1)
            =~= as_map(es.drop_last()).insert(es.last().0, es.last().1).insert(e.0, e.1));
    }
}

pub proof fn lemma_as_map_update(es: Seq<(Seq<u8>, AccModel)>, p: int, e: (Seq<u8>, AccModel))
    requires
        0 <= p < es.len(),
        distinct_keys(es),
        es[p].0 == e.0,
    ensures
        as_map(es.update(p, e)) == as_map(es).insert(e.0, e.1),
    decreases es.len(),
{
    if p == es.len() - 1 {
        assert(es.update(p, e).drop_last() =~= es.drop_last());
        assert(es.update(p, e).last() == e);
        assert(as_map(es.drop_last()).insert(e.0, e.1) =~= as_map(es.drop_last()).insert(
            es.last().0,
            es.last().1,
        ).insert(e.0, e.1));
    } else {
        assert(es.update(p, e).drop_last() =~= es.drop_last().update(p, e));
        assert(es.update(p, e).last() == es.last());
        assert(distinct_keys(es.drop_last()));
        assert(es.drop_last()[p] == es[p]);
        lemma_as_map_update(es.drop_last(), p, e);
        assert(es[p].0 != es.last().0);
        assert(as_map(es.drop_last()).insert(e.0, e.1).insert(es.last().0, es.last().1)
            =~= as_map(es.drop_last()).insert(es.last().0, es.last().1).insert(e.0, e.1));
    }
}

/// Two strictly sorted entry sequences describing the same map are the
/// same sequence.  This is what makes the formatted output of every
/// aggregation strategy identical: the map alone determines the entries.
pub proof fn lemma_sorted_entries_unique(es1: Seq<(Seq<u8>, AccModel)>, es2: Seq<(Seq<u8>, AccModel)>)
    requires
        sorted_strict(es1),
        sorted_strict(es2),
        as_map(es1) == as_map(es2),
    ensures
        es1 == es2,
    decreases es1.len(),
{
    lemma_sorted_distinct(es1);
    lemma_sorted_distinct(es2);
    if es1.len() == 0 {
        if es2.len() > 0 {
            lemma_as_map_dom(es1, es2[es2.len() - 1].0);
            lemma_as_map_dom(es2, es2[es2.len() - 1].0);
            assert(as_map(es2).dom().contains(es2[es2.len() - 1].0));
            assert(false);
        }
        assert(es1 =~= es2);
    } else if es2.len() == 0 {
        lemma_as_map_dom(es1, es1[es1.len() - 1].0);
        lemma_as_map_dom(es2, es1[es1.len() - 1].0);
        assert(as_map(es1).dom().contains(es1[es1.len() - 1].0));
        assert(false);
    } else {
        let k1 = es1.last().0;
        let k2 = es2.last().0;
        lemma_as_map_dom(es1, k1);
        lemma_as_map_dom(es2, k1);
        lemma_as_map_dom(es1, k2);
        lemma_as_map_dom(es2, k2);
        assert(es1[es1.len() - 1].0 == k1);
        assert(as_map(es2).dom().contains(k1));
        let j1 = choose|j: int| 0 <= j < es2.len() && (#[trigger] es2[j]).0 == k1;
        assert(es2[es2.len() - 1].0 == k2);
        assert(as_map(es1).dom().contains(k2));
        let j2 = choose|j: int| 0 <= j < es1.len() && (#[trigger] es1[j]).0 == k2;
        if j1 < es2.len() - 1 && j2 < es1.len() - 1 {
            assert(lex_lt(k1, k2));
            assert(lex_lt(k2, k1));
            crate::text::lemma_lex_trans(k1, k2, k1);
            crate::text::lemma_lex_irrefl(k1);
            assert(false);
        }
        assert(k1 == k2);
        lemma_as_map_get(es1, es1.len() - 1);
        lemma_as_map_get(es2, es2.len() - 1);
        assert(es1.last().1 == es2.last().1);
        let d1 = es1.drop_last();
        let d2 = es2.drop_last();
        assert(sorted_strict(d1) && sorted_strict(d2)) by {
            assert(forall|i: int, j: int|
                0 <= i < j < d1.len() ==> d1[i] == es1[i] && d1[j] == es1[j]);
            assert(forall|i: int, j: int|
                0 <= i < j < d2.len() ==> d2[i] == es2[i] && d2[j] == es2[j]);
        }
        lemma_as_map_dom(d1, k1);
        lemma_as_map_dom(d2, k1);
        assert(!as_map(d1).dom().contains(k1)) by {
            if exists|i: int| 0 <= i < d1.len() && (#[trigger] d1[i]).0 == k1 {
                let i = choose|i: int| 0 <= i < d1.len() && (#[trigger] d1[i]).0 == k1;
                assert(es1[i].0 == k1);
            }
        }
        assert(!as_map(d2).dom().contains(k1)) by {
            if exists|i: int| 0 <= i < d2.len() && (#[trigger] d2[i]).0 == k1 {
                let i = choose|i: int| 0 <= i < d2.len() && (#[trigger] d2[i]).0 == k1;
                assert(es2[i].0 == k1);
            }
        }
        assert(as_map(d1) =~= as_map(es1).remove(k1));
        assert(as_map(d2) =~= as_map(es2).remove(k1));
        lemma_sorted_entries_unique(d1, d2);
        assert(es1 =~= d1.push(es1.last()));
        assert(es2 =~= d2.push(es2.last()));
    }
}

// ----- the merge algebra at map level -----
/// Merging with the empty map changes nothing.
pub proof fn lemma_map_merge_empty(m: Map<Seq<u8>, AccModel>)
    ensures
        map_merge(m, Map::empty()) == m,
        map_merge(Map::empty(), m) == m,
{
    assert(map_merge(m, Map::empty()) =~= m);
    assert(map_merge(Map::empty(), m) =~= m);
}

/// The map merge is commutative.
pub proof fn lemma_map_merge_commutative(m1: Map<Seq<u8>, AccModel>, m2: Map<Seq<u8>, AccModel>)
    ensures
        map_merge(m1, m2) == map_merge(m2, m1),
{
    assert(map_merge(m1, m2) =~= map_merge(m2, m1));
}

/// The map merge is associative.
pub proof fn lemma_map_merge_associative(
    m1: Map<Seq<u8>, AccModel>,
    m2: Map<Seq<u8>, AccModel>,
    m3: Map<Seq<u8>, AccModel>,
)
    ensures
        map_merge(map_merge(m1, m2), m3) == map_merge(m1, map_merge(m2, m3)),
{
    assert(map_merge(map_merge(m1, m2), m3) =~= map_merge(m1, map_merge(m2, m3)));
}

/// Folding a record into the right-hand side of a merge, or into the
/// merged map, is the same thing.
pub proof fn lemma_merge_upd(m1: Map<Seq<u8>, AccModel>, m2: Map<Seq<u8>, AccModel>, k: Seq<u8>, v: int)
    ensures
        map_upd(map_merge(m1, m2), k, v) == map_merge(m1, map_upd(m2, k, v)),
{
    crate::accum::lemma_merge_new_is_add(m1[k], v);
    crate::accum::lemma_add_into_merge(m1[k], m2[k], v);
    assert(map_upd(map_merge(m1, m2), k, v) =~= map_merge(m1, map_upd(m2, k, v)));
}

/// Absorbing an aggregate into the right-hand side of a merge, or into
/// the merged map, is the same thing.
pub proof fn lemma_merge_absorb(
    m1: Map<Seq<u8>, AccModel>,
    m2: Map<Seq<u8>, AccModel>,
    k: Seq<u8>,
    a: AccModel,
)
    requires
        !m2.dom().contains(k),
    ensures
        map_absorb(map_merge(m1, m2), k, a) == map_merge(m1, m2.insert(k, a)),
{
    crate::accum::lemma_merge_associative(m1[k], m2[k], a);
    assert(map_absorb(map_merge(m1, m2), k, a) =~= map_merge(m1, m2.insert(k, a)));
}

/// The central homomorphism: aggregating the concatenation of two record
/// sequences is merging their separate aggregations.  This is why any
/// chunking of the corpus, folded chunk-wise and reduced with the merge,
/// agrees with the sequential scan.
pub proof fn lemma_agg_concat(r1: Seq<(Seq<u8>, int)>, r2: Seq<(Seq<u8>, int)>)
    ensures
        agg(r1 + r2) == map_merge(agg(r1), agg(r2)),
    decreases r2.len(),
{
    if r2.len() == 0 {
        assert(r1 + r2 =~= r1);
        lemma_map_merge_empty(agg(r1));
    } else {
        assert((r1 + r2).drop_last() =~= r1 + r2.drop_last());
        assert((r1 + r2).last() == r2.last());
        lemma_agg_concat(r1, r2.drop_last());
        lemma_merge_upd(agg(r1), agg(r2.drop_last()), r2.last().0, r2.last().1);
    }
}

/// Every aggregate in an aggregation of representable values is
/// well-formed.
pub proof fn lemma_agg_wf(rs: Seq<(Seq<u8>, int)>)
    requires
        forall|i: int| 0 <= i < rs.len() ==> value_ok((#[trigger] rs[i]).1),
    ensures
        forall|k: Seq<u8>| #[trigger]
            agg(rs).dom().contains(k) ==> acc_wf(agg(rs)[k]) && agg(rs)[k].count <= rs.len(),
    decreases rs.len(),
{
    if rs.len() > 0 {
        assert(forall|i: int|
            0 <= i < rs.drop_last().len() ==> value_ok((#[trigger] rs.drop_last()[i]).1));
        lemma_agg_wf(rs.drop_last());
        let m = agg(rs.drop_last());
        let k0 = rs.last().0;
        let v = rs.last().1;
        assert(value_ok(v)) by {
            assert(rs[rs.len() - 1] == rs.last());
        }
        if m.dom().contains(k0) {
            lemma_acc_add_wf(m[k0], v);
        } else {
            lemma_acc_new_wf(v);
        }
    }
}

/// Every entity of a well-formed result carries at least one observation,
/// and its rounded mean lies between its minimum and its maximum.  Since
/// every aggregation strategy returns a well-formed result, this holds of
/// every entity they ever report.
pub proof fn lemma_result_entry_sound(es: Seq<(Seq<u8>, AccModel)>, i: int)
    requires
        wf_entries(es),
        0 <= i < es.len(),
    ensures
        es[i].1.count >= 1,
        es[i].1.min <= crate::accum::mean_of(es[i].1) <= es[i].1.max,
{
    crate::accum::lemma_mean_in_range(es[i].1);
}

// ----- the executable result map -----
/// A result map: entries kept strictly sorted by entity name, together
/// with an upper bound `records` on the observations folded in so far
/// (`sum_counts` of the entries never exceeds it).
pub struct Results {
    pub entries: Vec<Entry>,
    pub records: u64,
}

impl View for Results {
    type V = Seq<(Seq<u8>, AccModel)>;

    open spec fn view(&self) -> Seq<(Seq<u8>, AccModel)> {
        Seq::new(self.entries@.len(), |i: int| self.entries@[i]@)
    }
}

pub(crate) fn copy_bytes(v: &Vec<u8>) -> (r: Vec<u8>)
    ensures
        r@ == v@,
{
    let mut r: Vec<u8> = Vec::new();
    let mut i: usize = 0;
    while i < v.len()
        invariant
            i <= v@.len(),
            r@ =~= v@.take(i as int),
        decreases v@.len() - i,
    {
        r.push(v[i]);
        i = i + 1;
        proof {
            assert(r@ =~= v@.take(i as int));
        }
    }
    proof {
        assert(v@.take(v@.len() as int) =~= v@);
    }
    r
}

impl Results {
    /// The entries are sorted, every aggregate is well-formed, and the
    /// record bound covers the counts.
    pub open spec fn wf(self) -> bool {
        &&& wf_entries(self@)
        &&& sum_counts(self@) <= self.records as int
    }

    /// The finite map this result describes.
    pub open spec fn map_of(self) -> Map<Seq<u8>, AccModel> {
        as_map(self@)
    }

    /// An empty result map.
    pub fn new() -> (r: Results)
        ensures
            r.wf(),
            r@ =~= Seq::<(Seq<u8>, AccModel)>::empty(),
            r.map_of() == Map::<Seq<u8>, AccModel>::empty(),
            r.records == 0,
    {
        let r = Results { entries: Vec::new(), records: 0 };
        proof {
            assert(r@ =~= Seq::<(Seq<u8>, AccModel)>::empty());
        }
        r
    }

    /// Folds one parsed record into the map: seeds a new entry on first
    /// sight of the name, updates the existing aggregate otherwise.
    #[verifier::loop_isolation(false)]
    pub fn add(&mut self, name: Vec<u8>, value: i64)
        requires
            old(self).wf(),
            value_ok(value as int),
            old(self).records < u64::MAX,
        ensures
            final(self).wf(),
            final(self).map_of() == map_upd(old(self).map_of(), name@, value as int),
            final(self).records == old(self).records + 1,
    {
        proof {
            lemma_sorted_distinct(self@);
        }
        let ghost es0 = self@;
        let mut lo: usize = 0;
        let mut stop = false;
        while !stop && lo < self.entries.len()
            invariant
                lo <= self.entries@.len(),
                forall|j: int| 0 <= j < lo ==> lex_lt(self@[j].0, name@),
                stop ==> lo < self.entries@.len() && !lex_lt(self@[lo as int].0, name@),
            decreases self.entries@.len() - lo, (if stop {
                0int
            } else {
                1int
            }),
        {
            let c = crate::text::lex_cmp(&self.entries[lo].name, &name);
            proof {
                assert(self.entries@[lo as int]@.0 == self.entries@[lo as int].name@);
            }
            if c == -1 {
                lo = lo + 1;
            } else {
                stop = true;
            }
        }
        if stop {
            let c = crate::text::lex_cmp(&self.entries[lo].name, &name);
            if c == 0 {
                // the name is present: update its aggregate in place
                proof {
                    lemma_count_le_sum(es0, lo as int);
                    lemma_as_map_get(es0, lo as int);
                    lemma_as_map_dom(es0, name@);
                }
                let e = self.entries.remove(lo);
                let mut tr = e.result;
                tr.update(value);
                let name2 = e.name;
                self.entries.insert(lo, Entry { name: name2, result: tr });
                self.records = self.records + 1;
                proof {
                    let e2 = (name@, acc_add(es0[lo as int].1, value as int));
                    assert(self@ =~= es0.update(lo as int, e2));
                    lemma_as_map_update(es0, lo as int, e2);
                    lemma_sum_update(es0, lo as int, e2);
                    assert(sorted_strict(self@)) by {
                        assert(forall|i: int|
                            0 <= i < self@.len() ==> (#[trigger] self@[i]).0 == es0[i].0);
                    }
                }
                return ;
            }
        }
        // the name is absent: every earlier entry is below it, every later
        // one above it, so inserting at `lo` keeps the order strict
        proof {
            if lo < es0.len() {
                crate::text::lemma_lex_connex(es0[lo as int].0, name@);
                if es0[lo as int].0 == name@ {
                    assert(false);
                }
            }
            assert forall|j: int| lo <= j < es0.len() implies lex_lt(name@, es0[j].0) by {
                if j > lo {
                    crate::text::lemma_lex_trans(name@, es0[lo as int].0, es0[j].0);
                }
            }
            assert forall|i: int| 0 <= i < es0.len() implies (#[trigger] es0[i]).0 != name@ by {
                crate::text::lemma_lex_irrefl(name@);
                if i < lo {
                    if es0[i].0 == name@ {
                        assert(lex_lt(name@, name@));
                    }
                } else {
                    if es0[i].0 == name@ {
                        assert(lex_lt(name@, name@));
                    }
                }
            }
            lemma_as_map_dom(es0, name@);
        }
        let tr = TempResult { min: value, max: value, total: value as i128, count: 1 };
        proof {
            lemma_acc_new_wf(value as int);
        }
        let ghost nm = name@;
        self.entries.insert(lo, Entry { name, result: tr });
        self.records = self.records + 1;
        proof {
            let e2 = (nm, acc_new(value as int));
            assert(self@ =~= es0.insert(lo as int, e2));
            lemma_as_map_insert(es0, lo as int, e2);
            lemma_sum_insert(es0, lo as int, e2);
            assert(sorted_strict(self@)) by {
                assert(forall|i: int| 0 <= i < lo ==> self@[i] == es0[i]);
                assert(self@[lo as int] == e2);
                assert(forall|i: int| lo < i < self@.len() ==> self@[i] == es0[i - 1]);
            }
        }
    }

    /// Absorbs one whole aggregate for `name`: merges it with the entry
    /// already there, or inserts it as a fresh entry.
    #[verifier::loop_isolation(false)]
    pub fn absorb(&mut self, name: Vec<u8>, acc: &TempResult)
        requires
            old(self).wf(),
            acc_wf(acc@),
            old(self).records + acc@.count <= u64::MAX,
        ensures
            final(self).wf(),
            final(self).map_of() == map_absorb(old(self).map_of(), name@, acc@),
            final(self).records == old(self).records + acc.count,
    {
        proof {
            lemma_sorted_distinct(self@);
        }
        let ghost es0 = self@;
        let mut lo: usize = 0;
        let mut stop = false;
        while !stop && lo < self.entries.len()
            invariant
                lo <= self.entries@.len(),
                forall|j: int| 0 <= j < lo ==> lex_lt(self@[j].0, name@),
                stop ==> lo < self.entries@.len() && !lex_lt(self@[lo as int].0, name@),
            decreases self.entries@.len() - lo, (if stop {
                0int
            } else {
                1int
            }),
        {
            let c = crate::text::lex_cmp(&self.entries[lo].name, &name);
            if c == -1 {
                lo = lo + 1;
            } else {
                stop = true;
            }
        }
        if stop {
            let c = crate::text::lex_cmp(&self.entries[lo].name, &name);
            if c == 0 {
                proof {
                    lemma_count_le_sum(es0, lo as int);
                    lemma_sum_nonneg(es0);
                    lemma_as_map_get(es0, lo as int);
                    lemma_as_map_dom(es0, name@);
                }
                let e = self.entries.remove(lo);
                let tr = e.result.merge(acc);
                let name2 = e.name;
                self.entries.insert(lo, Entry { name: name2, result: tr });
                self.records = self.records + acc.count;
                proof {
                    let e2 = (name@, acc_merge(es0[lo as int].1, acc@));
                    assert(self@ =~= es0.update(lo as int, e2));
                    lemma_as_map_update(es0, lo as int, e2);
                    lemma_sum_update(es0, lo as int, e2);
                    assert(sorted_strict(self@)) by {
                        assert(forall|i: int|
                            0 <= i < self@.len() ==> (#[trigger] self@[i]).0 == es0[i].0);
                    }
                }
                return ;
            }
        }
        proof {
            if lo < es0.len() {
                crate::text::lemma_lex_connex(es0[lo as int].0, name@);
                if es0[lo as int].0 == name@ {
                    assert(false);
                }
            }
            assert forall|j: int| lo <= j < es0.len() implies lex_lt(name@, es0[j].0) by {
                if j > lo {
                    crate::text::lemma_lex_trans(name@, es0[lo as int].0, es0[j].0);
                }
            }
            assert forall|i: int| 0 <= i < es0.len() implies (#[trigger] es0[i]).0 != name@ by {
                crate::text::lemma_lex_irrefl(name@);
                if i < lo {
                    if es0[i].0 == name@ {
                        assert(lex_lt(name@, name@));
                    }
                } else {
                    if es0[i].0 == name@ {
                        assert(lex_lt(name@, name@));
                    }
                }
            }
            lemma_as_map_dom(es0, name@);
        }
        let tr = TempResult { min: acc.min, max: acc.max, total: acc.total, count: acc.count };
        let ghost nm = name@;
        self.entries.insert(lo, Entry { name, result: tr });
        self.records = self.records + acc.count;
        proof {
            let e2 = (nm, acc@);
            assert(self@ =~= es0.insert(lo as int, e2));
            lemma_as_map_insert(es0, lo as int, e2);
            lemma_sum_insert(es0, lo as int, e2);
            assert(sorted_strict(self@)) by {
                assert(forall|i: int| 0 <= i < lo ==> self@[i] == es0[i]);
                assert(self@[lo as int] == e2);
                assert(forall|i: int| lo < i < self@.len() ==> self@[i] == es0[i - 1]);
            }
        }
    }

    /// Merges another result map into this one with the accumulator merge
    /// algebra, key by key.  The result describes exactly the merge of the
    /// two maps.
    #[verifier::loop_isolation(false)]
    pub fn merge(self, other: &Results) -> (r: Results)
        requires
            self.wf(),
            other.wf(),
            self.records + other.records <= u64::MAX,
        ensures
            r.wf(),
            r.map_of() == map_merge(self.map_of(), other.map_of()),
            r.records == self.records + other.records,
    {
        proof {
            lemma_sorted_distinct(other@);
            lemma_sum_nonneg(self@);
            lemma_sum_nonneg(other@);
        }
        let ghost m0 = self.map_of();
        let ghost r0 = self.records;
        let rec0 = self.records;
        let mut cur = self;
        let mut j: usize = 0;
        proof {
            lemma_map_merge_empty(m0);
            assert(other@.take(0) =~= Seq::<(Seq<u8>, AccModel)>::empty());
        }
        while j < other.entries.len()
            invariant
                j <= other.entries@.len(),
                cur.wf(),
                cur.map_of() == map_merge(m0, as_map(other@.take(j as int))),
                cur.records == r0 + sum_counts(other@.take(j as int)),
            decreases other.entries@.len() - j,
        {
            let ghost pre = other@.take(j as int);
            proof {
                assert(other@.take(j + 1).drop_last() =~= pre);
                assert(other@.take(j + 1).last() == other@[j as int]);
                lemma_sum_prefix(other@, j + 1);
                assert(acc_wf(other@[j as int].1));
                lemma_as_map_dom(pre, other@[j as int].0);
                assert forall|i: int| 0 <= i < pre.len() implies (#[trigger] pre[i]).0 != other@[j
                    as int].0 by {
                    assert(pre[i] == other@[i]);
                }
                assert(!as_map(pre).dom().contains(other@[j as int].0));
                lemma_merge_absorb(m0, as_map(pre), other@[j as int].0, other@[j as int].1);
            }
            let name = copy_bytes(&other.entries[j].name);
            cur.absorb(name, &other.entries[j].result);
            j = j + 1;
            proof {
                assert(as_map(other@.take(j as int)) == as_map(pre).insert(
                    other@[j - 1].0,
                    other@[j - 1].1,
                ));
            }
        }
        proof {
            assert(other@.take(other@.len() as int) =~= other@);
        }
        cur.records = rec0 + other.records;
        cur
    }

    /// The entries, handed out in their sorted order.
    pub fn into_inner(self) -> (r: Vec<Entry>)
        ensures
            r@.len() == self@.len(),
            forall|i: int| 0 <= i < r@.len() ==> (#[trigger] r@[i])@ == self@[i],
    {
        self.entries
    }
}

} // verus!
