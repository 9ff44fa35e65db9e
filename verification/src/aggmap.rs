//! The aggregation map: per-key statistics with a commutative, associative
//! merge, realised as entries sorted in ascending byte-lexicographic key
//! order so the rendered output is deterministic.

use vstd::prelude::*;

use crate::byteseq::{
    bytes_eq, key_lt, lemma_lex_lt_irreflexive, lemma_lex_lt_transitive, lemma_lex_lt_trichotomy,
    lex_lt,
};
use crate::stats::{
    lemma_stat_merge_associative, lemma_stat_merge_commutative, lemma_stat_merge_wf,
    lemma_stat_single_wf, stat_merge, stat_single, stat_wf, StatModel, Statistic,
};

verus! {

/// No two entries share a key.
pub open spec fn entry_keys_distinct(es: Seq<(Seq<u8>, StatModel)>) -> bool {
    forall|i: int, j: int| 0 <= i < j < es.len() ==> es[i].0 != es[j].0
}

/// Entries stand in strictly ascending byte-lexicographic key order.
pub open spec fn entries_sorted(es: Seq<(Seq<u8>, StatModel)>) -> bool {
    forall|i: int, j: int| 0 <= i < j < es.len() ==> lex_lt(es[i].0, es[j].0)
}

pub proof fn lemma_sorted_distinct(es: Seq<(Seq<u8>, StatModel)>)
    requires
        entries_sorted(es),
    ensures
        entry_keys_distinct(es),
{
    assert forall|i: int, j: int| 0 <= i < j < es.len() implies es[i].0 != es[j].0 by {
        lemma_lex_lt_irreflexive(es[i].0);
    }
}

/// The mapping an entry sequence stands for.
pub open spec fn entries_map(es: Seq<(Seq<u8>, StatModel)>) -> Map<Seq<u8>, StatModel> {
    Map::new(
        |k: Seq<u8>| exists|i: int| 0 <= i < es.len() && es[i].0 == k,
        |k: Seq<u8>|
            {
                let i = choose|i: int| 0 <= i < es.len() && es[i].0 == k;
                es[i].1
            },
    )
}

/// With distinct keys, the mapping reads each entry back exactly.
pub proof fn lemma_entries_map_index(es: Seq<(Seq<u8>, StatModel)>, i: int)
    requires
        entry_keys_distinct(es),
        0 <= i < es.len(),
    ensures
        entries_map(es).dom().contains(es[i].0),
        entries_map(es)[es[i].0] == es[i].1,
{
    let k = es[i].0;
    assert(exists|j: int| 0 <= j < es.len() && es[j].0 == k);
    let j = choose|j: int| 0 <= j < es.len() && es[j].0 == k;
    if j < i {
        assert(es[j].0 != es[i].0);
    } else if i < j {
        assert(es[i].0 != es[j].0);
    }
}

/// Replacing the statistic of entry `i` updates exactly that key.
pub proof fn lemma_entries_map_update(es: Seq<(Seq<u8>, StatModel)>, i: int, s2: StatModel)
    requires
        entry_keys_distinct(es),
        0 <= i < es.len(),
    ensures
        entry_keys_distinct(es.update(i, (es[i].0, s2))),
        entries_map(es.update(i, (es[i].0, s2))) == entries_map(es).insert(es[i].0, s2),
{
    let k = es[i].0;
    let es2 = es.update(i, (k, s2));
    assert(forall|j: int| 0 <= j < es.len() ==> es2[j].0 == #[trigger] es[j].0);
    assert(entry_keys_distinct(es2));
    let m2 = entries_map(es).insert(k, s2);
    assert forall|k2: Seq<u8>| entries_map(es2).dom().contains(k2) implies m2.dom().contains(k2)
        && entries_map(es2)[k2] == m2[k2] by {
        let j = choose|j: int| 0 <= j < es2.len() && es2[j].0 == k2;
        lemma_entries_map_index(es2, j);
        lemma_entries_map_index(es, j);
        if es[j].0 != k {
            assert(j != i);
            assert(es2[j].1 == es[j].1);
        } else {
            assert(j == i) by {
                if j < i {
                    assert(es[j].0 != es[i].0);
                } else if i < j {
                    assert(es[i].0 != es[j].0);
                }
            }
        }
    }
    assert forall|k2: Seq<u8>| m2.dom().contains(k2) implies entries_map(es2).dom().contains(
        k2,
    ) by {
        if k2 == k {
            assert(es2[i].0 == k2);
        } else {
            let j = choose|j: int| 0 <= j < es.len() && es[j].0 == k2;
            assert(es2[j].0 == k2);
        }
    }
    assert(entries_map(es2) =~= m2);
}

/// Inserting an entry with a fresh key anywhere in the sequence inserts
/// exactly that key into the mapping.
pub proof fn lemma_entries_map_insert(
    es: Seq<(Seq<u8>, StatModel)>,
    i: int,
    k: Seq<u8>,
    s: StatModel,
)
    requires
        entry_keys_distinct(es),
        0 <= i <= es.len(),
        forall|j: int| 0 <= j < es.len() ==> es[j].0 != k,
    ensures
        entry_keys_distinct(es.insert(i, (k, s))),
        entries_map(es.insert(i, (k, s))) == entries_map(es).insert(k, s),
{
    let es2 = es.insert(i, (k, s));
    assert(forall|j: int| 0 <= j < i ==> es2[j] == #[trigger] es[j]);
    assert(forall|j: int| i <= j < es.len() ==> es2[j + 1] == #[trigger] es[j]);
    assert(es2[i] == (k, s));
    assert(entry_keys_distinct(es2)) by {
        assert forall|a: int, b: int| 0 <= a < b < es2.len() implies es2[a].0 != es2[b].0 by {
            let oa: int = if a < i {
                a
            } else {
                a - 1
            };
            let ob: int = if b < i {
                b
            } else {
                b - 1
            };
            if a != i && b != i {
                assert(es2[a] == es[oa] && es2[b] == es[ob]);
            } else if a == i {
                assert(es2[b] == es[ob]);
            } else {
                assert(es2[a] == es[oa]);
            }
        }
    }
    let m2 = entries_map(es).insert(k, s);
    assert forall|k2: Seq<u8>| entries_map(es2).dom().contains(k2) implies m2.dom().contains(k2)
        && entries_map(es2)[k2] == m2[k2] by {
        let j = choose|j: int| 0 <= j < es2.len() && es2[j].0 == k2;
        lemma_entries_map_index(es2, j);
        if j == i {
            assert(k2 == k);
        } else {
            let oj: int = if j < i {
                j
            } else {
                j - 1
            };
            assert(es2[j] == es[oj]);
            lemma_entries_map_index(es, oj);
            assert(k2 != k);
        }
    }
    assert forall|k2: Seq<u8>| m2.dom().contains(k2) implies entries_map(es2).dom().contains(
        k2,
    ) by {
        if k2 == k {
            assert(es2[i].0 == k2);
        } else {
            let j = choose|j: int| 0 <= j < es.len() && es[j].0 == k2;
            if j < i {
                assert(es2[j].0 == k2);
            } else {
                assert(es2[j + 1].0 == k2);
            }
        }
    }
    assert(entries_map(es2) =~= m2);
}

/// The last entry of a distinct-key sequence extends the mapping of the
/// rest by its own fresh key.
pub proof fn lemma_entries_map_drop_last(es: Seq<(Seq<u8>, StatModel)>)
    requires
        entry_keys_distinct(es),
        es.len() > 0,
    ensures
        entry_keys_distinct(es.drop_last()),
        !entries_map(es.drop_last()).dom().contains(es.last().0),
        entries_map(es) == entries_map(es.drop_last()).insert(es.last().0, es.last().1),
{
    let t = es.drop_last();
    let k = es.last().0;
    assert(forall|j: int| 0 <= j < t.len() ==> t[j] == #[trigger] es[j]);
    assert(forall|j: int| 0 <= j < t.len() ==> es[j].0 != k);
    lemma_entries_map_insert(t, t.len() as int, k, es.last().1);
    assert(t.insert(t.len() as int, (k, es.last().1)) =~= es);
}

/// Merging one new observation set for key `k` into a mapping.
pub open spec fn insert_merged(
    m: Map<Seq<u8>, StatModel>,
    k: Seq<u8>,
    s: StatModel,
) -> Map<Seq<u8>, StatModel> {
    if m.dom().contains(k) {
        m.insert(k, stat_merge(m[k], s))
    } else {
        m.insert(k, s)
    }
}

/// The aggregation of a record sequence: fold each record into the mapping.
pub open spec fn agg_of_records(rs: Seq<(Seq<u8>, int)>) -> Map<Seq<u8>, StatModel>
    decreases rs.len(),
{
    if rs.len() == 0 {
        Map::empty()
    } else {
        insert_merged(agg_of_records(rs.drop_last()), rs.last().0, stat_single(rs.last().1))
    }
}

/// The merge of two aggregation mappings: statistics of shared keys are
/// combined, keys present on one side only pass through unchanged.
pub open spec fn merge_maps(
    a: Map<Seq<u8>, StatModel>,
    b: Map<Seq<u8>, StatModel>,
) -> Map<Seq<u8>, StatModel> {
    Map::new(
        |k: Seq<u8>| a.dom().contains(k) || b.dom().contains(k),
        |k: Seq<u8>|
            if a.dom().contains(k) && b.dom().contains(k) {
                stat_merge(a[k], b[k])
            } else if a.dom().contains(k) {
                a[k]
            } else {
                b[k]
            },
    )
}

/// The reduction of many mappings into one, in left-to-right pairing.
pub open spec fn merge_all(ms: Seq<Map<Seq<u8>, StatModel>>) -> Map<Seq<u8>, StatModel>
    decreases ms.len(),
{
    if ms.len() == 0 {
        Map::empty()
    } else {
        merge_maps(merge_all(ms.drop_last()), ms.last())
    }
}

pub proof fn lemma_merge_maps_empty_right(a: Map<Seq<u8>, StatModel>)
    ensures
        merge_maps(a, Map::empty()) == a,
{
    assert(merge_maps(a, Map::empty()) =~= a);
}

/// Merging a one-key extension of `b` equals extending the merge: the map
/// form of associativity for a single key.
pub proof fn lemma_merge_insert_merged(
    a: Map<Seq<u8>, StatModel>,
    b: Map<Seq<u8>, StatModel>,
    k: Seq<u8>,
    s: StatModel,
)
    ensures
        merge_maps(a, insert_merged(b, k, s)) == insert_merged(merge_maps(a, b), k, s),
{
    if a.dom().contains(k) && b.dom().contains(k) {
        lemma_stat_merge_associative(a[k], b[k], s);
    }
    assert(merge_maps(a, insert_merged(b, k, s)) =~= insert_merged(merge_maps(a, b), k, s));
}

/// Appending a record to a record sequence folds it into the aggregation.
pub proof fn lemma_agg_push(rs: Seq<(Seq<u8>, int)>, k: Seq<u8>, v: int)
    ensures
        agg_of_records(rs.push((k, v))) == insert_merged(agg_of_records(rs), k, stat_single(v)),
{
    assert(rs.push((k, v)).drop_last() =~= rs);
    assert(rs.push((k, v)).last() == (k, v));
}

/// Aggregation distributes over concatenation: aggregating two record
/// groups separately and merging equals aggregating them together.
pub proof fn lemma_agg_concat(x: Seq<(Seq<u8>, int)>, y: Seq<(Seq<u8>, int)>)
    ensures
        agg_of_records(x + y) == merge_maps(agg_of_records(x), agg_of_records(y)),
    decreases y.len(),
{
    if y.len() == 0 {
        assert(x + y =~= x);
        lemma_merge_maps_empty_right(agg_of_records(x));
    } else {
        let y2 = y.drop_last();
        let (k, v) = y.last();
        lemma_agg_concat(x, y2);
        assert(x + y =~= (x + y2).push(y.last()));
        lemma_agg_push(x + y2, k, v);
        lemma_merge_insert_merged(agg_of_records(x), agg_of_records(y2), k, stat_single(v));
        assert(agg_of_records(y) == insert_merged(agg_of_records(y2), k, stat_single(v)));
    }
}

/// The merge of two aggregation mappings is commutative.
pub proof fn lemma_merge_maps_commutative(a: Map<Seq<u8>, StatModel>, b: Map<Seq<u8>, StatModel>)
    ensures
        merge_maps(a, b) == merge_maps(b, a),
{
    assert forall|k: Seq<u8>| #[trigger]
        merge_maps(a, b).dom().contains(k) implies merge_maps(a, b)[k] == merge_maps(b, a)[k] by {
        if a.dom().contains(k) && b.dom().contains(k) {
            lemma_stat_merge_commutative(a[k], b[k]);
        }
    }
    assert(merge_maps(a, b) =~= merge_maps(b, a));
}

/// The merge of aggregation mappings is associative.
pub proof fn lemma_merge_maps_associative(
    a: Map<Seq<u8>, StatModel>,
    b: Map<Seq<u8>, StatModel>,
    c: Map<Seq<u8>, StatModel>,
)
    ensures
        merge_maps(merge_maps(a, b), c) == merge_maps(a, merge_maps(b, c)),
{
    assert forall|k: Seq<u8>| #[trigger]
        merge_maps(merge_maps(a, b), c).dom().contains(k) implies merge_maps(merge_maps(a, b), c)[k]
        == merge_maps(a, merge_maps(b, c))[k] by {
        if a.dom().contains(k) && b.dom().contains(k) && c.dom().contains(k) {
            lemma_stat_merge_associative(a[k], b[k], c[k]);
        }
    }
    assert(merge_maps(merge_maps(a, b), c) =~= merge_maps(a, merge_maps(b, c)));
}

/// Merge algebra: for any partition of a record set into groups, reducing
/// the groups' aggregations equals aggregating the whole set at once.
pub proof fn lemma_merge_algebra(groups: Seq<Seq<(Seq<u8>, int)>>)
    ensures
        merge_all(groups.map_values(|g: Seq<(Seq<u8>, int)>| agg_of_records(g)))
            == agg_of_records(groups.flatten()),
    decreases groups.len(),
{
    let f = |g: Seq<(Seq<u8>, int)>| agg_of_records(g);
    if groups.len() == 0 {
        assert(groups.map_values(f).len() == 0);
        assert(groups.flatten() =~= Seq::<(Seq<u8>, int)>::empty());
    } else {
        let init = groups.drop_last();
        let last = groups.last();
        lemma_merge_algebra(init);
        assert(groups.map_values(f).drop_last() =~= init.map_values(f));
        assert(groups.map_values(f).last() == f(last));
        assert(groups =~= init.push(last));
        Seq::lemma_flatten_push(init, last);
        lemma_agg_concat(init.flatten(), last);
    }
}

/// Everything the aggregation of valid records guarantees: the domain is
/// exactly the keys seen, every statistic is well formed, and no count
/// exceeds the number of records.
pub proof fn lemma_agg_of_records_wf(rs: Seq<(Seq<u8>, int)>)
    requires
        forall|i: int| 0 <= i < rs.len() ==> -999 <= (#[trigger] rs[i]).1 <= 999,
    ensures
        forall|k: Seq<u8>|
            agg_of_records(rs).dom().contains(k) <==> exists|i: int|
                0 <= i < rs.len() && (#[trigger] rs[i]).0 == k,
        forall|k: Seq<u8>| #[trigger]
            agg_of_records(rs).dom().contains(k) ==> stat_wf(agg_of_records(rs)[k]) && 1
                <= agg_of_records(rs)[k].count <= rs.len(),
    decreases rs.len(),
{
    if rs.len() > 0 {
        let t = rs.drop_last();
        let (k, v) = rs.last();
        assert(forall|i: int| 0 <= i < t.len() ==> t[i] == #[trigger] rs[i]);
        lemma_agg_of_records_wf(t);
        lemma_stat_single_wf(v);
        let mt = agg_of_records(t);
        if mt.dom().contains(k) {
            lemma_stat_merge_wf(mt[k], stat_single(v));
        }
        assert forall|k2: Seq<u8>|
            agg_of_records(rs).dom().contains(k2) <==> exists|i: int|
                0 <= i < rs.len() && (#[trigger] rs[i]).0 == k2 by {
            if agg_of_records(rs).dom().contains(k2) {
                if k2 == k {
                    assert(rs[rs.len() - 1].0 == k2);
                } else {
                    assert(mt.dom().contains(k2));
                    let i = choose|i: int| 0 <= i < t.len() && t[i].0 == k2;
                    assert(rs[i].0 == k2);
                }
            }
            if exists|i: int| 0 <= i < rs.len() && (#[trigger] rs[i]).0 == k2 {
                let i = choose|i: int| 0 <= i < rs.len() && rs[i].0 == k2;
                if i < rs.len() - 1 {
                    assert(t[i].0 == k2);
                    assert(mt.dom().contains(k2));
                }
            }
        }
    }
}

/// Dropping the first entry removes exactly its key from the mapping.
pub proof fn lemma_entries_map_drop_first(es: Seq<(Seq<u8>, StatModel)>)
    requires
        entry_keys_distinct(es),
        es.len() > 0,
    ensures
        entry_keys_distinct(es.drop_first()),
        entries_map(es.drop_first()) == entries_map(es).remove(es[0].0),
{
    let t = es.drop_first();
    let k0 = es[0].0;
    assert(forall|j: int| 0 <= j < t.len() ==> t[j] == #[trigger] es[j + 1]);
    assert(entry_keys_distinct(t));
    let m2 = entries_map(es).remove(k0);
    assert forall|k2: Seq<u8>| entries_map(t).dom().contains(k2) implies m2.dom().contains(k2)
        && entries_map(t)[k2] == m2[k2] by {
        let j = choose|j: int| 0 <= j < t.len() && t[j].0 == k2;
        lemma_entries_map_index(t, j);
        lemma_entries_map_index(es, j + 1);
        assert(es[j + 1].0 == k2);
        assert(k2 != k0) by {
            assert(es[0].0 != es[j + 1].0);
        }
    }
    assert forall|k2: Seq<u8>| m2.dom().contains(k2) implies entries_map(t).dom().contains(k2) by {
        let j = choose|j: int| 0 <= j < es.len() && es[j].0 == k2;
        assert(j != 0);
        assert(t[j - 1].0 == k2);
    }
    assert(entries_map(t) =~= m2);
}

/// A mapping has exactly one sorted entry sequence: sorted entries are a
/// canonical representation, whatever order built them.
pub proof fn lemma_sorted_entries_unique(a: Seq<(Seq<u8>, StatModel)>, b: Seq<(Seq<u8>, StatModel)>)
    requires
        entries_sorted(a),
        entries_sorted(b),
        entries_map(a) == entries_map(b),
    ensures
        a == b,
    decreases a.len(),
{
    lemma_sorted_distinct(a);
    lemma_sorted_distinct(b);
    if a.len() == 0 {
        if b.len() > 0 {
            lemma_entries_map_index(b, 0);
            assert(entries_map(a).dom().contains(b[0].0));
        }
        assert(a =~= b);
    } else {
        assert(b.len() > 0) by {
            lemma_entries_map_index(a, 0);
            if b.len() == 0 {
                assert(entries_map(b).dom().contains(a[0].0));
            }
        }
        assert(a[0] == b[0]) by {
            lemma_entries_map_index(a, 0);
            lemma_entries_map_index(b, 0);
            assert(entries_map(b).dom().contains(a[0].0));
            let i = choose|i: int| 0 <= i < b.len() && b[i].0 == a[0].0;
            assert(entries_map(a).dom().contains(b[0].0));
            let j = choose|j: int| 0 <= j < a.len() && a[j].0 == b[0].0;
            if i > 0 {
                assert(lex_lt(b[0].0, b[i].0));
                if j > 0 {
                    assert(lex_lt(a[0].0, a[j].0));
                    lemma_lex_lt_transitive(a[0].0, a[j].0, b[i].0);
                    lemma_lex_lt_irreflexive(a[0].0);
                } else {
                    lemma_lex_lt_irreflexive(b[0].0);
                }
            }
            assert(a[0].0 == b[0].0);
            lemma_entries_map_index(b, i);
            assert(i == 0 || b[0].0 != b[i].0);
            assert(entries_map(a)[a[0].0] == a[0].1);
            assert(entries_map(b)[b[0].0] == b[0].1);
        }
        lemma_entries_map_drop_first(a);
        lemma_entries_map_drop_first(b);
        assert(entries_sorted(a.drop_first())) by {
            assert(forall|j: int|
                0 <= j < a.len() - 1 ==> a.drop_first()[j] == #[trigger] a[j + 1]);
        }
        assert(entries_sorted(b.drop_first())) by {
            assert(forall|j: int|
                0 <= j < b.len() - 1 ==> b.drop_first()[j] == #[trigger] b[j + 1]);
        }
        lemma_sorted_entries_unique(a.drop_first(), b.drop_first());
        assert(a.len() == b.len());
        assert forall|i: int| 0 <= i < a.len() implies a[i] == b[i] by {
            if i > 0 {
                assert(a[i] == a.drop_first()[i - 1]);
                assert(b[i] == b.drop_first()[i - 1]);
            }
        }
        assert(a =~= b);
    }
}

/// The one sorted entry sequence that stands for `m`.
pub open spec fn canonical_entries(m: Map<Seq<u8>, StatModel>) -> Seq<(Seq<u8>, StatModel)> {
    choose|es: Seq<(Seq<u8>, StatModel)>| entries_sorted(es) && entries_map(es) == m
}

/// Any sorted representation is the canonical one.
pub proof fn lemma_canonical_entries(m: Map<Seq<u8>, StatModel>, es: Seq<(Seq<u8>, StatModel)>)
    requires
        entries_sorted(es),
        entries_map(es) == m,
    ensures
        canonical_entries(m) == es,
{
    assert(exists|es2: Seq<(Seq<u8>, StatModel)>| entries_sorted(es2) && entries_map(es2) == m);
    let c = canonical_entries(m);
    lemma_sorted_entries_unique(c, es);
}

/// One entry: an independently owned key and its running aggregate.
struct AggEntry {
    key: Vec<u8>,
    stat: Statistic,
}

/// A mapping from keys to statistics, keys unique.
///
/// Entries are kept in ascending byte-lexicographic key order, so the
/// mapping has one canonical layout and rendering it needs no extra sort.
/// Keys are owned copies, independent of the source region they were read
/// from.
pub struct AggregationMap {
    entries: Vec<AggEntry>,
}

impl View for AggregationMap {
    type V = Map<Seq<u8>, StatModel>;

    open spec fn view(&self) -> Map<Seq<u8>, StatModel> {
        entries_map(self.models())
    }
}

impl AggregationMap {
    /// The entry sequence the map stands for, in storage order.
    pub closed spec fn models(&self) -> Seq<(Seq<u8>, StatModel)> {
        self.entries@.map_values(|e: AggEntry| (e.key@, e.stat@))
    }

    /// Entries sorted by key, every statistic well formed.
    pub open spec fn wf(&self) -> bool {
        &&& entries_sorted(self.models())
        &&& forall|i: int| 0 <= i < self.models().len() ==> stat_wf(#[trigger] self.models()[i].1)
    }

    /// An empty mapping.
    pub fn new() -> (r: AggregationMap)
        ensures
            r.wf(),
            r.models() == Seq::<(Seq<u8>, StatModel)>::empty(),
            r@ == Map::<Seq<u8>, StatModel>::empty(),
    {
        let r = AggregationMap { entries: Vec::new() };
        proof {
            assert(r.models() =~= Seq::<(Seq<u8>, StatModel)>::empty());
            assert(r@ =~= Map::<Seq<u8>, StatModel>::empty());
        }
        r
    }

    /// The number of distinct keys.
    pub fn len(&self) -> (r: usize)
        ensures
            r == self.models().len(),
    {
        self.entries.len()
    }

    /// The key of the entry at `i` in ascending key order.
    pub fn key_at(&self, i: usize) -> (r: &Vec<u8>)
        requires
            i < self.models().len(),
        ensures
            r@ == self.models()[i as int].0,
    {
        &self.entries[i].key
    }

    /// The statistic of the entry at `i` in ascending key order.
    pub fn stat_at(&self, i: usize) -> (r: &Statistic)
        requires
            i < self.models().len(),
        ensures
            r@ == self.models()[i as int].1,
    {
        &self.entries[i].stat
    }

    /// Looks up the statistic recorded for `key`.
    pub fn get(&self, key: &[u8]) -> (r: Option<Statistic>)
        requires
            self.wf(),
        ensures
            match r {
                Some(st) => self@.dom().contains(key@) && st@ == self@[key@],
                None => !self@.dom().contains(key@),
            },
    {
        proof {
            lemma_sorted_distinct(self.models());
        }
        let n = self.entries.len();
        let mut i: usize = 0;
        while i < n
            invariant
                0 <= i <= n == self.models().len(),
                entry_keys_distinct(self.models()),
                forall|j: int| 0 <= j < i ==> (#[trigger] self.models()[j]).0 != key@,
            decreases n - i,
        {
            if bytes_eq(self.entries[i].key.as_slice(), key) {
                proof {
                    lemma_entries_map_index(self.models(), i as int);
                }
                return Some(self.entries[i].stat);
            }
            proof {
                assert(self.models()[i as int].0 == self.entries@[i as int].key@);
            }
            i = i + 1;
        }
        proof {
            if self@.dom().contains(key@) {
                let j = choose|j: int|
                    0 <= j < self.models().len() && self.models()[j].0 == key@;
                assert(self.models()[j].0 != key@);
            }
        }
        None
    }

    /// Folds one keyed aggregate into the mapping: combined with the
    /// statistic already recorded for the key, or inserted at the key's
    /// sorted position when the key is new.
    #[verifier::loop_isolation(false)]
    pub fn merge_entry(&mut self, key: Vec<u8>, stat: Statistic)
        requires
            old(self).wf(),
            stat_wf(stat@),
            old(self)@.dom().contains(key@) ==> old(self)@[key@].count + stat@.count
                <= u64::MAX,
        ensures
            final(self).wf(),
            final(self)@ == insert_merged(old(self)@, key@, stat@),
    {
        proof {
            lemma_sorted_distinct(self.models());
        }
        let ghost es0 = self.models();
        let n = self.entries.len();
        let mut i: usize = 0;
        while i < n
            invariant
                0 <= i <= n == es0.len(),
                self.models() == es0,
                self.entries@.len() == n,
                entries_sorted(es0),
                entry_keys_distinct(es0),
                forall|j: int| 0 <= j < es0.len() ==> stat_wf((#[trigger] es0[j]).1),
                stat_wf(stat@),
                entries_map(es0).dom().contains(key@) ==> entries_map(es0)[key@].count
                    + stat@.count <= u64::MAX,
                forall|j: int| 0 <= j < i ==> lex_lt((#[trigger] es0[j]).0, key@),
            decreases n - i,
        {
            proof {
                assert(es0[i as int] == (self.entries@[i as int].key@, self.entries@[i as int].stat@));
            }
            if bytes_eq(self.entries[i].key.as_slice(), key.as_slice()) {
                proof {
                    lemma_entries_map_index(es0, i as int);
                }
                let mut e = self.entries.remove(i);
                e.stat.merge(&stat);
                self.entries.insert(i, e);
                proof {
                    let es1 = self.models();
                    assert(es1 =~= es0.update(i as int, (key@, stat_merge(es0[i as int].1, stat@))));
                    assert(es0[i as int].0 == key@);
                    lemma_entries_map_update(es0, i as int, stat_merge(es0[i as int].1, stat@));
                    assert(forall|j: int|
                        0 <= j < es1.len() ==> (#[trigger] es1[j]).0 == es0[j].0);
                    assert(entries_sorted(es1));
                }
                return;
            }
            if key_lt(key.as_slice(), self.entries[i].key.as_slice()) {
                proof {
                    assert(lex_lt(key@, es0[i as int].0));
                    assert forall|j: int| i <= j < es0.len() implies lex_lt(
                        key@,
                        (#[trigger] es0[j]).0,
                    ) by {
                        if j > i {
                            lemma_lex_lt_transitive(key@, es0[i as int].0, es0[j].0);
                        }
                    }
                    assert forall|j: int| 0 <= j < es0.len() implies (#[trigger] es0[j]).0
                        != key@ by {
                        lemma_lex_lt_irreflexive(es0[j].0);
                    }
                    lemma_entries_map_insert(es0, i as int, key@, stat@);
                    if entries_map(es0).dom().contains(key@) {
                        let j = choose|j: int| 0 <= j < es0.len() && es0[j].0 == key@;
                    }
                }
                let ghost key_view = key@;
                self.entries.insert(i, AggEntry { key, stat });
                proof {
                    let es1 = self.models();
                    assert(es1 =~= es0.insert(i as int, (key_view, stat@)));
                    assert(entries_sorted(es1)) by {
                        assert forall|x: int, y: int| 0 <= x < y < es1.len() implies lex_lt(
                            es1[x].0,
                            es1[y].0,
                        ) by {
                            let ox: int = if x < i {
                                x
                            } else {
                                x - 1
                            };
                            let oy: int = if y < i {
                                y
                            } else {
                                y - 1
                            };
                            if x != i && y != i {
                                assert(es1[x] == es0[ox] && es1[y] == es0[oy]);
                            } else if x == i {
                                assert(es1[y] == es0[oy]);
                            } else {
                                assert(es1[x] == es0[ox]);
                            }
                        }
                    }
                }
                return;
            }
            proof {
                lemma_lex_lt_trichotomy(es0[i as int].0, key@);
                assert(es0[i as int].0 == self.entries@[i as int].key@);
            }
            i = i + 1;
        }
        proof {
            assert forall|j: int| 0 <= j < es0.len() implies (#[trigger] es0[j]).0 != key@ by {
                lemma_lex_lt_irreflexive(es0[j].0);
            }
            lemma_entries_map_insert(es0, es0.len() as int, key@, stat@);
            if entries_map(es0).dom().contains(key@) {
                let j = choose|j: int| 0 <= j < es0.len() && es0[j].0 == key@;
            }
        }
        let ghost key_view = key@;
        self.entries.push(AggEntry { key, stat });
        proof {
            let es1 = self.models();
            assert(es1 =~= es0.insert(es0.len() as int, (key_view, stat@)));
            assert(entries_sorted(es1)) by {
                assert forall|x: int, y: int| 0 <= x < y < es1.len() implies lex_lt(
                    es1[x].0,
                    es1[y].0,
                ) by {
                    if y < es1.len() - 1 {
                        assert(es1[x] == es0[x] && es1[y] == es0[y]);
                    } else {
                        assert(es1[x] == es0[x]);
                    }
                }
            }
        }
    }

    /// Folds one observation for `key` into the mapping.
    pub fn add_record(&mut self, key: &[u8], value: crate::decimal::Decimal)
        requires
            old(self).wf(),
            -999 <= value@ <= 999,
            old(self)@.dom().contains(key@) ==> old(self)@[key@].count < u64::MAX,
        ensures
            final(self).wf(),
            final(self)@ == insert_merged(old(self)@, key@, stat_single(value@)),
    {
        proof {
            lemma_stat_single_wf(value@);
        }
        let owned = vstd::slice::slice_to_vec(key);
        self.merge_entry(owned, Statistic::new(value));
    }

    /// Merges another mapping into this one; the other map is consumed.
    ///
    /// For every key the result carries the statistic the two mappings
    /// combine to; a key present on one side only passes through unchanged.
    #[verifier::loop_isolation(false)]
    pub fn merge(&mut self, other: AggregationMap)
        requires
            old(self).wf(),
            other.wf(),
            forall|k: Seq<u8>|
                old(self)@.dom().contains(k) && other@.dom().contains(k) ==> (
                #[trigger] old(self)@[k]).count + other@[k].count <= u64::MAX,
        ensures
            final(self).wf(),
            final(self)@ == merge_maps(old(self)@, other@),
    {
        let ghost a0 = self@;
        let ghost b0 = other@;
        proof {
            lemma_sorted_distinct(other.models());
        }
        let mut rem = other;
        loop
            invariant
                self.wf(),
                entry_keys_distinct(rem.models()),
                forall|i: int|
                    0 <= i < rem.models().len() ==> stat_wf((#[trigger] rem.models()[i]).1),
                merge_maps(a0, b0) == merge_maps(self@, rem@),
                forall|k: Seq<u8>|
                    self@.dom().contains(k) && rem@.dom().contains(k)
                        ==> (#[trigger] self@[k]).count + rem@[k].count <= u64::MAX,
            decreases rem.models().len(),
        {
            let ghost es_before = rem.models();
            let popped = rem.entries.pop();
            match popped {
                None => {
                    proof {
                        assert(es_before.len() == 0);
                        assert(rem@ =~= Map::<Seq<u8>, StatModel>::empty());
                        lemma_merge_maps_empty_right(self@);
                    }
                    break;
                },
                Some(e) => {
                    proof {
                        assert(es_before.len() > 0);
                        assert(rem.models() =~= es_before.drop_last());
                        lemma_entries_map_drop_last(es_before);
                        assert(es_before.last() == (e.key@, e.stat@));
                        assert(entries_map(es_before) == entries_map(es_before.drop_last()).insert(
                            e.key@,
                            e.stat@,
                        ));
                        lemma_merge_pull_insert(self@, entries_map(es_before.drop_last()), e.key@, e.stat@);
                        assert(es_before[es_before.len() - 1].1 == e.stat@);
                    }
                    let ghost self_before = self@;
                    let ghost rem_map_now = rem@;
                    self.merge_entry(e.key, e.stat);
                    proof {
                        assert(self@ == insert_merged(self_before, es_before.last().0, es_before.last().1));
                        assert(merge_maps(self_before, entries_map(es_before)) == merge_maps(
                            self@,
                            rem_map_now,
                        ));
                        assert forall|k: Seq<u8>|
                            self@.dom().contains(k) && rem@.dom().contains(k)
                            implies (#[trigger] self@[k]).count + rem@[k].count <= u64::MAX by {
                            assert(k != es_before.last().0);
                            assert(self@[k] == self_before[k]);
                            assert(rem@[k] == entries_map(es_before)[k]);
                        }
                    }
                },
            }
        }
    }
}

/// Merging a mapping with a one-key extension of the right operand, the new
/// key absent from the right, equals extending the merged mapping by that
/// key.
pub proof fn lemma_merge_pull_insert(
    a: Map<Seq<u8>, StatModel>,
    m: Map<Seq<u8>, StatModel>,
    k: Seq<u8>,
    v: StatModel,
)
    requires
        !m.dom().contains(k),
    ensures
        merge_maps(a, m.insert(k, v)) == merge_maps(insert_merged(a, k, v), m),
{
    assert(merge_maps(a, m.insert(k, v)) =~= merge_maps(insert_merged(a, k, v), m));
}

} // verus!
