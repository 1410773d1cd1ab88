//! Properties of the cache model that relate several accesses.
use crate::cache::{is_operation, lemma_apply_wf, lemma_cache_access_wf, run, valid_ops, CacheModel};
use crate::cache_set::{
    empty_line, empty_set, filled, holds, lemma_first_empty, lemma_first_hit, promote, Outcome, SetModel,
};
use vstd::prelude::*;

verus! {

/// A set answers a hit exactly when the tag is resident.
pub proof fn lemma_hit_iff_resident(m: SetModel, tag: u64)
    ensures
        m.hit_index(tag) < m.lines.len() <==> m.resident(tag),
        m.access(tag).0 == Outcome::Hit <==> m.resident(tag),
{
    lemma_first_hit(m.lines, tag, 0);
    if m.resident(tag) {
        let i = choose|i: int| 0 <= i < m.lines.len() && holds(m.lines[i], tag);
        assert(i >= m.hit_index(tag));
    }
}

/// Two accesses in a row to the same tag of the same set: the second one
/// is a hit, and the first one is a miss when the tag was not resident.
pub proof fn lemma_hit_after_access(c: CacheModel, set_index: int, tag: u64)
    requires
        c.wf(),
        0 <= set_index < c.sets.len(),
    ensures
        c.access(set_index, tag).1.access(set_index, tag).0 == Outcome::Hit,
        !c.sets[set_index].resident(tag) ==> c.access(set_index, tag).0 != Outcome::Hit,
{
    lemma_cache_access_wf(c, set_index, tag);
    lemma_hit_iff_resident(c.sets[set_index], tag);
    lemma_hit_iff_resident(c.access(set_index, tag).1.sets[set_index], tag);
}

/// A modify is two accesses: it records at least one hit and at most one
/// miss (with at most one eviction), never two misses.
pub proof fn lemma_modify(c: CacheModel, set_index: int, tag: u64)
    requires
        c.wf(),
        0 <= set_index < c.sets.len(),
    ensures
        c.apply('M', set_index, tag).hits + c.apply('M', set_index, tag).misses == c.hits + c.misses
            + 2,
        c.apply('M', set_index, tag).hits >= c.hits + 1,
        c.apply('M', set_index, tag).misses <= c.misses + 1,
        c.apply('M', set_index, tag).evictions <= c.evictions + 1,
{
    lemma_hit_after_access(c, set_index, tag);
    lemma_cache_access_wf(c, set_index, tag);
    let (o1, c1) = c.access(set_index, tag);
    let c1r = c1.record(o1);
    assert(c1r.sets == c1.sets);
    assert(c1r.access(set_index, tag).0 == Outcome::Hit);
}

/// The number of cache accesses that `ops` make: one per load or store,
/// two per modify.
pub open spec fn access_count(ops: Seq<(char, u64, u64)>) -> nat
    decreases ops.len(),
{
    if ops.len() == 0 {
        0
    } else {
        access_count(ops.drop_last()) + if ops.last().0 == 'M' {
            2nat
        } else {
            1nat
        }
    }
}

/// Over any run: every access counts as a hit or a miss, so hits plus
/// misses grow by the number of accesses (the number of operations when
/// there is no modify); evictions grow no faster than misses; no counter
/// ever decreases.
pub proof fn lemma_run_counts(c: CacheModel, ops: Seq<(char, u64, u64)>)
    requires
        c.wf(),
        valid_ops(ops, c.sets.len()),
    ensures
        run(c, ops).wf(),
        run(c, ops).sets.len() == c.sets.len(),
        run(c, ops).hits + run(c, ops).misses == c.hits + c.misses + access_count(ops),
        (forall|k: int| 0 <= k < ops.len() ==> (#[trigger] ops[k]).0 != 'M') ==> run(c, ops).hits
            + run(c, ops).misses == c.hits + c.misses + ops.len(),
        run(c, ops).evictions - c.evictions <= run(c, ops).misses - c.misses,
        c.evictions <= c.misses ==> run(c, ops).evictions <= run(c, ops).misses,
        run(c, ops).hits >= c.hits,
        run(c, ops).misses >= c.misses,
        run(c, ops).evictions >= c.evictions,
    decreases ops.len(),
{
    if ops.len() > 0 {
        let prefix = ops.drop_last();
        assert(valid_ops(prefix, c.sets.len())) by {
            assert forall|k: int| 0 <= k < prefix.len() implies is_operation((#[trigger] prefix[k]).0)
                && prefix[k].1 < c.sets.len() by {
                assert(prefix[k] == ops[k]);
            }
        }
        lemma_run_counts(c, prefix);
        let p = run(c, prefix);
        let op = ops.last();
        assert(op == ops[ops.len() - 1]);
        lemma_apply_wf(p, op.0, op.1 as int, op.2);
        lemma_cache_access_wf(p, op.1 as int, op.2);
        let (o1, c1) = p.access(op.1 as int, op.2);
        lemma_cache_access_wf(c1.record(o1), op.1 as int, op.2);
        if forall|k: int| 0 <= k < ops.len() ==> (#[trigger] ops[k]).0 != 'M' {
            assert forall|k: int| 0 <= k < prefix.len() implies (#[trigger] prefix[k]).0 != 'M' by {
                assert(prefix[k] == ops[k]);
            }
        }
    }
}

/// The outcomes of accessing each of `tags` in order, and the set after.
pub open spec fn access_all(m: SetModel, tags: Seq<u64>) -> (Seq<Outcome>, SetModel)
    decreases tags.len(),
{
    if tags.len() == 0 {
        (Seq::empty(), m)
    } else {
        let (outs, m1) = access_all(m, tags.drop_last());
        let (o, m2) = m1.access(tags.last());
        (outs.push(o), m2)
    }
}

/// After `k` distinct tags have entered an empty set of `e` lines, line `i`
/// holds the `i`-th tag for `i < k`, the other lines are empty, every
/// access missed without eviction, and the most recent line is first.
proof fn lemma_fill(e: nat, tags: Seq<u64>, k: int)
    requires
        0 <= k <= tags.len() <= e <= usize::MAX,
        tags.no_duplicates(),
    ensures
        access_all(empty_set(e), tags.take(k)).0.len() == k,
        forall|i: int|
            0 <= i < k ==> #[trigger] access_all(empty_set(e), tags.take(k)).0[i] == Outcome::Miss,
        access_all(empty_set(e), tags.take(k)).1.lines.len() == e,
        forall|i: int|
            0 <= i < e ==> #[trigger] access_all(empty_set(e), tags.take(k)).1.lines[i] == if i < k {
                filled(tags[i])
            } else {
                empty_line()
            },
        access_all(empty_set(e), tags.take(k)).1.order.len() == k,
        forall|j: int|
            0 <= j < k ==> #[trigger] access_all(empty_set(e), tags.take(k)).1.order[j] == (k - 1
                - j) as usize,
    decreases k,
{
    if k > 0 {
        lemma_fill(e, tags, k - 1);
        let ts = tags.take(k);
        assert(ts.drop_last() =~= tags.take(k - 1));
        assert(ts.last() == tags[k - 1]);
        let (outs, m) = access_all(empty_set(e), tags.take(k - 1));
        let t = tags[k - 1];
        lemma_first_hit(m.lines, t, 0);
        lemma_first_empty(m.lines, 0);
        let h = m.hit_index(t);
        if h < m.lines.len() {
            assert(holds(m.lines[h], t));
            assert(tags[h] == t);
        }
        let v = m.empty_index();
        assert(!m.lines[k - 1].is_valid);
        if v < k - 1 {
            assert(m.lines[v].is_valid);
        }
        assert(v == k - 1);
        m.order.index_of_first_ensures((k - 1) as usize);
        if m.order.contains((k - 1) as usize) {
            let j = choose|j: int| 0 <= j < m.order.len() && m.order[j] == (k - 1) as usize;
            assert(m.order[j] == (k - 2 - j) as usize);
        }
        assert(m.order.remove_value((k - 1) as usize) == m.order);
        let m2 = m.access(t).1;
        assert(m2.order == promote(m.order, (k - 1) as usize));
        assert forall|j: int| 0 <= j < k implies #[trigger] m2.order[j] == (k - 1 - j) as usize by {
            if j > 0 {
                assert(m2.order[j] == m.order[j - 1]);
            }
        }
    }
}

/// True LRU: accessing `e` distinct tags in an empty set of `e` lines fills
/// every line without an eviction; one more distinct tag then evicts the
/// least recently touched tag, the first one, and only it; accessing that
/// tag again is a miss.
pub proof fn lemma_lru(e: nat, tags: Seq<u64>, t: u64)
    requires
        1 <= e <= usize::MAX,
        tags.len() == e,
        tags.no_duplicates(),
        !tags.contains(t),
    ensures
        forall|i: int| 0 <= i < e ==> #[trigger] access_all(empty_set(e), tags).0[i] == Outcome::Miss,
        forall|i: int| 0 <= i < e ==> (#[trigger] access_all(empty_set(e), tags).1.lines[i]).is_valid,
        access_all(empty_set(e), tags).1.access(t).0 == Outcome::MissWithEviction,
        !access_all(empty_set(e), tags).1.access(t).1.resident(tags[0]),
        forall|i: int|
            1 <= i < e ==> access_all(empty_set(e), tags).1.access(t).1.resident(#[trigger] tags[i]),
        access_all(empty_set(e), tags).1.access(t).1.access(tags[0]).0 != Outcome::Hit,
{
    lemma_fill(e, tags, e as int);
    assert(tags.take(e as int) =~= tags);
    let m = access_all(empty_set(e), tags).1;
    lemma_first_hit(m.lines, t, 0);
    lemma_first_empty(m.lines, 0);
    let h = m.hit_index(t);
    if h < m.lines.len() {
        assert(holds(m.lines[h], t));
        assert(tags[h] == t);
    }
    assert(m.lines[0].is_valid);
    assert(m.lru() == 0usize);
    let m2 = m.access(t).1;
    assert(m2.lines == m.lines.update(0, filled(t)));
    if m2.resident(tags[0]) {
        let i = choose|i: int| 0 <= i < m2.lines.len() && holds(m2.lines[i], tags[0]);
        if i > 0 {
            assert(m2.lines[i] == filled(tags[i]));
        }
    }
    assert forall|i: int| 1 <= i < e implies m2.resident(#[trigger] tags[i]) by {
        assert(holds(m2.lines[i], tags[i]));
    }
    lemma_hit_iff_resident(m2, tags[0]);
}

} // verus!
