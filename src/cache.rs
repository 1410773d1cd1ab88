//! Cache store, replacement engine and statistics.
pub use crate::cache_set::{CacheSet, Line, Outcome, SetModel};
use crate::cache_set::{empty_line, empty_set, lemma_access_wf, promote};
use crate::text::push_char;
use vstd::arithmetic::power2::{lemma2_to64, lemma_pow2_strictly_increases, pow2};
use vstd::bits::{lemma_usize_pow2_no_overflow, lemma_usize_shl_is_mul};
use vstd::prelude::*;

verus! {

/// The whole cache: `2^S` sets of `E` lines each, and the statistics of
/// the run.
pub struct Cache {
    pub sets: Vec<CacheSet>,
    pub hits: usize,
    pub misses: usize,
    pub evictions: usize,
}

/// The mathematical value of a cache.
pub struct CacheModel {
    pub sets: Seq<SetModel>,
    pub hits: nat,
    pub misses: nat,
    pub evictions: nat,
}

impl View for Cache {
    type V = CacheModel;

    open spec fn view(&self) -> CacheModel {
        CacheModel {
            sets: self.sets@.map_values(|s: CacheSet| s@),
            hits: self.hits as nat,
            misses: self.misses as nat,
            evictions: self.evictions as nat,
        }
    }
}

/// The total capacity in bytes, `2^S * 2^b * E`.
pub open spec fn capacity(s: nat, e: nat, b: nat) -> nat {
    pow2(s) * pow2(b) * e
}

/// The error message for an operation code that is not a data access.
pub open spec fn unknown_operation_message(operation: char) -> Seq<char> {
    "unknown operation: "@.push(operation)
}

/// The error message for a geometry wider than an address.
pub open spec fn width_message() -> Seq<char> {
    "set index and block offset bits exceed the 64-bit address width"@
}

/// The error message for sets without lines.
pub open spec fn no_lines_message() -> Seq<char> {
    "a set must hold at least one line"@
}

/// The error message for a capacity beyond `usize`.
pub open spec fn overflow_message() -> Seq<char> {
    "cache size exceeds available space (overflow)"@
}

/// The error message for a set index beyond the last set.
pub open spec fn set_index_message() -> Seq<char> {
    "failed to access cache set"@
}

/// A data access code: load, store or modify.
pub open spec fn is_operation(operation: char) -> bool {
    operation == 'L' || operation == 'S' || operation == 'M'
}

impl CacheModel {
    /// Every set is well formed and all sets have the same number of lines.
    pub open spec fn wf(self) -> bool {
        &&& self.sets.len() > 0
        &&& forall|i: int|
            0 <= i < self.sets.len() ==> (#[trigger] self.sets[i]).wf() && self.sets[i].lines.len()
                == self.sets[0].lines.len()
    }

    /// The number of lines of each set.
    pub open spec fn lines_per_set(self) -> nat {
        self.sets[0].lines.len()
    }

    /// The statistics after one more outcome.
    pub open spec fn record(self, o: Outcome) -> CacheModel {
        match o {
            Outcome::Hit => CacheModel { hits: self.hits + 1, ..self },
            Outcome::Miss => CacheModel { misses: self.misses + 1, ..self },
            Outcome::MissWithEviction => CacheModel {
                misses: self.misses + 1,
                evictions: self.evictions + 1,
                ..self
            },
        }
    }

    /// One access to set `set_index`, without touching the statistics.
    pub open spec fn access(self, set_index: int, tag: u64) -> (Outcome, CacheModel) {
        let (o, m) = self.sets[set_index].access(tag);
        (o, CacheModel { sets: self.sets.update(set_index, m), ..self })
    }

    /// One access to set `set_index`, with its outcome recorded.
    pub open spec fn access_recorded(self, set_index: int, tag: u64) -> CacheModel {
        let (o, m) = self.access(set_index, tag);
        m.record(o)
    }

    /// The outcome of each access that `operation` makes.
    pub open spec fn outcomes(self, operation: char, set_index: int, tag: u64) -> Seq<Outcome> {
        if operation == 'M' {
            seq![
                self.access(set_index, tag).0,
                self.access_recorded(set_index, tag).access(set_index, tag).0,
            ]
        } else {
            seq![self.access(set_index, tag).0]
        }
    }

    /// A load or a store is one access; a modify is a load followed by a
    /// store to the same address.
    pub open spec fn apply(self, operation: char, set_index: int, tag: u64) -> CacheModel {
        if operation == 'M' {
            self.access_recorded(set_index, tag).access_recorded(set_index, tag)
        } else {
            self.access_recorded(set_index, tag)
        }
    }
}

/// The mathematical value of a list of decoded accesses.
pub open spec fn accesses_view(accesses: Seq<(char, usize, u64)>) -> Seq<(char, u64, u64)> {
    accesses.map_values(|a: (char, usize, u64)| (a.0, a.1 as u64, a.2))
}

/// The cache after each of `ops` (operation, set index, tag), in order.
pub open spec fn run(c: CacheModel, ops: Seq<(char, u64, u64)>) -> CacheModel
    decreases ops.len(),
{
    if ops.len() == 0 {
        c
    } else {
        let op = ops.last();
        run(c, ops.drop_last()).apply(op.0, op.1 as int, op.2)
    }
}

/// One access of a run: the operation it belongs to, where it went, and
/// what it did. A modify gives two records.
#[derive(Clone, Copy, Debug, PartialEq, Eq, Structural)]
pub struct AuditRecord {
    pub operation: char,
    pub set_index: usize,
    pub tag: u64,
    pub outcome: Outcome,
}

/// The mathematical value of an audit trail.
pub open spec fn audit_view(log: Seq<AuditRecord>) -> Seq<(char, u64, u64, Outcome)> {
    log.map_values(|a: AuditRecord| (a.operation, a.set_index as u64, a.tag, a.outcome))
}

/// The audit trail of `ops` run from `c`: a record per access, in order.
pub open spec fn run_log(c: CacheModel, ops: Seq<(char, u64, u64)>) -> Seq<(char, u64, u64, Outcome)>
    decreases ops.len(),
{
    if ops.len() == 0 {
        Seq::empty()
    } else {
        let op = ops.last();
        let before = run(c, ops.drop_last());
        run_log(c, ops.drop_last()) + records(op.0, op.1, op.2, before.outcomes(op.0, op.1 as int, op.2))
    }
}

/// The records of the accesses of one operation.
pub open spec fn records(operation: char, set_index: u64, tag: u64, outcomes: Seq<Outcome>) -> Seq<
    (char, u64, u64, Outcome),
> {
    outcomes.map_values(|o: Outcome| (operation, set_index, tag, o))
}

fn push_records(
    log: &mut Vec<AuditRecord>,
    operation: char,
    set_index: usize,
    tag: u64,
    outcomes: &Vec<Outcome>,
)
    ensures
        audit_view(final(log)@) == audit_view(old(log)@) + records(
            operation,
            set_index as u64,
            tag,
            outcomes@,
        ),
{
    let ghost log0 = audit_view(log@);
    let mut j: usize = 0;
    while j < outcomes.len()
        invariant
            j <= outcomes@.len(),
            audit_view(log@) == log0 + records(operation, set_index as u64, tag, outcomes@.take(j as int)),
        decreases outcomes@.len() - j,
    {
        let ghost prev = audit_view(log@);
        let ghost rec = (operation, set_index as u64, tag, outcomes@[j as int]);
        log.push(AuditRecord { operation, set_index, tag, outcome: outcomes[j] });
        assert(outcomes@.take(j + 1) =~= outcomes@.take(j as int).push(outcomes@[j as int]));
        assert(audit_view(log@) =~= prev.push(rec));
        assert(log0 + records(operation, set_index as u64, tag, outcomes@.take(j + 1)) =~= prev.push(rec));
        j = j + 1;
    }
    assert(outcomes@.take(outcomes@.len() as int) =~= outcomes@);
}

/// Each of `ops` is a data access to a set of a cache of `n_sets` sets.
pub open spec fn valid_ops(ops: Seq<(char, u64, u64)>, n_sets: nat) -> bool {
    forall|k: int| 0 <= k < ops.len() ==> is_operation((#[trigger] ops[k]).0) && ops[k].1 < n_sets
}

/// Applying an operation keeps a cache well formed and keeps its shape.
pub proof fn lemma_apply_wf(c: CacheModel, operation: char, set_index: int, tag: u64)
    requires
        c.wf(),
        0 <= set_index < c.sets.len(),
    ensures
        c.apply(operation, set_index, tag).wf(),
        c.apply(operation, set_index, tag).sets.len() == c.sets.len(),
        c.apply(operation, set_index, tag).lines_per_set() == c.lines_per_set(),
{
    lemma_cache_access_wf(c, set_index, tag);
    let c1 = c.access_recorded(set_index, tag);
    lemma_cache_access_wf(c1, set_index, tag);
}

/// Accessing a set of a well-formed cache keeps it well formed.
pub proof fn lemma_cache_access_wf(c: CacheModel, set_index: int, tag: u64)
    requires
        c.wf(),
        0 <= set_index < c.sets.len(),
    ensures
        c.access(set_index, tag).1.wf(),
        c.access(set_index, tag).1.lines_per_set() == c.lines_per_set(),
        c.access(set_index, tag).1.sets.len() == c.sets.len(),
        c.access(set_index, tag).1.sets[set_index].resident(tag),
{
    lemma_access_wf(c.sets[set_index], tag);
    let r = c.access(set_index, tag).1;
    assert forall|i: int| 0 <= i < r.sets.len() implies (#[trigger] r.sets[i]).wf()
        && r.sets[i].lines.len() == r.sets[0].lines.len() by {
        assert(c.sets[i].lines.len() == c.sets[0].lines.len());
    }
}

impl Cache {
    /// Builds a cache of `2^s` sets of `e` lines each, all invalid, for
    /// blocks of `2^b` bytes.
    pub fn new(s: usize, e: usize, b: usize) -> (r: Result<Cache, String>)
        ensures
            s + b > 64 ==> (r matches Err(m) && m@ == width_message()),
            s + b <= 64 && e == 0 ==> (r matches Err(m) && m@ == no_lines_message()),
            s + b <= 64 && e > 0 && capacity(s as nat, e as nat, b as nat) > usize::MAX ==> (r matches Err(
                m,
            ) && m@ == overflow_message()),
            s + b <= 64 && e > 0 && capacity(s as nat, e as nat, b as nat) <= usize::MAX
                ==> r is Ok,
            r matches Ok(c) ==> {
                &&& c@.wf()
                &&& c@.sets.len() == pow2(s as nat)
                &&& c@.lines_per_set() == e
                &&& forall|i: int| 0 <= i < c@.sets.len() ==> #[trigger] c@.sets[i] == empty_set(e as nat)
                &&& c.hits == 0 && c.misses == 0 && c.evictions == 0
            },
    {
        if s > 64 || b > 64 - s {
            return Err("set index and block offset bits exceed the 64-bit address width".to_string());
        }
        if e == 0 {
            return Err("a set must hold at least one line".to_string());
        }
        let bits = s + b;
        proof {
            vstd::arithmetic::power2::lemma_pow2_adds(s as nat, b as nat);
            vstd::arithmetic::power2::lemma_pow2_pos(bits as nat);
            vstd::arithmetic::mul::lemma_mul_increases(e as int, pow2(bits as nat) as int);
            assert(capacity(s as nat, e as nat, b as nat) == pow2(bits as nat) * e);
        }
        if bits >= usize::BITS as usize {
            proof {
                lemma2_to64();
                if bits as nat > usize::BITS as nat {
                    lemma_pow2_strictly_increases(usize::BITS as nat, bits as nat);
                }
                assert(usize::BITS == 32 || usize::BITS == 64);
                assert(pow2(usize::BITS as nat) == usize::MAX + 1);
                assert(pow2(bits as nat) >= pow2(usize::BITS as nat));
                assert(capacity(s as nat, e as nat, b as nat) > usize::MAX);
            }
            return Err("cache size exceeds available space (overflow)".to_string());
        }
        proof {
            lemma_usize_pow2_no_overflow(bits as nat);
            lemma_usize_shl_is_mul(1, bits);
        }
        let blocks: usize = 1usize << bits;
        if blocks.checked_mul(e).is_none() {
            return Err("cache size exceeds available space (overflow)".to_string());
        }
        proof {
            lemma_usize_pow2_no_overflow(s as nat);
            lemma_usize_shl_is_mul(1, s);
        }
        let n_sets: usize = 1usize << s;
        let mut sets: Vec<CacheSet> = Vec::with_capacity(n_sets);
        let mut i: usize = 0;
        while i < n_sets
            invariant
                i <= n_sets,
                n_sets == pow2(s as nat),
                e > 0,
                sets@.len() == i,
                forall|k: int| 0 <= k < i ==> (#[trigger] sets@[k])@ == empty_set(e as nat),
            decreases n_sets - i,
        {
            sets.push(CacheSet::new(e));
            i = i + 1;
        }
        let c = Cache { sets, hits: 0, misses: 0, evictions: 0 };
        proof {
            assert(c@.sets[0] == empty_set(e as nat));
            assert forall|k: int| 0 <= k < c@.sets.len() implies #[trigger] c@.sets[k] == empty_set(
                e as nat,
            ) by {
                assert(sets@[k]@ == empty_set(e as nat));
            }
            assert forall|k: int| 0 <= k < c@.sets.len() implies (#[trigger] c@.sets[k]).wf()
                && c@.sets[k].lines.len() == c@.sets[0].lines.len() by {
                assert(c@.sets[k] == empty_set(e as nat));
                assert(c@.sets[k].lines[0] == empty_line());
            }
        }
        Ok(c)
    }

    /// Moves line `accessed_index` of set `set_index` to the most recently
    /// used end of that set's recency order.
    pub fn update_access_order(&mut self, set_index: usize, accessed_index: usize)
        requires
            set_index < old(self).sets.len(),
        ensures
            final(self).sets@.len() == old(self).sets@.len(),
            forall|i: int|
                0 <= i < old(self).sets@.len() && i != set_index ==> #[trigger] final(self).sets@[i]
                    == old(self).sets@[i],
            final(self).sets@[set_index as int].lines@ == old(self).sets@[set_index as int].lines@,
            final(self).sets@[set_index as int].access_order@ == promote(
                old(self).sets@[set_index as int].access_order@,
                accessed_index,
            ),
            final(self).hits == old(self).hits,
            final(self).misses == old(self).misses,
            final(self).evictions == old(self).evictions,
    {
        self.sets[set_index].touch(accessed_index);
    }

    /// Counts one hit.
    pub fn record_hit(&mut self)
        requires
            old(self).hits < usize::MAX,
        ensures
            final(self)@ == old(self)@.record(Outcome::Hit),
    {
        self.hits += 1;
    }

    /// Counts one miss.
    pub fn record_miss(&mut self)
        requires
            old(self).misses < usize::MAX,
        ensures
            final(self)@ == old(self)@.record(Outcome::Miss),
    {
        self.misses += 1;
    }

    /// Counts one eviction, on top of the miss that caused it.
    pub fn record_eviction(&mut self)
        requires
            old(self).evictions < usize::MAX,
        ensures
            final(self)@ == (CacheModel { evictions: old(self)@.evictions + 1, ..old(self)@ }),
    {
        self.evictions += 1;
    }

    /// Counts one outcome: a hit, a miss, or a miss with an eviction.
    pub fn record(&mut self, outcome: Outcome)
        requires
            old(self).hits < usize::MAX,
            old(self).misses < usize::MAX,
            old(self).evictions < usize::MAX,
        ensures
            final(self)@ == old(self)@.record(outcome),
    {
        match outcome {
            Outcome::Hit => self.record_hit(),
            Outcome::Miss => self.record_miss(),
            Outcome::MissWithEviction => {
                self.record_miss();
                self.record_eviction();
            },
        }
    }

    /// The statistics: hits, misses and evictions.
    pub fn snapshot(&self) -> (r: (usize, usize, usize))
        ensures
            r == (self.hits, self.misses, self.evictions),
    {
        (self.hits, self.misses, self.evictions)
    }

    /// Accesses `tag` in set `set_index`; the statistics are left to the caller.
    pub fn access(&mut self, set_index: usize, tag: u64) -> (r: Outcome)
        requires
            old(self)@.wf(),
            set_index < old(self).sets.len(),
        ensures
            (r, final(self)@) == old(self)@.access(set_index as int, tag),
            final(self)@.wf(),
    {
        proof {
            lemma_cache_access_wf(self@, set_index as int, tag);
        }
        let ghost c = self@;
        let r = self.sets[set_index].access(tag);
        proof {
            assert(self@.sets =~= c.access(set_index as int, tag).1.sets);
        }
        r
    }

    /// Simulates each of `accesses` (operation, set index, tag) in order,
    /// and returns the audit trail of the run.
    pub fn simulate_accesses(&mut self, accesses: &Vec<(char, usize, u64)>) -> (r: Vec<AuditRecord>)
        requires
            old(self)@.wf(),
            valid_ops(accesses_view(accesses@), old(self).sets@.len()),
            old(self).hits + 2 * accesses@.len() < usize::MAX,
            old(self).misses + 2 * accesses@.len() < usize::MAX,
            old(self).evictions + 2 * accesses@.len() < usize::MAX,
        ensures
            final(self)@ == run(old(self)@, accesses_view(accesses@)),
            audit_view(r@) == run_log(old(self)@, accesses_view(accesses@)),
            final(self)@.wf(),
    {
        let ghost c0 = self@;
        let ghost ops = accesses_view(accesses@);
        let mut log: Vec<AuditRecord> = Vec::new();
        let mut i: usize = 0;
        assert(audit_view(log@) =~= Seq::empty());
        while i < accesses.len()
            invariant
                i <= accesses@.len(),
                ops == accesses_view(accesses@),
                valid_ops(ops, c0.sets.len()),
                self@.wf(),
                self@.sets.len() == c0.sets.len(),
                self@ == run(c0, ops.take(i as int)),
                audit_view(log@) == run_log(c0, ops.take(i as int)),
                self.hits <= c0.hits + 2 * i,
                self.misses <= c0.misses + 2 * i,
                self.evictions <= c0.evictions + 2 * i,
                c0.hits + 2 * accesses@.len() < usize::MAX,
                c0.misses + 2 * accesses@.len() < usize::MAX,
                c0.evictions + 2 * accesses@.len() < usize::MAX,
            decreases accesses@.len() - i,
        {
            let (operation, set_index, tag) = accesses[i];
            assert(ops[i as int] == (operation, set_index as u64, tag));
            assert(ops.take(i + 1).drop_last() =~= ops.take(i as int));
            proof {
                lemma_apply_wf(self@, operation, set_index as int, tag);
            }
            let ghost before = self@;
            let outcomes = match self.perform(operation, set_index, tag) {
                Ok(v) => v,
                Err(_) => Vec::new(),
            };
            push_records(&mut log, operation, set_index, tag, &outcomes);
            assert(outcomes@ == before.outcomes(operation, set_index as int, tag));
            i = i + 1;
        }
        assert(ops.take(accesses@.len() as int) =~= ops);
        log
    }

    /// Simulates one decoded data access. A load (`L`) or a store (`S`) is
    /// one access; a modify (`M`) is a load followed by a store to the same
    /// address. Each access is counted in the statistics.
    pub fn simulate_memory_access(&mut self, operation: char, set_index: usize, tag: u64) -> (r:
        Result<(), String>)
        requires
            old(self)@.wf(),
            old(self).hits < usize::MAX - 1,
            old(self).misses < usize::MAX - 1,
            old(self).evictions < usize::MAX - 1,
        ensures
            !is_operation(operation) ==> (r matches Err(m) && m@ == unknown_operation_message(
                operation,
            )),
            is_operation(operation) && set_index >= old(self).sets.len() ==> (r matches Err(m) && m@
                == set_index_message()),
            is_operation(operation) && set_index < old(self).sets.len() ==> r is Ok,
            r is Ok ==> final(self)@ == old(self)@.apply(operation, set_index as int, tag),
            r is Err ==> final(self)@ == old(self)@,
            final(self)@.wf(),
    {
        match self.perform(operation, set_index, tag) {
            Ok(_) => Ok(()),
            Err(m) => Err(m),
        }
    }

    /// Like `simulate_memory_access`, and hands back the outcome of each
    /// access: one for a load or a store, two for a modify.
    pub fn perform(&mut self, operation: char, set_index: usize, tag: u64) -> (r: Result<
        Vec<Outcome>,
        String,
    >)
        requires
            old(self)@.wf(),
            old(self).hits < usize::MAX - 1,
            old(self).misses < usize::MAX - 1,
            old(self).evictions < usize::MAX - 1,
        ensures
            !is_operation(operation) ==> (r matches Err(m) && m@ == unknown_operation_message(
                operation,
            )),
            is_operation(operation) && set_index >= old(self).sets.len() ==> (r matches Err(m) && m@
                == set_index_message()),
            is_operation(operation) && set_index < old(self).sets.len() ==> (r matches Ok(v) && v@
                == old(self)@.outcomes(operation, set_index as int, tag)),
            r is Ok ==> final(self)@ == old(self)@.apply(operation, set_index as int, tag),
            r is Err ==> final(self)@ == old(self)@,
            final(self)@.wf(),
    {
        if operation == 'L' || operation == 'S' {
            if set_index >= self.sets.len() {
                return Err("failed to access cache set".to_string());
            }
            let outcome = self.access(set_index, tag);
            self.record(outcome);
            Ok(vec![outcome])
        } else if operation == 'M' {
            if set_index >= self.sets.len() {
                return Err("failed to access cache set".to_string());
            }
            let first = self.access(set_index, tag);
            self.record(first);
            let second = self.access(set_index, tag);
            self.record(second);
            Ok(vec![first, second])
        } else {
            let mut m = "unknown operation: ".to_string();
            push_char(&mut m, operation);
            Err(m)
        }
    }
}

} // verus!
