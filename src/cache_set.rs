//! A set of the cache: its lines, its recency order, and one access to it.
use std::collections::VecDeque;
use vstd::prelude::*;

verus! {

/// One storage slot of a set.
#[derive(Clone, Copy, Debug, PartialEq, Eq, Structural)]
pub struct Line {
    pub tag: Option<u64>,
    pub is_valid: bool,
}

/// A set: its lines and their recency order, most recently used first.
pub struct CacheSet {
    pub lines: Vec<Line>,
    pub access_order: VecDeque<usize>,
}

/// The mathematical value of a set.
pub struct SetModel {
    pub lines: Seq<Line>,
    pub order: Seq<usize>,
}

impl View for CacheSet {
    type V = SetModel;

    open spec fn view(&self) -> SetModel {
        SetModel { lines: self.lines@, order: self.access_order@ }
    }
}

/// What an access did to the set it targeted.
#[derive(Clone, Copy, Debug, PartialEq, Eq, Structural)]
pub enum Outcome {
    Hit,
    Miss,
    MissWithEviction,
}

/// `line` is valid and holds `tag`.
pub open spec fn holds(line: Line, tag: u64) -> bool {
    line.is_valid && line.tag == Some(tag)
}

/// The first index at or after `i` whose line holds `tag`, or `lines.len()`.
pub open spec fn first_hit_from(lines: Seq<Line>, tag: u64, i: int) -> int
    decreases lines.len() - i,
{
    if i < 0 || i >= lines.len() {
        lines.len() as int
    } else if holds(lines[i], tag) {
        i
    } else {
        first_hit_from(lines, tag, i + 1)
    }
}

/// The first index at or after `i` whose line is not valid, or `lines.len()`.
pub open spec fn first_empty_from(lines: Seq<Line>, i: int) -> int
    decreases lines.len() - i,
{
    if i < 0 || i >= lines.len() {
        lines.len() as int
    } else if !lines[i].is_valid {
        i
    } else {
        first_empty_from(lines, i + 1)
    }
}

/// A valid line holding `tag`.
pub open spec fn filled(tag: u64) -> Line {
    Line { tag: Some(tag), is_valid: true }
}

/// `order` with `i` moved (or added) to the most recently used end.
pub open spec fn promote(order: Seq<usize>, i: usize) -> Seq<usize> {
    seq![i] + order.remove_value(i)
}

impl SetModel {
    /// The recency order lists exactly the valid lines, each once, and
    /// the set has at least one line.
    pub open spec fn wf(self) -> bool {
        &&& self.lines.len() > 0
        &&& self.order.no_duplicates()
        &&& forall|k: int|
            0 <= k < self.order.len() ==> {
                &&& (#[trigger] self.order[k] as int) < self.lines.len()
                &&& self.lines[self.order[k] as int].is_valid
            }
        &&& forall|i: int|
            0 <= i < self.lines.len() && #[trigger] self.lines[i].is_valid ==> self.order.contains(
                i as usize,
            )
    }

    /// The index of the line that `tag` hits, or `lines.len()` on a miss.
    pub open spec fn hit_index(self, tag: u64) -> int {
        first_hit_from(self.lines, tag, 0)
    }

    /// The index of the first invalid line, or `lines.len()` when the set is full.
    pub open spec fn empty_index(self) -> int {
        first_empty_from(self.lines, 0)
    }

    /// The least recently used line.
    pub open spec fn lru(self) -> usize {
        self.order.last()
    }

    /// `tag` is held by some line of the set.
    pub open spec fn resident(self, tag: u64) -> bool {
        exists|i: int| 0 <= i < self.lines.len() && holds(self.lines[i], tag)
    }

    /// One access to `tag`: a hit promotes the line that holds it; a miss
    /// fills the first invalid line or, in a full set, the least recently
    /// used one, and promotes it.
    pub open spec fn access(self, tag: u64) -> (Outcome, SetModel) {
        let h = self.hit_index(tag);
        let v = self.empty_index();
        if h < self.lines.len() {
            (Outcome::Hit, SetModel { lines: self.lines, order: promote(self.order, h as usize) })
        } else if v < self.lines.len() {
            (
                Outcome::Miss,
                SetModel { lines: self.lines.update(v, filled(tag)), order: promote(self.order, v as usize) },
            )
        } else {
            (
                Outcome::MissWithEviction,
                SetModel {
                    lines: self.lines.update(self.lru() as int, filled(tag)),
                    order: promote(self.order, self.lru()),
                },
            )
        }
    }
}

/// What `promote` keeps: the elements, and the absence of duplicates.
pub proof fn lemma_promote(order: Seq<usize>, i: usize)
    ensures
        forall|x: usize| #[trigger] promote(order, i).contains(x) <==> (x == i || order.contains(x)),
        promote(order, i)[0] == i,
        order.no_duplicates() ==> promote(order, i).no_duplicates(),
{
    order.index_of_first_ensures(i);
    let p = promote(order, i);
    let rest = order.remove_value(i);
    assert(p[0] == i);
    match order.index_of_first(i) {
        Some(k) => {
            order.remove_ensures(k);
            assert forall|x: usize| #[trigger] p.contains(x) <==> (x == i || order.contains(x)) by {
                if order.contains(x) && x != i {
                    let m = choose|m: int| 0 <= m < order.len() && order[m] == x;
                    if m < k {
                        assert(p[m + 1] == x);
                    } else {
                        assert(p[m] == x);
                    }
                }
                if p.contains(x) && x != i {
                    let m = choose|m: int| 0 <= m < p.len() && p[m] == x;
                    if m - 1 < k {
                        assert(order[m - 1] == x);
                    } else {
                        assert(order[m] == x);
                    }
                }
            }
            if order.no_duplicates() {
                assert forall|a: int, b: int|
                    0 <= a < p.len() && 0 <= b < p.len() && a != b implies p[a] != p[b] by {
                    let oa = if a == 0 { -1 } else if a - 1 < k { a - 1 } else { a };
                    let ob = if b == 0 { -1 } else if b - 1 < k { b - 1 } else { b };
                    if a != 0 {
                        assert(p[a] == order[oa]);
                    }
                    if b != 0 {
                        assert(p[b] == order[ob]);
                    }
                }
            }
        },
        None => {
            assert(rest == order);
            assert forall|x: usize| #[trigger] p.contains(x) <==> (x == i || order.contains(x)) by {
                if order.contains(x) {
                    let m = choose|m: int| 0 <= m < order.len() && order[m] == x;
                    assert(p[m + 1] == x);
                }
                if p.contains(x) && x != i {
                    let m = choose|m: int| 0 <= m < p.len() && p[m] == x;
                    assert(order[m - 1] == x);
                }
            }
            if order.no_duplicates() {
                assert forall|a: int, b: int|
                    0 <= a < p.len() && 0 <= b < p.len() && a != b implies p[a] != p[b] by {
                    if a != 0 {
                        assert(p[a] == order[a - 1]);
                    }
                    if b != 0 {
                        assert(p[b] == order[b - 1]);
                    }
                }
            }
        },
    }
}

/// An access keeps a set well formed, keeps its size, and leaves `tag` resident.
pub proof fn lemma_access_wf(m: SetModel, tag: u64)
    requires
        m.wf(),
    ensures
        m.access(tag).1.wf(),
        m.access(tag).1.lines.len() == m.lines.len(),
        m.access(tag).1.resident(tag),
{
    let n = m.lines.len() as int;
    let (o, r) = m.access(tag);
    lemma_first_hit(m.lines, tag, 0);
    lemma_first_empty(m.lines, 0);
    let h = m.hit_index(tag);
    let v = m.empty_index();
    let i: int = if h < n {
        h
    } else if v < n {
        v
    } else {
        assert(m.lines[0].is_valid);
        assert(m.order.contains(0usize));
        m.lru() as int
    };
    lemma_promote(m.order, i as usize);
    assert(r.lines[i].is_valid);
    assert(holds(r.lines[i], tag));
    assert forall|k: int| 0 <= k < r.order.len() implies {
        &&& (#[trigger] r.order[k] as int) < r.lines.len()
        &&& r.lines[r.order[k] as int].is_valid
    } by {
        let x = r.order[k];
        assert(r.order.contains(x));
        if x != i as usize {
            let q = choose|q: int| 0 <= q < m.order.len() && m.order[q] == x;
            assert(m.lines[m.order[q] as int].is_valid);
        }
    }
    assert forall|j: int| 0 <= j < r.lines.len() && #[trigger] r.lines[j].is_valid implies r.order.contains(
        j as usize,
    ) by {
        if j != i {
            assert(m.lines[j].is_valid);
            assert(m.order.contains(j as usize));
        }
    }
}

/// `first_hit_from` finds the first line at or after `i` that holds `tag`.
pub proof fn lemma_first_hit(lines: Seq<Line>, tag: u64, i: int)
    requires
        0 <= i <= lines.len(),
    ensures
        i <= first_hit_from(lines, tag, i) <= lines.len(),
        first_hit_from(lines, tag, i) < lines.len() ==> holds(
            lines[first_hit_from(lines, tag, i)],
            tag,
        ),
        forall|j: int| i <= j < first_hit_from(lines, tag, i) ==> !holds(#[trigger] lines[j], tag),
    decreases lines.len() - i,
{
    if i < lines.len() && !holds(lines[i], tag) {
        lemma_first_hit(lines, tag, i + 1);
    }
}

/// `first_empty_from` finds the first invalid line at or after `i`.
pub proof fn lemma_first_empty(lines: Seq<Line>, i: int)
    requires
        0 <= i <= lines.len(),
    ensures
        i <= first_empty_from(lines, i) <= lines.len(),
        first_empty_from(lines, i) < lines.len() ==> !lines[first_empty_from(lines, i)].is_valid,
        forall|j: int| i <= j < first_empty_from(lines, i) ==> (#[trigger] lines[j]).is_valid,
    decreases lines.len() - i,
{
    if i < lines.len() && lines[i].is_valid {
        lemma_first_empty(lines, i + 1);
    }
}

fn line_holds(line: &Line, tag: u64) -> (r: bool)
    ensures
        r == holds(*line, tag),
{
    match line.tag {
        Some(t) => line.is_valid && t == tag,
        None => false,
    }
}

impl CacheSet {
    /// Looks `tag` up in the set, fills or replaces a line on a miss, and
    /// keeps the recency order.
    pub fn access(&mut self, tag: u64) -> (r: Outcome)
        requires
            old(self)@.wf(),
        ensures
            r == old(self)@.access(tag).0,
            final(self)@ == old(self)@.access(tag).1,
            final(self)@.wf(),
    {
        proof {
            lemma_access_wf(self@, tag);
        }
        let ghost m = self@;
        let n = self.lines.len();
        let mut i: usize = 0;
        while i < n && !line_holds(&self.lines[i], tag)
            invariant
                self@ == m,
                n == m.lines.len(),
                i <= n,
                first_hit_from(m.lines, tag, i as int) == m.hit_index(tag),
            decreases n - i,
        {
            i = i + 1;
        }
        if i < n {
            self.touch(i);
            return Outcome::Hit;
        }
        let mut j: usize = 0;
        while j < n && self.lines[j].is_valid
            invariant
                self@ == m,
                n == m.lines.len(),
                j <= n,
                first_empty_from(m.lines, j as int) == m.empty_index(),
            decreases n - j,
        {
            j = j + 1;
        }
        if j < n {
            self.lines.set(j, Line { tag: Some(tag), is_valid: true });
            self.touch(j);
            return Outcome::Miss;
        }
        proof {
            lemma_first_empty(m.lines, 0);
            assert(m.lines[0].is_valid);
            assert(m.order.contains(0usize));
        }
        let victim = self.access_order[self.access_order.len() - 1];
        self.lines.set(victim, Line { tag: Some(tag), is_valid: true });
        self.touch(victim);
        Outcome::MissWithEviction
    }

    /// Marks line `index` as the most recently used one.
    pub fn touch(&mut self, index: usize)
        ensures
            final(self).lines@ == old(self).lines@,
            final(self).access_order@ == promote(old(self).access_order@, index),
    {
        let ghost order = self.access_order@;
        let len = self.access_order.len();
        let mut pos: usize = 0;
        while pos < len && self.access_order[pos] != index
            invariant
                self.access_order@ == order,
                len == order.len(),
                pos <= len,
                forall|j: int| 0 <= j < pos ==> order[j] != index,
            decreases len - pos,
        {
            pos = pos + 1;
        }
        proof {
            order.index_of_first_ensures(index);
        }
        if pos < len {
            self.access_order.remove(pos);
        }
        self.access_order.push_front(index);
        proof {
            if pos < len {
                assert(order.index_of_first(index) == Some(pos as int));
            }
            assert(self.access_order@ =~= promote(order, index));
        }
    }
}

/// An invalid line.
pub open spec fn empty_line() -> Line {
    Line { tag: None, is_valid: false }
}

/// A freshly built set of `e` lines.
pub open spec fn empty_set(e: nat) -> SetModel {
    SetModel { lines: Seq::new(e, |i: int| empty_line()), order: Seq::empty() }
}

impl CacheSet {
    /// A set of `e` invalid lines with an empty recency order.
    pub fn new(e: usize) -> (r: CacheSet)
        ensures
            r@ == empty_set(e as nat),
    {
        let mut lines: Vec<Line> = Vec::with_capacity(e);
        let mut i: usize = 0;
        while i < e
            invariant
                i <= e,
                lines@ =~= Seq::new(i as nat, |k: int| empty_line()),
            decreases e - i,
        {
            lines.push(Line { tag: None, is_valid: false });
            i = i + 1;
        }
        CacheSet { lines, access_order: VecDeque::new() }
    }
}

} // verus!
