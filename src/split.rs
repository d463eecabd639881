//! Order in which negative clauses are isolated, and the driver that hands
//! them out one at a time.
use vstd::prelude::*;
use crate::instance::{Clause, Instance, copy_indices};

verus! {

/// Largest number of clauses, and of left-hand predicates of one clause,
/// for which scores are computed.
pub const MAX_CLAUSES: usize = 0x4000_0000;

/// Splitting options.
#[derive(Clone, Copy, Debug)]
pub struct SplitConf {
    /// Split on negative clauses at all.
    pub split: bool,
    /// Break ties between clauses by connectivity rather than by index.
    pub split_sort: bool,
}

/// Clause `c` concludes `false`.
pub open spec fn is_neg_at(inst: Instance, c: int) -> bool {
    0 <= c < inst.clauses@.len() && inst.clauses@[c].rhs.is_none()
}

/// Clause `c` concludes predicate `p`.
pub open spec fn feeds(c: Clause, p: usize) -> bool {
    c.rhs == Some(p)
}

/// Number of clauses among `cls` that conclude `p`.
pub open spec fn count_feeding(cls: Seq<Clause>, p: usize) -> int
    decreases cls.len(),
{
    if cls.len() == 0 {
        0
    } else {
        count_feeding(cls.drop_last(), p) + if feeds(cls.last(), p) { 1int } else { 0int }
    }
}

/// Some clause of `cls` is a bare fact for `p`.
pub open spec fn fact_backed(cls: Seq<Clause>, p: usize) -> bool {
    exists|i: int| 0 <= i < cls.len() && #[trigger] cls[i].rhs == Some(p) && cls[i].lhs_preds@.len() == 0
}

/// Sum, over the predicates of a left-hand side, of the number of clauses
/// that conclude them.
pub open spec fn feed_sum(cls: Seq<Clause>, lhs: Seq<usize>) -> int
    decreases lhs.len(),
{
    if lhs.len() == 0 {
        0
    } else {
        feed_sum(cls, lhs.drop_last()) + count_feeding(cls, lhs.last())
    }
}

/// Some predicate of a left-hand side is backed by a bare fact.
pub open spec fn any_fact_backed(cls: Seq<Clause>, lhs: Seq<usize>) -> bool {
    exists|j: int| 0 <= j < lhs.len() && #[trigger] fact_backed(cls, lhs[j])
}

/// Connectivity score of a left-hand side: zero when one of its predicates
/// is backed by a bare fact, else the number of clauses concluding its
/// predicates.
pub open spec fn score(cls: Seq<Clause>, lhs: Seq<usize>) -> int {
    if any_fact_backed(cls, lhs) {
        0
    } else {
        feed_sum(cls, lhs)
    }
}

/// Ordering key of clause `c`: strictness, then unrolling, then the score
/// (or the opposite of the index when scores are not used).
pub open spec fn clause_key(inst: Instance, sort: bool, c: usize) -> (bool, bool, int) {
    let cl = inst.clauses@[c as int];
    (cl.strict_neg, cl.from_unrolling, if sort { score(inst.clauses@, cl.lhs_preds@) } else { -(c as int) })
}

/// Key order: `false` before `true` on the two flags, then by number.
pub open spec fn key_le(a: (bool, bool, int), b: (bool, bool, int)) -> bool {
    if a.0 != b.0 {
        !a.0
    } else if a.1 != b.1 {
        !a.1
    } else {
        a.2 <= b.2
    }
}

/// `order` holds each negative clause of `inst` once, ascending by key.
pub open spec fn is_split_order(inst: Instance, sort: bool, order: Seq<usize>) -> bool {
    &&& order.no_duplicates()
    &&& forall|c: usize| order.contains(c) <==> is_neg_at(inst, c as int)
    &&& forall|i: int, j: int|
        0 <= i < j < order.len() ==> key_le(
            #[trigger] clause_key(inst, sort, order[i]),
            #[trigger] clause_key(inst, sort, order[j]),
        )
}

/// An executable key seen as a spec key.
pub open spec fn ikey(k: (bool, bool, i64)) -> (bool, bool, int) {
    (k.0, k.1, k.2 as int)
}

/// Sizes for which scores fit in an `i64`.
pub open spec fn sizes_ok(inst: Instance) -> bool {
    &&& inst.clauses@.len() <= MAX_CLAUSES
    &&& forall|c: int|
        0 <= c < inst.clauses@.len() ==> (#[trigger] inst.clauses@[c]).lhs_preds@.len() <= MAX_CLAUSES
}

proof fn lemma_count_feeding_bounds(cls: Seq<Clause>, p: usize)
    ensures
        0 <= count_feeding(cls, p) <= cls.len(),
    decreases cls.len(),
{
    if cls.len() > 0 {
        lemma_count_feeding_bounds(cls.drop_last(), p);
    }
}

proof fn lemma_feed_sum_bounds(cls: Seq<Clause>, lhs: Seq<usize>)
    ensures
        0 <= feed_sum(cls, lhs) <= lhs.len() * cls.len(),
    decreases lhs.len(),
{
    if lhs.len() > 0 {
        lemma_feed_sum_bounds(cls, lhs.drop_last());
        lemma_count_feeding_bounds(cls, lhs.last());
        assert(lhs.len() * cls.len() == (lhs.len() - 1) * cls.len() + cls.len()) by (nonlinear_arith);
    }
}

/// Number of clauses that conclude predicate `p`.
fn count_feeding_exec(inst: &Instance, p: usize) -> (r: i64)
    requires
        sizes_ok(*inst),
    ensures
        r == count_feeding(inst.clauses@, p),
{
    let mut n: i64 = 0;
    let mut i: usize = 0;
    while i < inst.clauses.len()
        invariant
            sizes_ok(*inst),
            i <= inst.clauses@.len(),
            n == count_feeding(inst.clauses@.subrange(0, i as int), p),
            n <= i,
        decreases inst.clauses@.len() - i,
    {
        let c = &inst.clauses[i];
        proof {
            assert(inst.clauses@.subrange(0, i + 1).drop_last() =~= inst.clauses@.subrange(0, i as int));
        }
        if c.rhs == Some(p) {
            n = n + 1;
        }
        i += 1;
    }
    assert(inst.clauses@.subrange(0, i as int) =~= inst.clauses@);
    n
}

/// Whether some clause is a bare fact for `p`.
fn fact_backed_exec(inst: &Instance, p: usize) -> (r: bool)
    ensures
        r == fact_backed(inst.clauses@, p),
{
    let mut i: usize = 0;
    while i < inst.clauses.len()
        invariant
            i <= inst.clauses@.len(),
            forall|j: int|
                0 <= j < i ==> !(#[trigger] inst.clauses@[j].rhs == Some(p)
                    && inst.clauses@[j].lhs_preds@.len() == 0),
        decreases inst.clauses@.len() - i,
    {
        let c = &inst.clauses[i];
        if c.lhs_preds.len() == 0 {
            match c.rhs {
                Some(q) => {
                    if q == p {
                        return true;
                    }
                },
                None => {},
            }
        }
        i += 1;
    }
    false
}

/// Connectivity score of clause `c`.
fn clause_score(inst: &Instance, c: usize) -> (r: i64)
    requires
        sizes_ok(*inst),
        c < inst.clauses@.len(),
    ensures
        r == score(inst.clauses@, inst.clauses@[c as int].lhs_preds@),
{
    let lhs = &inst.clauses[c].lhs_preds;
    let ghost cls = inst.clauses@;
    let mut sum: i64 = 0;
    let mut backed = false;
    let mut i: usize = 0;
    while i < lhs.len()
        invariant
            sizes_ok(*inst),
            cls == inst.clauses@,
            c < cls.len(),
            *lhs == cls[c as int].lhs_preds,
            i <= lhs@.len(),
            sum == feed_sum(cls, lhs@.subrange(0, i as int)),
            backed == any_fact_backed(cls, lhs@.subrange(0, i as int)),
        decreases lhs@.len() - i,
    {
        let p = lhs[i];
        proof {
            let pre = lhs@.subrange(0, i + 1);
            assert(pre.drop_last() =~= lhs@.subrange(0, i as int));
            assert(pre.last() == p);
            lemma_feed_sum_bounds(cls, lhs@.subrange(0, i as int));
            lemma_count_feeding_bounds(cls, p);
            assert(i * cls.len() <= MAX_CLAUSES * MAX_CLAUSES) by (nonlinear_arith)
                requires i <= MAX_CLAUSES, cls.len() <= MAX_CLAUSES;
        }
        let fb = fact_backed_exec(inst, p);
        let k = count_feeding_exec(inst, p);
        proof {
            let pre = lhs@.subrange(0, i as int);
            let nxt = lhs@.subrange(0, i + 1);
            assert(any_fact_backed(cls, nxt) == (any_fact_backed(cls, pre) || fact_backed(cls, p))) by {
                if any_fact_backed(cls, pre) {
                    let j = choose|j: int| 0 <= j < pre.len() && #[trigger] fact_backed(cls, pre[j]);
                    assert(nxt[j] == pre[j]);
                }
                if fact_backed(cls, p) {
                    assert(nxt[i as int] == p);
                }
                if any_fact_backed(cls, nxt) {
                    let j = choose|j: int| 0 <= j < nxt.len() && #[trigger] fact_backed(cls, nxt[j]);
                    if j < i {
                        assert(pre[j] == nxt[j]);
                    }
                }
            }
        }
        sum = sum + k;
        backed = backed || fb;
        i += 1;
    }
    assert(lhs@.subrange(0, i as int) =~= lhs@);
    if backed {
        0
    } else {
        sum
    }
}

/// Ordering key of clause `c`, as an executable value.
fn key_of(inst: &Instance, conf: SplitConf, c: usize) -> (r: (bool, bool, i64))
    requires
        sizes_ok(*inst),
        c < inst.clauses@.len(),
    ensures
        clause_key(*inst, conf.split_sort, c) == ikey(r),
{
    let cl = &inst.clauses[c];
    let n = if conf.split_sort {
        clause_score(inst, c)
    } else {
        -(c as i64)
    };
    (cl.strict_neg, cl.from_unrolling, n)
}

/// Executable key comparison.
fn key_le_exec(a: (bool, bool, i64), b: (bool, bool, i64)) -> (r: bool)
    ensures
        r == key_le(ikey(a), ikey(b)),
{
    if a.0 != b.0 {
        !a.0
    } else if a.1 != b.1 {
        !a.1
    } else {
        a.2 <= b.2
    }
}

/// The negative clauses of `inst`, ascending by key; clauses of equal key
/// keep their index order.
#[verifier::rlimit(40)]
pub fn split_order(inst: &Instance, conf: SplitConf) -> (r: Vec<usize>)
    requires
        sizes_ok(*inst),
    ensures
        is_split_order(*inst, conf.split_sort, r@),
        forall|i: int, j: int|
            0 <= i < j < r@.len() && clause_key(*inst, conf.split_sort, #[trigger] r@[i]) == clause_key(
                *inst,
                conf.split_sort,
                #[trigger] r@[j],
            ) ==> r@[i] < r@[j],
{
    let ghost sort = conf.split_sort;
    let mut out: Vec<(usize, (bool, bool, i64))> = Vec::new();
    let mut i: usize = 0;
    while i < inst.clauses.len()
        invariant
            sizes_ok(*inst),
            sort == conf.split_sort,
            i <= inst.clauses@.len(),
            forall|k: int| 0 <= k < out@.len() ==> {
                &&& (#[trigger] out@[k]).0 < i
                &&& is_neg_at(*inst, out@[k].0 as int)
                &&& clause_key(*inst, sort, out@[k].0) == ikey(out@[k].1)
            },
            forall|k: int, l: int| 0 <= k < l < out@.len() ==> (#[trigger] out@[k]).0 != (#[trigger] out@[l]).0,
            forall|c: int| 0 <= c < i && is_neg_at(*inst, c) ==> exists|k: int| 0 <= k < out@.len() && (#[trigger] out@[k]).0 == c,
            forall|k: int, l: int|
                0 <= k < l < out@.len() ==> key_le(
                    ikey((#[trigger] out@[k]).1),
                    ikey((#[trigger] out@[l]).1),
                ),
            forall|k: int, l: int|
                0 <= k < l < out@.len() && ikey((#[trigger] out@[k]).1) == ikey((#[trigger] out@[l]).1)
                    ==> out@[k].0 < out@[l].0,
        decreases inst.clauses@.len() - i,
    {
        if inst.clauses[i].rhs.is_none() {
            let key = key_of(inst, conf, i);
            let mut j: usize = 0;
            while j < out.len() && key_le_exec(out[j].1, key)
                invariant
                    j <= out@.len(),
                    clause_key(*inst, sort, i) == ikey(key),
                    forall|k: int| 0 <= k < j ==> key_le(
                        ikey((#[trigger] out@[k]).1),
                        ikey(key),
                    ),
                decreases out@.len() - j,
            {
                j += 1;
            }
            let ghost before = out@;
            out.insert(j, (i, key));
            proof {
                before.insert_ensures(j as int, (i, key));
                assert forall|c: int| 0 <= c < i + 1 && is_neg_at(*inst, c) implies exists|k: int| 0 <= k < out@.len() && (#[trigger] out@[k]).0 == c by {
                    if c == i {
                        assert(out@[j as int].0 == c);
                    } else {
                        let k = choose|k: int| 0 <= k < before.len() && (#[trigger] before[k]).0 == c;
                        if k < j {
                            assert(out@[k].0 == c);
                        } else {
                            assert(out@[k + 1].0 == c);
                        }
                    }
                }
                assert forall|k: int, l: int| 0 <= k < l < out@.len() implies key_le(
                    ikey((#[trigger] out@[k]).1),
                    ikey((#[trigger] out@[l]).1),
                ) by {
                    if l == j {
                        assert(out@[k] == before[k]);
                    } else if k == j {
                        assert(out@[l] == before[l - 1]);
                        assert(!key_le(
                            ikey(before[j as int].1),
                            ikey(key)));
                        if l - 1 > j {
                            assert(key_le(
                                ikey(before[j as int].1),
                                ikey(before[l - 1].1)));
                        }
                    } else if k < j && l < j {
                        assert(out@[k] == before[k] && out@[l] == before[l]);
                    } else if k < j {
                        assert(out@[k] == before[k] && out@[l] == before[l - 1]);
                    } else {
                        assert(out@[k] == before[k - 1] && out@[l] == before[l - 1]);
                    }
                }
                assert forall|k: int, l: int|
                    0 <= k < l < out@.len() && ikey((#[trigger] out@[k]).1) == ikey((#[trigger] out@[l]).1)
                    implies out@[k].0 < out@[l].0 by {
                    if k == j {
                        assert(out@[l] == before[l - 1]);
                    } else if l == j {
                        assert(out@[k] == before[k]);
                    } else if k < j && l < j {
                        assert(out@[k] == before[k] && out@[l] == before[l]);
                    } else if k < j {
                        assert(out@[k] == before[k] && out@[l] == before[l - 1]);
                    } else {
                        assert(out@[k] == before[k - 1] && out@[l] == before[l - 1]);
                    }
                }
                assert forall|k: int, l: int| 0 <= k < l < out@.len() implies (#[trigger] out@[k]).0 != (#[trigger] out@[l]).0 by {
                    if k == j {
                        assert(out@[l] == before[l - 1]);
                    } else if l == j {
                        assert(out@[k] == before[k]);
                    } else if k < j && l < j {
                        assert(out@[k] == before[k] && out@[l] == before[l]);
                    } else if k < j {
                        assert(out@[k] == before[k] && out@[l] == before[l - 1]);
                    } else {
                        assert(out@[k] == before[k - 1] && out@[l] == before[l - 1]);
                    }
                }
                assert forall|k: int| 0 <= k < out@.len() implies {
                    &&& (#[trigger] out@[k]).0 < i + 1
                    &&& is_neg_at(*inst, out@[k].0 as int)
                    &&& clause_key(*inst, sort, out@[k].0) == ikey(out@[k].1)
                } by {
                    if k < j {
                        assert(out@[k] == before[k]);
                    } else if k > j {
                        assert(out@[k] == before[k - 1]);
                    } else {
                        assert(out@[k] == (i, key));
                        assert(is_neg_at(*inst, i as int));
                    }
                }
            }
        }
        i += 1;
    }
    let mut r: Vec<usize> = Vec::new();
    let mut k: usize = 0;
    while k < out.len()
        invariant
            k <= out@.len(),
            r@.len() == k,
            forall|m: int| 0 <= m < k ==> r@[m] == (#[trigger] out@[m]).0,
        decreases out@.len() - k,
    {
        r.push(out[k].0);
        k += 1;
    }
    proof {
        assert forall|c: usize| r@.contains(c) <==> is_neg_at(*inst, c as int) by {
            if is_neg_at(*inst, c as int) {
                let m = choose|m: int| 0 <= m < out@.len() && (#[trigger] out@[m]).0 == c;
                assert(r@[m] == c);
            }
            if r@.contains(c) {
                let m = choose|m: int| 0 <= m < r@.len() && r@[m] == c;
                assert(out@[m].0 == c);
            }
        }
        assert forall|m: int, n: int| 0 <= m < n < r@.len() implies key_le(
            #[trigger] clause_key(*inst, sort, r@[m]),
            #[trigger] clause_key(*inst, sort, r@[n]),
        ) by {
            assert(r@[m] == out@[m].0 && r@[n] == out@[n].0);
        }
        assert forall|m: int, n: int|
            0 <= m < n < r@.len() && clause_key(*inst, sort, #[trigger] r@[m]) == clause_key(*inst, sort, #[trigger] r@[n])
            implies r@[m] < r@[n] by {
            assert(r@[m] == out@[m].0 && r@[n] == out@[n].0);
        }
        assert forall|m: int, n: int| 0 <= m < r@.len() && 0 <= n < r@.len() && m != n implies r@[m] != r@[n] by {
            if m < n {
                assert(out@[m].0 != out@[n].0);
            } else {
                assert(out@[n].0 != out@[m].0);
            }
        }
    }
    r
}

/// The negative clauses of `inst`, as a set.
pub open spec fn neg_set(inst: Instance) -> Set<usize> {
    Set::new(|c: usize| is_neg_at(inst, c as int))
}

/// A split order is as long as there are negative clauses.
proof fn lemma_split_order_len(inst: Instance, sort: bool, order: Seq<usize>)
    requires
        is_split_order(inst, sort, order),
    ensures
        order.to_set() == neg_set(inst),
        neg_set(inst).len() == order.len(),
{
    assert(order.to_set() =~= neg_set(inst));
    order.unique_seq_to_set();
}

/// What the driver hands out next.
#[derive(Debug)]
pub enum SplitStep {
    /// Preprocess the instance keeping only negative clause `clause`, and
    /// dropping the negative clauses of `excluded`, isolated earlier.
    Isolate { clause: usize, excluded: Vec<usize> },
    /// Solve the top-level instance as it is.
    Whole,
    /// Nothing is left.
    Done,
}

/// State of the driver.
enum Pending {
    /// Clauses left to isolate, the next one last.
    Active(Vec<usize>),
    /// Splitting is off; the flag says whether the whole instance was handed out.
    Inactive(bool),
}

/// Hands out the negative clauses of an instance one at a time, in key order
/// from the highest key down.
pub struct Splitter {
    clauses: Pending,
    clause_count: usize,
    prev_clauses: Vec<usize>,
    order: Ghost<Seq<usize>>,
    negs: Ghost<Set<usize>>,
}

impl Splitter {
    /// The driver splits.
    pub closed spec fn is_active(&self) -> bool {
        self.clauses is Active
    }

    /// Clauses still to isolate, the next one last.
    pub closed spec fn pending(&self) -> Seq<usize> {
        match self.clauses {
            Pending::Active(v) => v@,
            Pending::Inactive(_) => Seq::empty(),
        }
    }

    /// An inactive driver has handed out the whole instance.
    pub closed spec fn fired(&self) -> bool {
        match self.clauses {
            Pending::Active(_) => false,
            Pending::Inactive(b) => b,
        }
    }

    /// Clauses isolated so far, in the order they were handed out.
    pub closed spec fn handled(&self) -> Seq<usize> {
        self.prev_clauses@
    }

    /// Number of steps in all.
    pub closed spec fn total(&self) -> nat {
        self.clause_count as nat
    }

    /// The negative clauses the driver was built on.
    pub closed spec fn negatives(&self) -> Set<usize> {
        self.negs@
    }

    /// Internal consistency: an active driver has handed out a suffix of its
    /// order, from the last clause down, and still holds the prefix.
    pub closed spec fn wf(&self) -> bool {
        let order = self.order@;
        let k = self.pending().len();
        &&& self.is_active() ==> {
            &&& order.no_duplicates()
            &&& order.to_set() == self.negs@
            &&& self.clause_count == order.len()
            &&& k <= order.len()
            &&& self.pending() == order.subrange(0, k as int)
            &&& self.prev_clauses@.len() == order.len() - k
            &&& forall|i: int|
                0 <= i < self.prev_clauses@.len() ==> #[trigger] self.prev_clauses@[i] == order[order.len() - 1 - i]
        }
        &&& !self.is_active() ==> self.prev_clauses@.len() == 0
    }

    /// A driver for `inst`: it splits when splitting is on and there are at
    /// least two negative clauses.
    pub fn new(inst: &Instance, conf: SplitConf) -> (r: Self)
        requires
            sizes_ok(*inst),
        ensures
            r.wf(),
            r.handled().len() == 0,
            conf.split && neg_set(*inst).len() > 1 ==> {
                &&& r.is_active()
                &&& is_split_order(*inst, conf.split_sort, r.pending())
                &&& forall|i: int, j: int|
                    0 <= i < j < r.pending().len() && clause_key(*inst, conf.split_sort, #[trigger] r.pending()[i])
                        == clause_key(*inst, conf.split_sort, #[trigger] r.pending()[j])
                        ==> r.pending()[i] < r.pending()[j]
                &&& r.total() == r.pending().len()
                &&& r.negatives() == neg_set(*inst)
            },
            !(conf.split && neg_set(*inst).len() > 1) ==> !r.is_active() && !r.fired() && r.total() == 1,
    {
        if conf.split {
            let order = split_order(inst, conf);
            proof {
                lemma_split_order_len(*inst, conf.split_sort, order@);
            }
            let len = order.len();
            if len > 1 {
                let r = Splitter {
                    clauses: Pending::Active(order),
                    clause_count: len,
                    prev_clauses: Vec::new(),
                    order: Ghost(order@),
                    negs: Ghost(neg_set(*inst)),
                };
                assert(order@.subrange(0, order@.len() as int) =~= order@);
                return r;
            }
        }
        Splitter {
            clauses: Pending::Inactive(false),
            clause_count: 1,
            prev_clauses: Vec::new(),
            order: Ghost(Seq::empty()),
            negs: Ghost(Set::empty()),
        }
    }

    /// The next clause to isolate, how many were isolated, and the total,
    /// when active and not exhausted.
    pub fn info(&self) -> (r: Option<(usize, usize, usize)>)
        requires
            self.wf(),
        ensures
            self.is_active() && self.pending().len() > 0 ==> r == Some((
                self.pending().last(),
                (self.total() - self.pending().len()) as usize,
                self.total() as usize,
            )),
            !(self.is_active() && self.pending().len() > 0) ==> r.is_none(),
    {
        match &self.clauses {
            Pending::Active(clauses) => {
                if clauses.len() > 0 {
                    let total = self.clause_count;
                    Some((clauses[clauses.len() - 1], total - clauses.len(), total))
                } else {
                    None
                }
            },
            Pending::Inactive(_) => None,
        }
    }

    /// Hands out the next step: the clause of highest key among those left,
    /// with the clauses isolated before it; or, when inactive, the whole
    /// instance once.
    pub fn next_instance(&mut self) -> (r: SplitStep)
        requires
            old(self).wf(),
        ensures
            final(self).wf(),
            final(self).is_active() == old(self).is_active(),
            final(self).total() == old(self).total(),
            final(self).negatives() == old(self).negatives(),
            old(self).is_active() && old(self).pending().len() > 0 ==> {
                &&& r matches SplitStep::Isolate { clause, excluded }
                &&& clause == old(self).pending().last()
                &&& excluded@ == old(self).handled()
                &&& final(self).pending() == old(self).pending().drop_last()
                &&& final(self).handled() == old(self).handled().push(clause)
            },
            old(self).is_active() && old(self).pending().len() == 0 ==> r is Done && final(self).pending() == old(self).pending() && final(self).handled() == old(self).handled(),
            !old(self).is_active() && !old(self).fired() ==> r is Whole && final(self).fired(),
            !old(self).is_active() && old(self).fired() ==> r is Done && final(self).fired(),
    {
        let mut st = Pending::Inactive(true);
        std::mem::swap(&mut st, &mut self.clauses);
        match st {
            Pending::Active(mut clauses) => {
                match clauses.pop() {
                    Some(clause) => {
                        let excluded = copy_indices(&self.prev_clauses);
                        self.prev_clauses.push(clause);
                        self.clauses = Pending::Active(clauses);
                        proof {
                            let order = self.order@;
                            let k = clauses@.len();
                            assert(clauses@ =~= order.subrange(0, k as int));
                            assert(clause == order[k as int]);
                        }
                        SplitStep::Isolate { clause, excluded }
                    },
                    None => {
                        assert(clauses@ =~= Seq::<usize>::empty());
                        self.clauses = Pending::Active(clauses);
                        SplitStep::Done
                    },
                }
            },
            Pending::Inactive(once) => {
                self.clauses = Pending::Inactive(true);
                if once {
                    SplitStep::Done
                } else {
                    SplitStep::Whole
                }
            },
        }
    }
}

/// An active driver never holds a clause twice: pending clauses are
/// distinct, were not isolated yet, and isolated clauses are distinct too.
pub proof fn lemma_pending_fresh(s: Splitter)
    requires
        s.wf(),
        s.is_active(),
    ensures
        s.pending().no_duplicates(),
        s.handled().no_duplicates(),
        forall|c: usize| s.pending().contains(c) ==> !s.handled().contains(c),
        forall|c: usize| s.pending().contains(c) || s.handled().contains(c) <==> s.negatives().contains(c),
{
    let order = s.order@;
    let p = s.pending();
    let h = s.handled();
    let k = p.len() as int;
    assert forall|i: int, j: int| 0 <= i < p.len() && 0 <= j < p.len() && i != j implies p[i] != p[j] by {
        assert(p[i] == order[i] && p[j] == order[j]);
    }
    assert forall|i: int, j: int| 0 <= i < h.len() && 0 <= j < h.len() && i != j implies h[i] != h[j] by {
        assert(h[i] == order[order.len() - 1 - i]);
        assert(h[j] == order[order.len() - 1 - j]);
    }
    assert forall|c: usize| p.contains(c) implies !h.contains(c) by {
        let i = choose|i: int| 0 <= i < p.len() && p[i] == c;
        assert(p[i] == order[i]);
        if h.contains(c) {
            let j = choose|j: int| 0 <= j < h.len() && h[j] == c;
            assert(h[j] == order[order.len() - 1 - j]);
        }
    }
    assert forall|c: usize| p.contains(c) || h.contains(c) <==> s.negatives().contains(c) by {
        if p.contains(c) {
            let i = choose|i: int| 0 <= i < p.len() && p[i] == c;
            assert(p[i] == order[i]);
            assert(order.to_set().contains(c));
        }
        if h.contains(c) {
            let i = choose|i: int| 0 <= i < h.len() && h[i] == c;
            assert(h[i] == order[order.len() - 1 - i]);
            assert(order.to_set().contains(c));
        }
        if s.negatives().contains(c) {
            assert(order.to_set().contains(c));
            let j = choose|j: int| 0 <= j < order.len() && order[j] == c;
            if j < k {
                assert(p[j] == c);
            } else {
                assert(h[order.len() - 1 - j] == order[j]);
            }
        }
    }
}

/// Running the driver to exhaustion isolates every negative clause exactly
/// once.
pub proof fn lemma_split_visits_each_once(s: Splitter)
    requires
        s.wf(),
        s.is_active(),
        s.pending().len() == 0,
    ensures
        s.handled().no_duplicates(),
        forall|c: usize| s.handled().contains(c) <==> s.negatives().contains(c),
{
    let order = s.order@;
    let h = s.handled();
    assert forall|i: int, j: int| 0 <= i < h.len() && 0 <= j < h.len() && i != j implies h[i] != h[j] by {
        assert(h[i] == order[order.len() - 1 - i]);
        assert(h[j] == order[order.len() - 1 - j]);
    }
    assert forall|c: usize| h.contains(c) <==> s.negatives().contains(c) by {
        if h.contains(c) {
            let i = choose|i: int| 0 <= i < h.len() && h[i] == c;
            assert(h[i] == order[order.len() - 1 - i]);
            assert(order.to_set().contains(c));
        }
        if s.negatives().contains(c) {
            assert(order.to_set().contains(c));
            let j = choose|j: int| 0 <= j < order.len() && order[j] == c;
            assert(h[order.len() - 1 - j] == order[j]);
        }
    }
}

} // verus!
