//! Reconstruction of the positive samples of the original instance that
//! justify samples of a transformed one.
//!
//! The oracle is queried by the caller: this module decides which clause to
//! try for which sample, and what a witness adds to the result.
use vstd::prelude::*;
use crate::instance::{Clause, Instance, Val};
use crate::sample::{Sample, SampleV, views, sample_set, sorted, copy_vals, insert_sample};
use crate::entry_points::{ProofError, copy_samples};

verus! {

/// Predicates referenced by the definition of `p`.
pub open spec fn refs(inst: Instance, p: int) -> Seq<usize> {
    inst.preds@[p].def.unwrap()@
}

/// `p` has a definition that references only predicates of `s`.
pub open spec fn justified(inst: Instance, s: Set<usize>, p: int) -> bool {
    &&& inst.preds@[p].def.is_some()
    &&& forall|j: int| 0 <= j < refs(inst, p).len() ==> s.contains(#[trigger] refs(inst, p)[j])
}

/// Every predicate that `s` justifies is in `s`.
pub open spec fn closed_under(inst: Instance, s: Set<usize>) -> bool {
    forall|p: usize| p < inst.preds@.len() && justified(inst, s, p as int) ==> #[trigger] s.contains(p)
}

/// `s` is the least set of safe predicates: each of its predicates is
/// justified by it, it is closed, and it is below every closed set.
pub open spec fn is_least_safe(inst: Instance, s: Set<usize>) -> bool {
    &&& forall|p: usize| #[trigger] s.contains(p) ==> p < inst.preds@.len() && justified(inst, s, p as int)
    &&& closed_under(inst, s)
    &&& forall|t: Set<usize>| closed_under(inst, t) ==> s.subset_of(t)
}

/// `order` lists `s`, each predicate justified by those listed before it.
pub open spec fn is_safe_ranking(inst: Instance, s: Set<usize>, order: Seq<usize>) -> bool {
    &&& order.to_set() == s
    &&& forall|i: int| 0 <= i < order.len() ==> justified(inst, order.subrange(0, i).to_set(), #[trigger] order[i] as int)
}

/// The predicates of `s` can be added one at a time, each once every
/// predicate its definition references is in.
pub open spec fn has_safe_ranking(inst: Instance, s: Set<usize>) -> bool {
    exists|order: Seq<usize>| is_safe_ranking(inst, s, order)
}

/// Predicates defined without reference to any predicate.
pub open spec fn positive_preds(inst: Instance) -> Set<usize> {
    Set::new(|p: usize| p < inst.preds@.len() && inst.preds@[p as int].def.is_some() && refs(inst, p as int).len() == 0)
}

/// The indices set to `true` in `s`.
pub open spec fn set_of(s: Seq<bool>) -> Set<usize> {
    Set::new(|p: usize| p < s.len() && s[p as int])
}

/// Number of `true` in `s`.
pub open spec fn count_true(s: Seq<bool>) -> nat
    decreases s.len(),
{
    if s.len() == 0 {
        0
    } else {
        count_true(s.drop_last()) + if s.last() { 1nat } else { 0nat }
    }
}

proof fn lemma_count_true_set(s: Seq<bool>, i: int)
    requires
        0 <= i < s.len(),
        !s[i],
    ensures
        count_true(s.update(i, true)) == count_true(s) + 1,
    decreases s.len(),
{
    if i == s.len() - 1 {
        assert(s.update(i, true).drop_last() =~= s.drop_last());
    } else {
        lemma_count_true_set(s.drop_last(), i);
        assert(s.update(i, true).drop_last() =~= s.drop_last().update(i, true));
    }
}

proof fn lemma_count_true_none(s: Seq<bool>)
    requires
        forall|k: int| 0 <= k < s.len() ==> !(#[trigger] s[k]),
    ensures
        count_true(s) == 0,
    decreases s.len(),
{
    if s.len() > 0 {
        lemma_count_true_none(s.drop_last());
    }
}

proof fn lemma_count_true_le(s: Seq<bool>)
    ensures
        count_true(s) <= s.len(),
    decreases s.len(),
{
    if s.len() > 0 {
        lemma_count_true_le(s.drop_last());
    }
}

/// All of `refs` are set in `safe`.
fn refs_safe(refs: &Vec<usize>, safe: &Vec<bool>) -> (r: bool)
    ensures
        r == forall|j: int| 0 <= j < refs@.len() ==> set_of(safe@).contains(#[trigger] refs@[j]),
{
    let mut j: usize = 0;
    while j < refs.len()
        invariant
            j <= refs@.len(),
            forall|k: int| 0 <= k < j ==> set_of(safe@).contains(#[trigger] refs@[k]),
        decreases refs@.len() - j,
    {
        let q = refs[j];
        if q >= safe.len() || !safe[q] {
            assert(!set_of(safe@).contains(refs@[j as int]));
            return false;
        }
        j += 1;
    }
    true
}

/// The least fixpoint of safe predicates of `inst`, and its positive
/// predicates, as flags by predicate.
pub fn safe_fixpoint(inst: &Instance) -> (r: (Vec<bool>, Vec<bool>))
    ensures
        r.0@.len() == inst.preds@.len(),
        r.1@.len() == inst.preds@.len(),
        is_least_safe(*inst, set_of(r.0@)),
        has_safe_ranking(*inst, set_of(r.0@)),
        set_of(r.1@) == positive_preds(*inst),
{
    let n = inst.preds.len();
    let mut safe: Vec<bool> = Vec::new();
    let mut pos: Vec<bool> = Vec::new();
    let mut i: usize = 0;
    while i < n
        invariant
            n == inst.preds@.len(),
            i <= n,
            safe@.len() == i,
            pos@.len() == i,
            forall|k: int| 0 <= k < i ==> !(#[trigger] safe@[k]),
            forall|k: int| 0 <= k < i ==> (#[trigger] pos@[k]) == (inst.preds@[k].def.is_some() && refs(*inst, k).len() == 0),
        decreases n - i,
    {
        let p = match &inst.preds[i].def {
            Some(d) => d.len() == 0,
            None => false,
        };
        safe.push(false);
        pos.push(p);
        i += 1;
    }
    assert(set_of(pos@) =~= positive_preds(*inst));
    proof {
        lemma_count_true_none(safe@);
    }
    let ghost mut order: Seq<usize> = Seq::empty();
    assert(order.to_set() =~= set_of(safe@));
    loop
        invariant
            n == inst.preds@.len(),
            safe@.len() == n,
            forall|p: usize| #[trigger] set_of(safe@).contains(p) ==> justified(*inst, set_of(safe@), p as int),
            forall|t: Set<usize>| closed_under(*inst, t) ==> set_of(safe@).subset_of(t),
            count_true(safe@) <= n,
            is_safe_ranking(*inst, set_of(safe@), order),
        ensures
            is_safe_ranking(*inst, set_of(safe@), order),
            safe@.len() == n,
            forall|p: usize| #[trigger] set_of(safe@).contains(p) ==> justified(*inst, set_of(safe@), p as int),
            forall|t: Set<usize>| closed_under(*inst, t) ==> set_of(safe@).subset_of(t),
            closed_under(*inst, set_of(safe@)),
        decreases n - count_true(safe@),
    {
        let mut changed = false;
        let ghost start = safe@;
        let mut q: usize = 0;
        while q < n
            invariant
                n == inst.preds@.len(),
                safe@.len() == n,
                q <= n,
                forall|p: usize| #[trigger] set_of(safe@).contains(p) ==> justified(*inst, set_of(safe@), p as int),
                forall|t: Set<usize>| closed_under(*inst, t) ==> set_of(safe@).subset_of(t),
                !changed ==> safe@ == start,
                is_safe_ranking(*inst, set_of(safe@), order),
                changed ==> count_true(safe@) > count_true(start),
                count_true(safe@) <= n,
                !changed ==> forall|k: usize| k < q ==> #[trigger] safe@[k as int] || !justified(*inst, set_of(safe@), k as int),
            decreases n - q,
        {
            if !safe[q] {
                match &inst.preds[q].def {
                    Some(d) => {
                        if refs_safe(d, &safe) {
                            let ghost before = safe@;
                            safe.set(q, true);
                            proof {
                                lemma_count_true_set(before, q as int);
                                lemma_count_true_le(safe@);
                                assert(set_of(safe@) =~= set_of(before).insert(q));
                                let old_order = order;
                                order = order.push(q);
                                assert(order.to_set() =~= old_order.to_set().insert(q)) by {
                                    assert forall|x: usize| order.to_set().contains(x) <==> old_order.to_set().insert(q).contains(x) by {
                                        if order.to_set().contains(x) {
                                            let k = choose|k: int| 0 <= k < order.len() && order[k] == x;
                                            if k < old_order.len() {
                                                assert(old_order[k] == x);
                                            }
                                        }
                                        if old_order.to_set().contains(x) {
                                            let k = choose|k: int| 0 <= k < old_order.len() && old_order[k] == x;
                                            assert(order[k] == x);
                                        }
                                        if x == q {
                                            assert(order[old_order.len() as int] == x);
                                        }
                                    }
                                }
                                assert forall|i: int| 0 <= i < order.len() implies justified(*inst, order.subrange(0, i).to_set(), #[trigger] order[i] as int) by {
                                    if i < old_order.len() {
                                        assert(order.subrange(0, i) =~= old_order.subrange(0, i));
                                    } else {
                                        assert(order.subrange(0, i) =~= old_order);
                                    }
                                }
                                assert forall|p: usize| #[trigger] set_of(safe@).contains(p) implies justified(*inst, set_of(safe@), p as int) by {
                                    if p != q {
                                        assert(set_of(before).contains(p));
                                    }
                                }
                                assert forall|t: Set<usize>| closed_under(*inst, t) implies set_of(safe@).subset_of(t) by {
                                    assert(set_of(before).subset_of(t));
                                    assert(justified(*inst, t, q as int));
                                }
                            }
                            changed = true;
                        }
                    },
                    None => {},
                }
            }
            q += 1;
        }
        if !changed {
            proof {
                assert forall|p: usize| p < inst.preds@.len() && justified(*inst, set_of(safe@), p as int) implies #[trigger] set_of(safe@).contains(p) by {
                    assert(safe@[p as int] || !justified(*inst, set_of(safe@), p as int));
                }
            }
            break;
        }
    }
    assert(is_safe_ranking(*inst, set_of(safe@), order));
    (safe, pos)
}

/// Removing any one predicate from the least safe set leaves a set that is
/// no fixpoint: the removed predicate is still justified by the rest.
pub proof fn lemma_safe_set_minimal(inst: Instance, s: Set<usize>, p: usize)
    requires
        is_least_safe(inst, s),
        s.contains(p),
    ensures
        justified(inst, s.remove(p), p as int),
        !closed_under(inst, s.remove(p)),
{
    let t = s.remove(p);
    if !justified(inst, t, p as int) {
        let j = choose|j: int| 0 <= j < refs(inst, p as int).len() && !t.contains(#[trigger] refs(inst, p as int)[j]);
        assert(refs(inst, p as int)[j] == p);
        assert(closed_under(inst, t)) by {
            assert forall|q: usize| q < inst.preds@.len() && justified(inst, t, q as int) implies #[trigger] t.contains(q) by {
                assert(justified(inst, s, q as int)) by {
                    assert forall|k: int| 0 <= k < refs(inst, q as int).len() implies s.contains(#[trigger] refs(inst, q as int)[k]) by {
                        assert(t.contains(refs(inst, q as int)[k]));
                    }
                }
                assert(s.contains(q));
                if q == p {
                    assert(t.contains(refs(inst, p as int)[j]));
                }
            }
        }
        assert(s.subset_of(t));
        assert(t.contains(p));
    }
    assert(!t.contains(p));
}

/// Every left-hand predicate of `c` is in `safe`.
pub open spec fn lhs_safe(c: Clause, safe: Set<usize>) -> bool {
    forall|j: int| 0 <= j < c.lhs_preds@.len() ==> safe.contains(#[trigger] c.lhs_preds@[j])
}

/// Bare facts for `p` among the first `n` clauses, ascending.
pub open spec fn facts_below(cls: Seq<Clause>, p: usize, n: int) -> Seq<usize>
    decreases n,
{
    if n <= 0 {
        Seq::empty()
    } else if cls[n - 1].rhs == Some(p) && cls[n - 1].lhs_preds@.len() == 0 {
        facts_below(cls, p, n - 1).push((n - 1) as usize)
    } else {
        facts_below(cls, p, n - 1)
    }
}

/// Clauses for `p` among the first `n` whose left-hand side is non-empty
/// and safe, ascending.
pub open spec fn usable_below(cls: Seq<Clause>, p: usize, safe: Set<usize>, n: int) -> Seq<usize>
    decreases n,
{
    if n <= 0 {
        Seq::empty()
    } else if cls[n - 1].rhs == Some(p) && cls[n - 1].lhs_preds@.len() > 0 && lhs_safe(cls[n - 1], safe) {
        usable_below(cls, p, safe, n - 1).push((n - 1) as usize)
    } else {
        usable_below(cls, p, safe, n - 1)
    }
}

/// Clauses that may witness a sample of `p`: bare facts first, then usable
/// clauses.
pub open spec fn candidates(inst: Instance, p: usize, safe: Set<usize>) -> Seq<usize> {
    let n = inst.clauses@.len() as int;
    facts_below(inst.clauses@, p, n) + usable_below(inst.clauses@, p, safe, n)
}

/// The bare facts of `original` for `pred`, and its clauses for `pred`
/// whose left-hand predicates are all safe.
pub fn clauses_for(original: &Instance, safe: &Vec<bool>, pred: usize) -> (r: (Vec<usize>, Vec<usize>))
    ensures
        r.0@ == facts_below(original.clauses@, pred, original.clauses@.len() as int),
        r.1@ == usable_below(original.clauses@, pred, set_of(safe@), original.clauses@.len() as int),
{
    let mut pos: Vec<usize> = Vec::new();
    let mut others: Vec<usize> = Vec::new();
    let mut i: usize = 0;
    while i < original.clauses.len()
        invariant
            i <= original.clauses@.len(),
            pos@ == facts_below(original.clauses@, pred, i as int),
            others@ == usable_below(original.clauses@, pred, set_of(safe@), i as int),
        decreases original.clauses@.len() - i,
    {
        let c = &original.clauses[i];
        if c.rhs == Some(pred) {
            if c.lhs_preds.len() == 0 {
                pos.push(i);
            } else if refs_safe(&c.lhs_preds, safe) {
                others.push(i);
            }
        }
        i += 1;
    }
    (pos, others)
}

/// The applications among `apps` whose predicate is in `pos`.
pub open spec fn positive_apps(apps: Seq<Sample>, pos: Set<usize>) -> Set<SampleV> {
    sample_set(apps).filter(|x: SampleV| pos.contains(x.0))
}

/// What the caller does next for a reconstruction.
#[derive(Debug)]
pub enum ReconStep {
    /// Ask the oracle whether `clause` of the original instance can derive
    /// `pred` applied to `args`.
    Query { pred: usize, args: Vec<Val>, clause: usize },
    /// All samples are reconstructed; these are the positive samples found.
    Done(Vec<Sample>),
}

/// The sample being reconstructed, its candidate clauses, and the next one
/// to try.
struct Current {
    sample: Sample,
    clauses: Vec<usize>,
    next: usize,
}

/// Reconstructs samples one at a time, trying their candidate clauses in
/// order until the oracle witnesses one.
pub struct Reconstr {
    safe_preds: Vec<bool>,
    pos_preds: Vec<bool>,
    to_do: Vec<Sample>,
    samples: Vec<Sample>,
    current: Option<Current>,
}

impl Reconstr {
    /// Safe predicates of the working instance.
    pub closed spec fn safe(&self) -> Set<usize> {
        set_of(self.safe_preds@)
    }

    /// Positive predicates of the working instance.
    pub closed spec fn positive(&self) -> Set<usize> {
        set_of(self.pos_preds@)
    }

    /// Samples still waiting, the next one last.
    pub closed spec fn to_do(&self) -> Seq<SampleV> {
        views(self.to_do@)
    }

    /// Positive samples found so far.
    pub closed spec fn found(&self) -> Set<SampleV> {
        sample_set(self.samples@)
    }

    /// The sample under way, its candidate clauses and how many were tried.
    pub closed spec fn current(&self) -> Option<(SampleV, Seq<usize>, int)> {
        match self.current {
            Some(c) => Some((c.sample@, c.clauses@, c.next as int)),
            None => None,
        }
    }

    /// Internal consistency.
    pub closed spec fn wf(&self) -> bool {
        &&& views(self.samples@).no_duplicates()
        &&& sorted(self.samples@)
        &&& self.current matches Some(c) ==> c.next <= c.clauses@.len()
    }

    /// A reconstruction of `to_do` over the working instance `instance`.
    pub fn new(instance: &Instance, to_do: Vec<Sample>) -> (r: Self)
        ensures
            r.wf(),
            is_least_safe(*instance, r.safe()),
            has_safe_ranking(*instance, r.safe()),
            r.positive() == positive_preds(*instance),
            r.to_do() == views(to_do@),
            r.found() == Set::<SampleV>::empty(),
            r.current().is_none(),
    {
        let (safe_preds, pos_preds) = safe_fixpoint(instance);
        let r = Reconstr { safe_preds, pos_preds, to_do, samples: Vec::new(), current: None };
        assert(r.found() =~= Set::<SampleV>::empty());
        r
    }

    /// Whether predicate definitions must be given to the oracle before the
    /// first query: some predicate is safe.
    pub fn needs_definitions(&self) -> (r: bool)
        ensures
            r == (self.safe() != Set::<usize>::empty()),
    {
        let mut i: usize = 0;
        while i < self.safe_preds.len()
            invariant
                i <= self.safe_preds@.len(),
                forall|k: int| 0 <= k < i ==> !(#[trigger] self.safe_preds@[k]),
            decreases self.safe_preds@.len() - i,
        {
            if self.safe_preds[i] {
                assert(self.safe().contains(i));
                return true;
            }
            i += 1;
        }
        assert(self.safe() =~= Set::<usize>::empty());
        false
    }

    /// The next query for the oracle, or the result once nothing is left.
    ///
    /// A new sample is taken from the end of the waiting list when none is
    /// under way. Fails when the sample under way has no candidate left, or
    /// when a candidate clause has no right-hand side.
    pub fn next_query(&mut self, original: &Instance) -> (r: Result<ReconStep, ProofError>)
        requires
            old(self).wf(),
        ensures
            final(self).wf(),
            final(self).safe() == old(self).safe(),
            final(self).positive() == old(self).positive(),
            final(self).found() == old(self).found(),
            ({
                let (cur, rest) = match old(self).current() {
                    Some(c) => (c, old(self).to_do()),
                    None => (
                        (
                            old(self).to_do().last(),
                            candidates(*original, old(self).to_do().last().0, old(self).safe()),
                            0int,
                        ),
                        old(self).to_do().drop_last(),
                    ),
                };
                if old(self).current().is_none() && old(self).to_do().len() == 0 {
                    &&& r matches Ok(ReconStep::Done(v))
                    &&& sample_set(v@) == old(self).found()
                    &&& sorted(v@)
                    &&& final(self).current().is_none()
                    &&& final(self).to_do().len() == 0
                } else if cur.2 >= cur.1.len() {
                    r == Err::<ReconStep, ProofError>(ProofError::UnreconstructableSample)
                } else if cur.1[cur.2] >= original.clauses@.len()
                    || original.clauses@[cur.1[cur.2] as int].rhs.is_none() {
                    r == Err::<ReconStep, ProofError>(ProofError::IllegalClause(cur.1[cur.2]))
                } else {
                    &&& r matches Ok(ReconStep::Query { pred, args, clause })
                    &&& (pred, args@) == cur.0
                    &&& clause == cur.1[cur.2]
                    &&& final(self).current() == Some((cur.0, cur.1, cur.2 + 1))
                    &&& final(self).to_do() == rest
                }
            }),
    {
        if self.current.is_none() {
            match self.to_do.pop() {
                None => {
                    return Ok(ReconStep::Done(copy_samples(&self.samples)));
                },
                Some(s) => {
                    let (pos, others) = clauses_for(original, &self.safe_preds, s.pred);
                    let mut clauses = pos;
                    let mut o = others;
                    clauses.append(&mut o);
                    self.current = Some(Current { sample: s, clauses, next: 0 });
                },
            }
        }
        let mut slot: Option<Current> = None;
        std::mem::swap(&mut slot, &mut self.current);
        match slot {
            Some(c) => {
                if c.next >= c.clauses.len() {
                    self.current = Some(c);
                    return Err(ProofError::UnreconstructableSample);
                }
                let clause = c.clauses[c.next];
                if clause >= original.clauses.len() || original.clauses[clause].rhs.is_none() {
                    self.current = Some(c);
                    return Err(ProofError::IllegalClause(clause));
                }
                let pred = c.sample.pred;
                let args = copy_vals(&c.sample.args);
                self.current = Some(Current { sample: c.sample, clauses: c.clauses, next: c.next + 1 });
                Ok(ReconStep::Query { pred, args, clause })
            },
            None => Err(ProofError::UnreconstructableSample),
        }
    }

    /// Records the oracle's answer to the last query.
    ///
    /// `None`: the clause cannot derive the sample, and the next candidate
    /// will be tried. `Some(apps)`: the clause derives it, `apps` being its
    /// left-hand applications evaluated in the oracle's model; those of
    /// positive predicates join the result, and the sample is done.
    pub fn on_witness(&mut self, witness: Option<Vec<Sample>>)
        requires
            old(self).wf(),
        ensures
            final(self).wf(),
            final(self).safe() == old(self).safe(),
            final(self).positive() == old(self).positive(),
            final(self).to_do() == old(self).to_do(),
            witness is None ==> final(self).current() == old(self).current() && final(self).found() == old(self).found(),
            witness matches Some(apps) ==> {
                &&& final(self).current().is_none()
                &&& final(self).found() == old(self).found().union(positive_apps(apps@, old(self).positive()))
            },
    {
        match witness {
            None => {},
            Some(apps) => {
                let ghost start = self.found();
                let mut i: usize = 0;
                while i < apps.len()
                    invariant
                        i <= apps@.len(),
                        self.safe_preds == old(self).safe_preds,
                        self.pos_preds == old(self).pos_preds,
                        self.to_do == old(self).to_do,
                        views(self.samples@).no_duplicates(),
                        sorted(self.samples@),
                        self.found() == start.union(positive_apps(apps@.subrange(0, i as int), self.positive())),
                    decreases apps@.len() - i,
                {
                    let a = &apps[i];
                    let ghost before = self.found();
                    let keep = a.pred < self.pos_preds.len() && self.pos_preds[a.pred];
                    if keep {
                        insert_sample(&mut self.samples, a);
                    }
                    proof {
                        let pre = apps@.subrange(0, i as int);
                        let nxt = apps@.subrange(0, i + 1);
                        assert(views(nxt) =~= views(pre).push(a@));
                        assert forall|x: SampleV| #[trigger] positive_apps(nxt, self.positive()).contains(x) <==>
                            positive_apps(pre, self.positive()).contains(x) || (x == a@ && keep) by {
                            if sample_set(nxt).contains(x) {
                                let k = choose|k: int| 0 <= k < views(nxt).len() && views(nxt)[k] == x;
                                if k < pre.len() {
                                    assert(views(pre)[k] == x);
                                }
                            }
                            if sample_set(pre).contains(x) {
                                let k = choose|k: int| 0 <= k < views(pre).len() && views(pre)[k] == x;
                                assert(views(nxt)[k] == x);
                            }
                            if x == a@ {
                                assert(views(nxt)[i as int] == x);
                            }
                        }
                        assert(self.found() =~= start.union(positive_apps(nxt, self.positive())));
                    }
                    i += 1;
                }
                assert(apps@.subrange(0, apps@.len() as int) =~= apps@);
                self.current = None;
            },
        }
    }
}

} // verus!
