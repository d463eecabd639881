//! Dependencies between positive samples, and their entry points.
use vstd::prelude::*;
use crate::instance::{Instance, PredInfo, Typ, Val};
use crate::sample::{
    Sample, SampleV, views, sample_set, sorted, sample_lt, find_sample, insert_sample, sorted_position,
    lemma_sorted_distinct,
};

verus! {

/// Errors of entry-point tracking and reconstruction.
#[derive(Clone, Copy, Debug, PartialEq, Eq, Structural)]
pub enum ProofError {
    /// A sample that is neither real nor registered.
    UnknownSample,
    /// No clause could witness a sample.
    UnreconstructableSample,
    /// A clause without right-hand side was used to witness a sample.
    IllegalClause(usize),
}

/// What a sample rests on: itself when real, else its registered
/// dependencies, else nothing known.
pub open spec fn entry_of(
    reals: Set<SampleV>,
    deps: Map<SampleV, Set<SampleV>>,
    s: SampleV,
) -> Option<Set<SampleV>> {
    if reals.contains(s) {
        Some(set![s])
    } else if deps.dom().contains(s) {
        Some(deps[s])
    } else {
        None
    }
}

/// A copy of a vector of samples.
pub fn copy_samples(v: &Vec<Sample>) -> (r: Vec<Sample>)
    ensures
        views(r@) == views(v@),
        sorted(v@) ==> sorted(r@),
{
    let mut out: Vec<Sample> = Vec::new();
    let mut i: usize = 0;
    while i < v.len()
        invariant
            i <= v@.len(),
            out@.len() == i,
            forall|k: int| 0 <= k < i ==> (#[trigger] out@[k])@ == v@[k]@,
        decreases v@.len() - i,
    {
        out.push(v[i].copy());
        i += 1;
    }
    assert(views(out@) =~= views(v@));
    out
}

/// A vector of one sample.
fn single(s: &Sample) -> (r: Vec<Sample>)
    ensures
        sorted(r@),
        views(r@).no_duplicates(),
        sample_set(r@) == set![s@],
{
    let mut v: Vec<Sample> = Vec::new();
    v.push(s.copy());
    proof {
        assert(views(v@) =~= seq![s@]);
        assert forall|x: SampleV| sample_set(v@).contains(x) <==> set![s@].contains(x) by {
            if x == s@ {
                assert(views(v@)[0] == x);
            }
        }
        assert(sample_set(v@) =~= set![s@]);
    }
    v
}

/// Real positive samples, and the real samples that other samples depend on.
pub struct EntryPoints {
    real_pos_samples: Vec<Sample>,
    keys: Vec<Sample>,
    sets: Vec<Vec<Sample>>,
}

impl EntryPoints {
    /// The real positive samples.
    pub closed spec fn real_samples(&self) -> Set<SampleV> {
        sample_set(self.real_pos_samples@)
    }

    /// Position of key `s`.
    closed spec fn key_at(&self, s: SampleV) -> int {
        choose|i: int| 0 <= i < self.keys@.len() && self.keys@[i]@ == s
    }

    /// The registered dependency sets.
    pub closed spec fn deps(&self) -> Map<SampleV, Set<SampleV>> {
        Map::new(
            |s: SampleV| views(self.keys@).contains(s),
            |s: SampleV| sample_set(self.sets@[self.key_at(s)]@),
        )
    }

    /// Entry points of `s`, if known.
    pub open spec fn entry(&self, s: SampleV) -> Option<Set<SampleV>> {
        entry_of(self.real_samples(), self.deps(), s)
    }

    /// Samples are stored once; each key has a set.
    pub closed spec fn wf(&self) -> bool {
        &&& sorted(self.real_pos_samples@)
        &&& views(self.real_pos_samples@).no_duplicates()
        &&& views(self.keys@).no_duplicates()
        &&& sorted(self.keys@)
        &&& self.keys@.len() == self.sets@.len()
        &&& forall|i: int| 0 <= i < self.sets@.len() ==> views((#[trigger] self.sets@[i])@).no_duplicates()
        &&& forall|i: int| 0 <= i < self.sets@.len() ==> sorted(#[trigger] self.sets@[i]@)
    }

    /// No sample known.
    pub fn new() -> (r: Self)
        ensures
            r.wf(),
            r.real_samples() == Set::<SampleV>::empty(),
            r.deps() == Map::<SampleV, Set<SampleV>>::empty(),
    {
        let r = EntryPoints { real_pos_samples: Vec::new(), keys: Vec::new(), sets: Vec::new() };
        assert(r.real_samples() =~= Set::<SampleV>::empty());
        assert(r.deps() =~= Map::<SampleV, Set<SampleV>>::empty());
        r
    }

    /// The real positive samples, each once.
    pub fn real_pos_samples(&self) -> (r: Vec<Sample>)
        ensures
            sample_set(r@) == self.real_samples(),
    {
        copy_samples(&self.real_pos_samples)
    }

    /// The registered samples with their dependency sets.
    pub fn dependencies(&self) -> (r: Vec<(Sample, Vec<Sample>)>)
        requires
            self.wf(),
        ensures
            r@.len() == self.deps().dom().len(),
            forall|i: int, j: int| 0 <= i < j < r@.len() ==> (#[trigger] r@[i]).0@ != (#[trigger] r@[j]).0@,
            forall|i: int| 0 <= i < r@.len() ==> {
                &&& self.deps().dom().contains((#[trigger] r@[i]).0@)
                &&& self.deps()[r@[i].0@] == sample_set(r@[i].1@)
            },
    {
        let mut out: Vec<(Sample, Vec<Sample>)> = Vec::new();
        let mut i: usize = 0;
        while i < self.keys.len()
            invariant
                self.wf(),
                i <= self.keys@.len(),
                out@.len() == i,
                forall|k: int| 0 <= k < i ==> (#[trigger] out@[k]).0@ == self.keys@[k]@ && views(out@[k].1@) == views(self.sets@[k]@),
            decreases self.keys@.len() - i,
        {
            out.push((self.keys[i].copy(), copy_samples(&self.sets[i])));
            i += 1;
        }
        proof {
            assert forall|k: int| 0 <= k < out@.len() implies {
                &&& self.deps().dom().contains((#[trigger] out@[k]).0@)
                &&& self.deps()[out@[k].0@] == sample_set(out@[k].1@)
            } by {
                assert(views(self.keys@)[k] == out@[k].0@);
                let j = self.key_at(out@[k].0@);
                assert(views(self.keys@)[j] == out@[k].0@);
            }
            assert forall|a: int, b: int| 0 <= a < b < out@.len() implies (#[trigger] out@[a]).0@ != (#[trigger] out@[b]).0@ by {
                assert(views(self.keys@)[a] == out@[a].0@);
                assert(views(self.keys@)[b] == out@[b].0@);
            }
            assert(self.deps().dom() =~= views(self.keys@).to_set());
            views(self.keys@).unique_seq_to_set();
        }
        out
    }

    /// Registers a real positive sample.
    pub fn register(&mut self, sample: Sample)
        requires
            old(self).wf(),
        ensures
            final(self).wf(),
            final(self).real_samples() == old(self).real_samples().insert(sample@),
            final(self).deps() == old(self).deps(),
    {
        insert_sample(&mut self.real_pos_samples, &sample);
    }

    /// Position of key `s`, if registered.
    fn find_key(&self, s: &Sample) -> (r: Result<usize, usize>)
        requires
            self.wf(),
        ensures
            match r {
                Ok(i) => i < self.keys@.len() && self.key_at(s@) == i && self.deps().dom().contains(s@),
                Err(j) => {
                    &&& !self.deps().dom().contains(s@)
                    &&& j <= self.keys@.len()
                    &&& forall|k: int| 0 <= k < j ==> sample_lt((#[trigger] self.keys@[k])@, s@)
                    &&& forall|k: int| j <= k < self.keys@.len() ==> sample_lt(s@, (#[trigger] self.keys@[k])@)
                },
            },
    {
        let r = sorted_position(&self.keys, s);
        proof {
            match r {
                Ok(i) => {
                    assert(views(self.keys@)[i as int] == s@);
                    let k = self.key_at(s@);
                    assert(views(self.keys@)[k] == s@);
                },
                Err(_) => {},
            }
        }
        r
    }

    /// Registers that `sample` rests on `dep`: the entry points of `dep`
    /// become the dependency set of `sample`, replacing any earlier one.
    /// Fails, changing nothing, when `dep` is neither real nor registered.
    pub fn register_dep(&mut self, sample: Sample, dep: &Sample) -> (r: Result<(), ProofError>)
        requires
            old(self).wf(),
        ensures
            final(self).wf(),
            r is Ok <==> old(self).entry(dep@).is_some(),
            r is Err ==> r == Err::<(), ProofError>(ProofError::UnknownSample),
            final(self).real_samples() == old(self).real_samples(),
            r is Ok ==> final(self).deps() == old(self).deps().insert(sample@, old(self).entry(dep@).unwrap()),
            r is Err ==> final(self).deps() == old(self).deps(),
    {
        let just: Vec<Sample> = match find_sample(&self.real_pos_samples, dep) {
            Some(i) => {
                assert(views(self.real_pos_samples@)[i as int] == dep@);
                assert(self.real_samples().contains(dep@));
                single(dep)
            },
            None => {
                match self.find_key(dep) {
                    Ok(i) => {
                        assert(self.deps()[dep@] == sample_set(self.sets@[i as int]@));
                        copy_samples(&self.sets[i])
                    },
                    Err(_) => {
                        return Err(ProofError::UnknownSample);
                    },
                }
            },
        };
        assert(self.entry(dep@).is_some());
        assert(sample_set(just@) == self.entry(dep@).unwrap());
        assert(views(just@).no_duplicates());
        assert(sorted(just@));
        let ghost old_self = *self;
        let ghost want = old_self.deps().insert(sample@, old_self.entry(dep@).unwrap());
        match self.find_key(&sample) {
            Ok(i) => {
                self.sets.set(i, just);
                proof {
                    assert forall|s: SampleV| #[trigger] self.deps().dom().contains(s) implies self.key_at(s) == old_self.key_at(s) by {}
                    assert(self.deps() =~= want);
                }
            },
            Err(j) => {
                self.keys.insert(j, sample);
                self.sets.insert(j, just);
                proof {
                    let ok = old_self.keys@;
                    let os = old_self.sets@;
                    let sv = self.keys@[j as int]@;
                    ok.insert_ensures(j as int, self.keys@[j as int]);
                    os.insert_ensures(j as int, just);
                    assert(sv == sample@);
                    assert(sorted(self.keys@)) by {
                        assert forall|a: int, b: int| 0 <= a < b < self.keys@.len() implies sample_lt(#[trigger] self.keys@[a]@, #[trigger] self.keys@[b]@) by {
                            if b == j {
                                assert(self.keys@[a] == ok[a]);
                            } else if a == j {
                                assert(self.keys@[b] == ok[b - 1]);
                            } else if a < j && b < j {
                                assert(self.keys@[a] == ok[a] && self.keys@[b] == ok[b]);
                            } else if a < j {
                                assert(self.keys@[a] == ok[a] && self.keys@[b] == ok[b - 1]);
                            } else {
                                assert(self.keys@[a] == ok[a - 1] && self.keys@[b] == ok[b - 1]);
                            }
                        }
                    }
                    lemma_sorted_distinct(self.keys@);
                    assert forall|i: int| 0 <= i < self.sets@.len() implies {
                        &&& views((#[trigger] self.sets@[i])@).no_duplicates()
                        &&& sorted(self.sets@[i]@)
                    } by {
                        if i < j {
                            assert(self.sets@[i] == os[i]);
                        } else if i > j {
                            assert(self.sets@[i] == os[i - 1]);
                        }
                    }
                    // Old keys keep their sets, at a shifted position past `j`.
                    assert forall|s: SampleV| #[trigger] old_self.deps().dom().contains(s) implies {
                        &&& self.deps().dom().contains(s)
                        &&& self.deps()[s] == old_self.deps()[s]
                    } by {
                        let k = old_self.key_at(s);
                        assert(views(ok)[k] == s);
                        let nk = if k < j { k } else { k + 1 };
                        assert(self.keys@[nk] == ok[k]);
                        assert(views(self.keys@)[nk] == s);
                        let k2 = self.key_at(s);
                        assert(views(self.keys@)[k2] == s);
                        assert(k2 == nk);
                        assert(self.sets@[nk] == os[k]);
                    }
                    assert(views(self.keys@)[j as int] == sample@);
                    assert(self.key_at(sample@) == j) by {
                        let k2 = self.key_at(sample@);
                        assert(views(self.keys@)[k2] == sample@);
                    }
                    assert forall|s: SampleV| self.deps().dom().contains(s) <==> want.dom().contains(s) by {
                        if self.deps().dom().contains(s) {
                            let k = choose|k: int| 0 <= k < views(self.keys@).len() && views(self.keys@)[k] == s;
                            if k < j {
                                assert(views(ok)[k] == s);
                            } else if k > j {
                                assert(views(ok)[k - 1] == s);
                            }
                        }
                    }
                    assert forall|s: SampleV| #[trigger] want.dom().contains(s) implies self.deps()[s] == want[s] by {
                        if s == sample@ {
                            assert(self.sets@[j as int] == just);
                        }
                    }
                    assert(self.deps().dom() =~= want.dom());
                    assert(self.deps() =~= want);
                }
            },
        }
        Ok(())
    }

    /// The entry points of `sample`: itself when real, else its dependency
    /// set; fails when it is neither.
    pub fn entry_points_of(&self, sample: &Sample) -> (r: Result<Entry, ProofError>)
        requires
            self.wf(),
        ensures
            match r {
                Ok(e) => self.entry(sample@) == Some(e.view()) && e.wf(),
                Err(err) => self.entry(sample@).is_none() && err == ProofError::UnknownSample,
            },
    {
        match find_sample(&self.real_pos_samples, sample) {
            Some(i) => {
                assert(views(self.real_pos_samples@)[i as int] == sample@);
                assert(self.real_samples().contains(sample@));
                Ok(Entry::new(single(sample)))
            },
            None => {
                match self.find_key(sample) {
                    Ok(i) => {
                        assert(self.deps()[sample@] == sample_set(self.sets@[i as int]@));
                        Ok(Entry::new(copy_samples(&self.sets[i])))
                    },
                    Err(_) => Err(ProofError::UnknownSample),
                }
            },
        }
    }
}

/// Entry points of a sample stay the same while only other samples get
/// dependencies registered.
pub proof fn lemma_entry_points_stable(before: EntryPoints, after: EntryPoints, t: SampleV, s: SampleV)
    requires
        after.real_samples() == before.real_samples(),
        after.deps() == before.deps().insert(t, after.deps()[t]),
        s != t,
    ensures
        after.entry(s) == before.entry(s),
{
    if before.deps().dom().contains(s) {
        assert(after.deps().dom().contains(s));
    }
}

/// Entry points of a sample stay the same when another sample is
/// registered as real.
pub proof fn lemma_entry_points_stable_register(before: EntryPoints, after: EntryPoints, x: SampleV, s: SampleV)
    requires
        after.real_samples() == before.real_samples().insert(x),
        after.deps() == before.deps(),
        s != x,
    ensures
        after.entry(s) == before.entry(s),
{
}

/// Samples justifying some conclusion.
pub struct Entry {
    pub samples: Vec<Sample>,
}

impl View for Entry {
    type V = Set<SampleV>;

    open spec fn view(&self) -> Set<SampleV> {
        sample_set(self.samples@)
    }
}

/// Values of the original signature: each reduced argument at its original
/// position, `Unknown` of the original type elsewhere.
pub open spec fn rewrite_args(sig: Seq<Typ>, map: Seq<usize>, args: Seq<Val>) -> Seq<Val> {
    Seq::new(
        sig.len(),
        |k: int|
            if map.contains(k as usize) {
                args[map.index_of(k as usize)]
            } else {
                Val::Unknown(sig[k])
            },
    )
}

/// The values of `orig` at the positions that `map` keeps.
pub open spec fn restrict_args(map: Seq<usize>, orig: Seq<Val>) -> Seq<Val> {
    Seq::new(map.len(), |j: int| orig[map[j] as int])
}

/// The position map of `info` sends distinct positions to distinct
/// positions of the original signature.
pub open spec fn sig_ok(info: PredInfo) -> bool {
    &&& info.sig_map@.no_duplicates()
    &&& forall|j: int| 0 <= j < info.sig_map@.len() ==> (#[trigger] info.sig_map@[j]) < info.original_sig@.len()
}

/// Rewriting values to the original signature and restricting them back
/// gives the values unchanged.
pub proof fn lemma_rewrite_round_trip(sig: Seq<Typ>, map: Seq<usize>, args: Seq<Val>)
    requires
        map.no_duplicates(),
        forall|j: int| 0 <= j < map.len() ==> (#[trigger] map[j]) < sig.len(),
        args.len() == map.len(),
    ensures
        restrict_args(map, rewrite_args(sig, map, args)) == args,
{
    let full = rewrite_args(sig, map, args);
    assert forall|j: int| 0 <= j < map.len() implies #[trigger] restrict_args(map, full)[j] == args[j] by {
        let k = map[j];
        assert(map.contains(k));
        let i = map.index_of(k);
        assert(map[i] == k);
    }
    assert(restrict_args(map, full) =~= args);
}

/// Values of `args` moved to the original signature of `info`.
fn rewrite_sample_args(info: &PredInfo, args: &Vec<Val>) -> (r: Vec<Val>)
    requires
        sig_ok(*info),
        args@.len() == info.sig_map@.len(),
    ensures
        r@ == rewrite_args(info.original_sig@, info.sig_map@, args@),
{
    let sig = &info.original_sig;
    let map = &info.sig_map;
    let mut out: Vec<Val> = Vec::new();
    let mut k: usize = 0;
    while k < sig.len()
        invariant
            k <= sig@.len(),
            out@.len() == k,
            forall|m: int| 0 <= m < k ==> out@[m] == Val::Unknown(sig@[m]),
        decreases sig@.len() - k,
    {
        out.push(Val::Unknown(sig[k]));
        k += 1;
    }
    let mut j: usize = 0;
    while j < map.len()
        invariant
            sig_ok(*info),
            *sig == info.original_sig,
            *map == info.sig_map,
            args@.len() == map@.len(),
            j <= map@.len(),
            out@.len() == sig@.len(),
            forall|m: int| 0 <= m < out@.len() ==> (#[trigger] out@[m]) == if exists|i: int| 0 <= i < j && map@[i] == m {
                args@[map@.index_of(m as usize)]
            } else {
                Val::Unknown(sig@[m])
            },
        decreases map@.len() - j,
    {
        let ghost before = out@;
        out.set(map[j], args[j]);
        proof {
            assert(map@.contains(map@[j as int]));
            assert(map@.index_of(map@[j as int]) == j);
            assert forall|m: int| 0 <= m < out@.len() implies (#[trigger] out@[m]) == if exists|i: int| 0 <= i < j + 1 && map@[i] == m {
                args@[map@.index_of(m as usize)]
            } else {
                Val::Unknown(sig@[m])
            } by {
                if m != map@[j as int] {
                    assert(out@[m] == before[m]);
                    if exists|i: int| 0 <= i < j + 1 && map@[i] == m {
                        let i = choose|i: int| 0 <= i < j + 1 && map@[i] == m;
                        assert(i < j);
                    }
                }
            }
        }
        j += 1;
    }
    proof {
        assert forall|m: int| 0 <= m < out@.len() implies (#[trigger] out@[m]) == rewrite_args(sig@, map@, args@)[m] by {
            if map@.contains(m as usize) {
                let i = choose|i: int| 0 <= i < map@.len() && map@[i] == m as usize;
                assert(exists|i: int| 0 <= i < j && map@[i] == m);
            } else {
                if exists|i: int| 0 <= i < j && map@[i] == m {
                    let i = choose|i: int| 0 <= i < j && map@[i] == m;
                    assert(map@.contains(map@[i]));
                }
            }
        }
        assert(out@ =~= rewrite_args(sig@, map@, args@));
    }
    out
}

/// Every sample of `s` can be rewritten along `inst`.
pub open spec fn rewritable(inst: Instance, s: Seq<Sample>) -> bool {
    forall|i: int| 0 <= i < s.len() ==> {
        &&& (#[trigger] s[i]).pred < inst.preds@.len()
        &&& sig_ok(inst.preds@[s[i].pred as int])
        &&& s[i].args@.len() == inst.preds@[s[i].pred as int].sig_map@.len()
    }
}

impl Entry {
    /// An entry of the given samples.
    pub fn new(samples: Vec<Sample>) -> (r: Entry)
        ensures
            r.samples@ == samples@,
    {
        Entry { samples }
    }

    /// Each sample is stored once.
    pub open spec fn wf(&self) -> bool {
        &&& views(self.samples@).no_duplicates()
        &&& sorted(self.samples@)
    }

    /// The samples in terms of the original signatures of `inst`.
    pub fn rewrite(&self, inst: &Instance) -> (r: Vec<Sample>)
        requires
            rewritable(*inst, self.samples@),
        ensures
            r@.len() == self.samples@.len(),
            forall|i: int| 0 <= i < r@.len() ==> (#[trigger] r@[i])@ == (
                self.samples@[i].pred,
                rewrite_args(
                    inst.preds@[self.samples@[i].pred as int].original_sig@,
                    inst.preds@[self.samples@[i].pred as int].sig_map@,
                    self.samples@[i].args@,
                ),
            ),
    {
        let mut out: Vec<Sample> = Vec::new();
        let mut i: usize = 0;
        while i < self.samples.len()
            invariant
                rewritable(*inst, self.samples@),
                i <= self.samples@.len(),
                out@.len() == i,
                forall|m: int| 0 <= m < i ==> (#[trigger] out@[m])@ == (
                    self.samples@[m].pred,
                    rewrite_args(
                        inst.preds@[self.samples@[m].pred as int].original_sig@,
                        inst.preds@[self.samples@[m].pred as int].sig_map@,
                        self.samples@[m].args@,
                    ),
                ),
            decreases self.samples@.len() - i,
        {
            let s = &self.samples[i];
            assert(rewritable(*inst, self.samples@) ==> s.pred < inst.preds@.len());
            let args = rewrite_sample_args(&inst.preds[s.pred], &s.args);
            out.push(Sample::new(s.pred, args));
            i += 1;
        }
        out
    }
}

} // verus!
