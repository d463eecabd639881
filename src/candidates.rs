//! Accumulation of conjunctive candidate definitions across splits.
use vstd::prelude::*;
use crate::instance::Instance;

verus! {

/// A formula fragment of a candidate definition.
///
/// Terms are hash-consed by the term layer, so a term is its unique id.
#[derive(Clone, Copy, Debug, PartialEq, Eq, Structural)]
pub enum Frag {
    /// A fragment that evaluates to this boolean.
    Lit(bool),
    /// Any other fragment.
    Term(u64),
}

/// A partial model: fragments given for predicates, in order.
pub type PartialModel = Vec<(usize, Frag)>;

/// The entry after adding fragment `f` to entry `s`.
///
/// `true` changes nothing; `false` clears the entry first; a fragment is then
/// appended unless it, or `false`, is already there.
pub open spec fn insert_frag(s: Seq<Frag>, f: Frag) -> Seq<Frag> {
    if f == Frag::Lit(true) {
        s
    } else {
        let base = if f == Frag::Lit(false) { Seq::<Frag>::empty() } else { s };
        if base.contains(f) || base.contains(Frag::Lit(false)) {
            base
        } else {
            base.push(f)
        }
    }
}

/// An entry without duplicates, where `false` only ever stands alone.
pub open spec fn frags_ok(s: Seq<Frag>) -> bool {
    &&& s.no_duplicates()
    &&& s.contains(Frag::Lit(false)) ==> s.len() == 1
}

/// Entries after merging one pair of a partial model.
pub open spec fn merge_one(
    m: Seq<Option<Seq<Frag>>>,
    known: Seq<bool>,
    p: (usize, Frag),
) -> Seq<Option<Seq<Frag>>> {
    if known[p.0 as int] {
        m
    } else {
        let cur = match m[p.0 as int] {
            Some(s) => s,
            None => Seq::<Frag>::empty(),
        };
        m.update(p.0 as int, Some(insert_frag(cur, p.1)))
    }
}

/// Entries after merging the pairs of `partial`, first to last.
pub open spec fn merge_all(
    m: Seq<Option<Seq<Frag>>>,
    known: Seq<bool>,
    partial: Seq<(usize, Frag)>,
) -> Seq<Option<Seq<Frag>>>
    decreases partial.len(),
{
    if partial.len() == 0 {
        m
    } else {
        merge_one(merge_all(m, known, partial.drop_last()), known, partial.last())
    }
}

/// Every entry present is clean.
pub open spec fn entries_ok(m: Seq<Option<Seq<Frag>>>) -> bool {
    forall|i: int| 0 <= i < m.len() && (#[trigger] m[i]).is_some() ==> frags_ok(m[i].unwrap())
}

/// The predicates of `partial` are below `n`.
pub open spec fn preds_below(partial: Seq<(usize, Frag)>, n: nat) -> bool {
    forall|i: int| 0 <= i < partial.len() ==> (#[trigger] partial[i]).0 < n
}

/// The known-ness of each predicate of an instance.
pub open spec fn known_of(inst: Instance) -> Seq<bool> {
    Seq::new(inst.preds@.len(), |i: int| inst.preds@[i].is_known())
}

/// Adding a fragment keeps an entry clean.
pub proof fn lemma_insert_frag_ok(s: Seq<Frag>, f: Frag)
    requires
        frags_ok(s),
    ensures
        frags_ok(insert_frag(s, f)),
{
    if f != Frag::Lit(true) {
        let base = if f == Frag::Lit(false) { Seq::<Frag>::empty() } else { s };
        if !(base.contains(f) || base.contains(Frag::Lit(false))) {
            let r = base.push(f);
            assert forall|i: int, j: int| 0 <= i < r.len() && 0 <= j < r.len() && i != j
                implies r[i] != r[j] by {
                if i == r.len() - 1 {
                    assert(base.contains(r[j]));
                } else if j == r.len() - 1 {
                    assert(base.contains(r[i]));
                }
            }
            if r.contains(Frag::Lit(false)) {
                let k = choose|k: int| 0 <= k < r.len() && r[k] == Frag::Lit(false);
                if k < base.len() {
                    assert(base.contains(Frag::Lit(false)));
                }
                assert(f == Frag::Lit(false));
                assert(base.len() == 0);
            }
        }
    }
}

/// Merging any sequence of partial models keeps every entry free of
/// duplicate fragments, and keeps a `false` fragment alone in its entry.
pub proof fn lemma_merge_keeps_entries_clean(
    m: Seq<Option<Seq<Frag>>>,
    known: Seq<bool>,
    partial: Seq<(usize, Frag)>,
)
    requires
        entries_ok(m),
        known.len() == m.len(),
        preds_below(partial, m.len()),
    ensures
        entries_ok(merge_all(m, known, partial)),
        merge_all(m, known, partial).len() == m.len(),
    decreases partial.len(),
{
    if partial.len() > 0 {
        let pre = partial.drop_last();
        assert(preds_below(pre, m.len())) by {
            assert forall|i: int| 0 <= i < pre.len() implies (#[trigger] pre[i]).0 < m.len() by {
                assert(pre[i] == partial[i]);
            }
        }
        lemma_merge_keeps_entries_clean(m, known, pre);
        let mid = merge_all(m, known, pre);
        let p = partial.last();
        assert(partial[partial.len() - 1] == p);
        if !known[p.0 as int] {
            let cur = match mid[p.0 as int] {
                Some(s) => s,
                None => Seq::<Frag>::empty(),
            };
            lemma_insert_frag_ok(cur, p.1);
        }
    }
}

/// Candidate definitions, one entry per predicate of the top-level instance.
///
/// An entry is `None` until some fragment is merged for its predicate.
pub struct ConjCandidates {
    entries: Vec<Option<Vec<Frag>>>,
}

/// Adds fragment `f` to entry `conj`.
fn insert_fragment(conj: &mut Vec<Frag>, f: Frag)
    ensures
        final(conj)@ == insert_frag(old(conj)@, f),
{
    if f == Frag::Lit(true) {
        return;
    }
    if f == Frag::Lit(false) {
        conj.clear();
    }
    let mut found = false;
    let mut i: usize = 0;
    while i < conj.len()
        invariant
            i <= conj@.len(),
            found == exists|j: int| 0 <= j < i && (conj@[j] == f || conj@[j] == Frag::Lit(false)),
        decreases conj@.len() - i,
    {
        if conj[i] == f || conj[i] == Frag::Lit(false) {
            found = true;
        }
        i += 1;
    }
    proof {
        if conj@.contains(f) {
            let j = choose|j: int| 0 <= j < conj@.len() && conj@[j] == f;
            assert(found);
        }
        if conj@.contains(Frag::Lit(false)) {
            let j = choose|j: int| 0 <= j < conj@.len() && conj@[j] == Frag::Lit(false);
            assert(found);
        }
        if found {
            let j = choose|j: int| 0 <= j < i && (conj@[j] == f || conj@[j] == Frag::Lit(false));
            assert(conj@.contains(conj@[j]));
        }
    }
    if !found {
        conj.push(f);
    }
}

impl View for ConjCandidates {
    type V = Seq<Option<Seq<Frag>>>;

    closed spec fn view(&self) -> Seq<Option<Seq<Frag>>> {
        Seq::new(
            self.entries@.len(),
            |i: int|
                match self.entries@[i] {
                    Some(v) => Some(v@),
                    None => None,
                },
        )
    }
}

impl ConjCandidates {
    /// No entry, for an instance of `pred_count` predicates.
    pub fn new(pred_count: usize) -> (r: Self)
        ensures
            r@ == Seq::new(pred_count as nat, |i: int| None::<Seq<Frag>>),
    {
        let mut entries: Vec<Option<Vec<Frag>>> = Vec::new();
        let mut i: usize = 0;
        while i < pred_count
            invariant
                i <= pred_count,
                entries@.len() == i,
                forall|j: int| 0 <= j < i ==> (#[trigger] entries@[j]).is_none(),
            decreases pred_count - i,
        {
            entries.push(None);
            i += 1;
        }
        let r = ConjCandidates { entries };
        assert(r@ =~= Seq::new(pred_count as nat, |i: int| None::<Seq<Frag>>));
        r
    }

    /// Number of predicates covered.
    pub fn len(&self) -> (r: usize)
        ensures
            r == self@.len(),
    {
        self.entries.len()
    }

    /// The fragments of predicate `p`, if any were merged.
    pub fn get(&self, p: usize) -> (r: Option<Vec<Frag>>)
        requires
            p < self@.len(),
        ensures
            match r {
                Some(v) => self@[p as int] == Some(v@),
                None => self@[p as int].is_none(),
            },
    {
        match &self.entries[p] {
            Some(v) => {
                let mut out: Vec<Frag> = Vec::new();
                let mut i: usize = 0;
                while i < v.len()
                    invariant
                        i <= v@.len(),
                        out@ == v@.subrange(0, i as int),
                    decreases v@.len() - i,
                {
                    out.push(v[i]);
                    i += 1;
                    assert(out@ =~= v@.subrange(0, i as int));
                }
                assert(out@ =~= v@);
                Some(out)
            },
            None => None,
        }
    }

    /// Merges the pair `(p, f)` unless `p` is known.
    fn merge_pair(&mut self, known: &Vec<bool>, p: usize, f: Frag)
        requires
            p < old(self)@.len(),
            known@.len() == old(self)@.len(),
        ensures
            final(self)@ == merge_one(old(self)@, known@, (p, f)),
    {
        if known[p] {
            return;
        }
        let mut cur: Vec<Frag> = Vec::new();
        let mut slot: Option<Vec<Frag>> = None;
        let ghost before = self@;
        std::mem::swap(&mut slot, &mut self.entries[p]);
        proof {
            assert(self.entries@.len() == before.len());
        }
        match slot {
            Some(v) => {
                cur = v;
            },
            None => {},
        }
        insert_fragment(&mut cur, f);
        self.entries.set(p, Some(cur));
        assert(self@ =~= merge_one(before, known@, (p, f)));
    }

    /// Merges a partial model, pair by pair, skipping predicates that are
    /// known at the top level.
    pub fn merge(&mut self, known: &Vec<bool>, partial: &PartialModel)
        requires
            known@.len() == old(self)@.len(),
            preds_below(partial@, old(self)@.len()),
        ensures
            final(self)@ == merge_all(old(self)@, known@, partial@),
            entries_ok(old(self)@) ==> entries_ok(final(self)@),
    {
        proof {
            if entries_ok(self@) {
                lemma_merge_keeps_entries_clean(self@, known@, partial@);
            }
        }
        let mut i: usize = 0;
        while i < partial.len()
            invariant
                i <= partial@.len(),
                known@.len() == old(self)@.len(),
                preds_below(partial@, old(self)@.len()),
                self@ == merge_all(old(self)@, known@, partial@.subrange(0, i as int)),
                self@.len() == old(self)@.len(),
            decreases partial@.len() - i,
        {
            let (p, f) = partial[i];
            assert(partial@[i as int].0 < old(self)@.len());
            self.merge_pair(known, p, f);
            proof {
                let pre = partial@.subrange(0, i + 1);
                assert(pre.drop_last() =~= partial@.subrange(0, i as int));
                assert(pre.last() == (p, f));
            }
            i += 1;
        }
        assert(partial@.subrange(0, partial@.len() as int) =~= partial@);
    }
}

} // verus!
