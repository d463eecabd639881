//! Decisions of the split loop: what each preprocessing or learning outcome
//! does to the accumulated model, and whether the loop goes on.
use vstd::prelude::*;
use crate::instance::Instance;
use crate::candidates::{
    ConjCandidates, Frag, PartialModel, merge_all, entries_ok, preds_below, known_of,
    lemma_merge_keeps_entries_clean,
};
use crate::split::{SplitConf, Splitter, SplitStep, sizes_ok, neg_set, is_split_order};

verus! {

/// Outcome of preprocessing a step.
#[derive(Debug)]
pub enum PreprocOutcome {
    /// A reduced instance to solve.
    Reduced,
    /// Preprocessing solved the step with this partial model.
    Trivial(PartialModel),
    /// Preprocessing found the step unsatisfiable.
    Unsat,
}

/// Outcome of the learner on a reduced instance.
#[derive(Debug)]
pub enum LearnOutcome {
    /// A model of the reduced instance, as definitions of the instance.
    Sat(PartialModel),
    /// The reduced instance is unsatisfiable.
    Unsat,
}

/// What the loop does next.
#[derive(Clone, Copy, Debug, PartialEq, Eq, Structural)]
pub enum SplitFlow {
    /// Go on with the next step of the driver.
    Continue,
    /// Run the learner on the reduced instance, with the current model.
    Learn,
    /// Stop: the instance is unsatisfiable.
    Unsat,
}

/// State of the split loop.
pub struct SplitLoop {
    /// The driver of the steps.
    pub splitter: Splitter,
    /// The candidate definitions merged so far.
    pub model: ConjCandidates,
    /// Which predicates are defined at the top level.
    pub known: Vec<bool>,
    /// Whether models are inferred, or preprocessing alone is run.
    pub infer: bool,
}

impl SplitLoop {
    /// Consistency of the state.
    pub open spec fn wf(&self) -> bool {
        &&& self.splitter.wf()
        &&& self.known@.len() == self.model@.len()
        &&& entries_ok(self.model@)
    }

    /// The loop for instance `inst`.
    pub fn new(inst: &Instance, conf: SplitConf, infer: bool) -> (r: Self)
        requires
            sizes_ok(*inst),
        ensures
            r.wf(),
            r.infer == infer,
            r.known@ == known_of(*inst),
            r.model@ == Seq::new(inst.preds@.len(), |i: int| None::<Seq<Frag>>),
            r.splitter.wf(),
            r.splitter.handled().len() == 0,
            conf.split && neg_set(*inst).len() > 1 ==> {
                &&& r.splitter.is_active()
                &&& is_split_order(*inst, conf.split_sort, r.splitter.pending())
                &&& r.splitter.total() == r.splitter.pending().len()
                &&& r.splitter.negatives() == neg_set(*inst)
            },
            !(conf.split && neg_set(*inst).len() > 1) ==> !r.splitter.is_active() && !r.splitter.fired()
                && r.splitter.total() == 1,
    {
        let splitter = Splitter::new(inst, conf);
        let model = ConjCandidates::new(inst.preds.len());
        let mut known: Vec<bool> = Vec::new();
        let mut i: usize = 0;
        while i < inst.preds.len()
            invariant
                i <= inst.preds@.len(),
                known@ == known_of(*inst).subrange(0, i as int),
            decreases inst.preds@.len() - i,
        {
            known.push(inst.is_known(i));
            i += 1;
            assert(known@ =~= known_of(*inst).subrange(0, i as int));
        }
        assert(known@ =~= known_of(*inst));
        SplitLoop { splitter, model, known, infer }
    }

    /// The next step of the driver.
    pub fn next_step(&mut self) -> (r: SplitStep)
        requires
            old(self).wf(),
        ensures
            final(self).wf(),
            final(self).model@ == old(self).model@,
            final(self).known@ == old(self).known@,
            final(self).infer == old(self).infer,
            final(self).splitter.is_active() == old(self).splitter.is_active(),
            final(self).splitter.total() == old(self).splitter.total(),
            final(self).splitter.negatives() == old(self).splitter.negatives(),
            old(self).splitter.is_active() && old(self).splitter.pending().len() > 0 ==> {
                &&& r matches SplitStep::Isolate { clause, excluded }
                &&& clause == old(self).splitter.pending().last()
                &&& excluded@ == old(self).splitter.handled()
                &&& final(self).splitter.pending() == old(self).splitter.pending().drop_last()
                &&& final(self).splitter.handled() == old(self).splitter.handled().push(clause)
            },
            old(self).splitter.is_active() && old(self).splitter.pending().len() == 0 ==> r is Done
                && final(self).splitter.pending() == old(self).splitter.pending()
                && final(self).splitter.handled() == old(self).splitter.handled(),
            !old(self).splitter.is_active() && !old(self).splitter.fired() ==> r is Whole && final(self).splitter.fired(),
            !old(self).splitter.is_active() && old(self).splitter.fired() ==> r is Done && final(self).splitter.fired(),
    {
        self.splitter.next_instance()
    }

    /// Merges a partial model into the accumulated one.
    fn add_model(&mut self, m: &PartialModel)
        requires
            old(self).wf(),
            preds_below(m@, old(self).model@.len()),
        ensures
            final(self).wf(),
            final(self).model@ == merge_all(old(self).model@, old(self).known@, m@),
            final(self).splitter == old(self).splitter,
            final(self).known == old(self).known,
            final(self).infer == old(self).infer,
    {
        proof {
            lemma_merge_keeps_entries_clean(self.model@, self.known@, m@);
        }
        self.model.merge(&self.known, m);
    }

    /// Handles the outcome of preprocessing: a trivial model is merged and
    /// the loop goes on; unsatisfiability stops it; a reduced instance goes
    /// to the learner when inferring, and is skipped otherwise.
    pub fn on_preproc(&mut self, outcome: PreprocOutcome) -> (r: SplitFlow)
        requires
            old(self).wf(),
            outcome matches PreprocOutcome::Trivial(m) ==> preds_below(m@, old(self).model@.len()),
        ensures
            final(self).wf(),
            final(self).splitter == old(self).splitter,
            final(self).known == old(self).known,
            final(self).infer == old(self).infer,
            match outcome {
                PreprocOutcome::Trivial(m) => r == SplitFlow::Continue
                    && final(self).model@ == merge_all(old(self).model@, old(self).known@, m@),
                PreprocOutcome::Unsat => r == SplitFlow::Unsat && final(self).model@ == old(self).model@,
                PreprocOutcome::Reduced => r == (if old(self).infer { SplitFlow::Learn } else { SplitFlow::Continue })
                    && final(self).model@ == old(self).model@,
            },
    {
        match outcome {
            PreprocOutcome::Trivial(m) => {
                self.add_model(&m);
                SplitFlow::Continue
            },
            PreprocOutcome::Unsat => SplitFlow::Unsat,
            PreprocOutcome::Reduced => {
                if self.infer {
                    SplitFlow::Learn
                } else {
                    SplitFlow::Continue
                }
            },
        }
    }

    /// Handles the learner's outcome: a model is merged and the loop goes
    /// on; unsatisfiability stops it.
    pub fn on_learned(&mut self, outcome: LearnOutcome) -> (r: SplitFlow)
        requires
            old(self).wf(),
            outcome matches LearnOutcome::Sat(m) ==> preds_below(m@, old(self).model@.len()),
        ensures
            final(self).wf(),
            final(self).splitter == old(self).splitter,
            final(self).known == old(self).known,
            final(self).infer == old(self).infer,
            match outcome {
                LearnOutcome::Sat(m) => r == SplitFlow::Continue
                    && final(self).model@ == merge_all(old(self).model@, old(self).known@, m@),
                LearnOutcome::Unsat => r == SplitFlow::Unsat && final(self).model@ == old(self).model@,
            },
    {
        match outcome {
            LearnOutcome::Sat(m) => {
                self.add_model(&m);
                SplitFlow::Continue
            },
            LearnOutcome::Unsat => SplitFlow::Unsat,
        }
    }

    /// The result once the driver is done: the accumulated model when
    /// inferring, nothing otherwise.
    pub fn finish(self) -> (r: Option<ConjCandidates>)
        ensures
            self.infer ==> (r matches Some(m) && m@ == self.model@),
            !self.infer ==> r.is_none(),
    {
        if self.infer {
            Some(self.model)
        } else {
            None
        }
    }
}

} // verus!
