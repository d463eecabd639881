use hoice::candidates::Frag;
use hoice::instance::{Clause, Instance, PredInfo};
use hoice::split::{SplitConf, SplitStep};
use hoice::split_loop::{LearnOutcome, PreprocOutcome, SplitFlow, SplitLoop};

fn inst() -> Instance {
    let p = |def: Option<Vec<usize>>| PredInfo { def, original_sig: vec![], sig_map: vec![] };
    let c = |lhs: Vec<usize>, rhs: Option<usize>| Clause { lhs_preds: lhs, rhs, strict_neg: false, from_unrolling: false };
    Instance {
        preds: vec![p(None), p(Some(vec![])), p(None)],
        clauses: vec![c(vec![], Some(0)), c(vec![0], None), c(vec![2], None)],
    }
}

#[test]
fn learning_merges_models() {
    let mut l = SplitLoop::new(&inst(), SplitConf { split: true, split_sort: true }, true);
    assert!(matches!(l.next_step(), SplitStep::Isolate { .. }));
    assert_eq!(l.on_preproc(PreprocOutcome::Reduced), SplitFlow::Learn);
    assert_eq!(l.on_learned(LearnOutcome::Sat(vec![(0, Frag::Term(1)), (1, Frag::Term(2))])), SplitFlow::Continue);
    assert!(matches!(l.next_step(), SplitStep::Isolate { .. }));
    assert_eq!(l.on_preproc(PreprocOutcome::Trivial(vec![(2, Frag::Term(3)), (0, Frag::Term(1))])), SplitFlow::Continue);
    assert!(matches!(l.next_step(), SplitStep::Done));
    let m = l.finish().unwrap();
    assert_eq!(m.get(0), Some(vec![Frag::Term(1)]));
    assert_eq!(m.get(1), None);
    assert_eq!(m.get(2), Some(vec![Frag::Term(3)]));
}

#[test]
fn unsat_stops_the_loop() {
    let mut l = SplitLoop::new(&inst(), SplitConf { split: true, split_sort: true }, true);
    l.next_step();
    assert_eq!(l.on_preproc(PreprocOutcome::Reduced), SplitFlow::Learn);
    assert_eq!(l.on_learned(LearnOutcome::Unsat), SplitFlow::Unsat);
    assert_eq!(l.on_preproc(PreprocOutcome::Unsat), SplitFlow::Unsat);
}

#[test]
fn without_inference_learning_is_skipped() {
    let mut l = SplitLoop::new(&inst(), SplitConf { split: false, split_sort: true }, false);
    assert!(matches!(l.next_step(), SplitStep::Whole));
    assert_eq!(l.on_preproc(PreprocOutcome::Reduced), SplitFlow::Continue);
    assert!(matches!(l.next_step(), SplitStep::Done));
    assert!(l.finish().is_none());
}

#[test]
fn loop_isolates_each_negative_clause_once() {
    let mut l = SplitLoop::new(&inst(), SplitConf { split: true, split_sort: false }, true);
    let mut seen = vec![];
    loop {
        match l.next_step() {
            SplitStep::Isolate { clause, excluded } => {
                assert_eq!(excluded, seen);
                seen.push(clause);
                assert_eq!(l.on_preproc(PreprocOutcome::Reduced), SplitFlow::Learn);
                assert_eq!(l.on_learned(LearnOutcome::Sat(vec![])), SplitFlow::Continue);
            },
            SplitStep::Done => break,
            SplitStep::Whole => panic!("loop should split"),
        }
    }
    assert_eq!(seen, vec![1, 2]);
}
