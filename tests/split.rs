use hoice::instance::{Clause, Instance, PredInfo};
use hoice::split::{split_order, SplitConf, SplitStep, Splitter};

fn pred(def: Option<Vec<usize>>) -> PredInfo {
    PredInfo { def, original_sig: vec![], sig_map: vec![] }
}

fn clause(lhs: Vec<usize>, rhs: Option<usize>, strict_neg: bool, from_unrolling: bool) -> Clause {
    Clause { lhs_preds: lhs, rhs, strict_neg, from_unrolling }
}

/// Clause 1 is strict on a fact-backed predicate (score 0), clause 2 is not
/// strict, on a predicate that three clauses conclude (score 3).
fn strict_vs_score() -> Instance {
    Instance {
        preds: vec![pred(None), pred(None), pred(None)],
        clauses: vec![
            clause(vec![], Some(0), false, false),
            clause(vec![0], None, true, false),
            clause(vec![1], None, false, false),
            clause(vec![2], Some(1), false, false),
            clause(vec![1, 2], Some(1), false, false),
            clause(vec![0], Some(1), false, false),
        ],
    }
}

fn isolated(step: SplitStep) -> (usize, Vec<usize>) {
    match step {
        SplitStep::Isolate { clause, excluded } => (clause, excluded),
        other => panic!("unexpected step {:?}", other),
    }
}

#[test]
fn strictness_outranks_score() {
    let inst = strict_vs_score();
    let conf = SplitConf { split: true, split_sort: true };
    assert_eq!(split_order(&inst, conf), vec![2, 1]);
    let mut s = Splitter::new(&inst, conf);
    assert_eq!(s.info(), Some((1, 0, 2)));
    assert_eq!(isolated(s.next_instance()), (1, vec![]));
    assert_eq!(s.info(), Some((2, 1, 2)));
    assert_eq!(isolated(s.next_instance()), (2, vec![1]));
    assert_eq!(s.info(), None);
    assert!(matches!(s.next_instance(), SplitStep::Done));
    assert!(matches!(s.next_instance(), SplitStep::Done));
}

#[test]
fn score_counts_concluding_clauses() {
    let mut inst = strict_vs_score();
    inst.clauses[1].strict_neg = false;
    let conf = SplitConf { split: true, split_sort: true };
    assert_eq!(split_order(&inst, conf), vec![1, 2]);
}

#[test]
fn fact_backed_predicate_zeroes_score() {
    // Predicate 0 is a bare fact; two clauses conclude 1, one concludes 2.
    // Clauses 3 ([1, 0]) and 4 ([0, 1]) mention 0, so both score 0, whatever
    // the order of their predicates; clause 5 ([2]) scores 1.
    let inst = Instance {
        preds: vec![pred(None), pred(None), pred(None)],
        clauses: vec![
            clause(vec![], Some(0), false, false),
            clause(vec![0], Some(1), false, false),
            clause(vec![1], Some(1), false, false),
            clause(vec![1, 0], None, false, false),
            clause(vec![0, 1], None, false, false),
            clause(vec![2], None, false, false),
            clause(vec![1], Some(2), false, false),
        ],
    };
    let conf = SplitConf { split: true, split_sort: true };
    assert_eq!(split_order(&inst, conf), vec![3, 4, 5]);
}

#[test]
fn unrolled_clauses_come_first() {
    let inst = Instance {
        preds: vec![pred(None)],
        clauses: vec![
            clause(vec![0], None, false, true),
            clause(vec![0], None, false, false),
            clause(vec![0], None, true, false),
        ],
    };
    let conf = SplitConf { split: true, split_sort: false };
    assert_eq!(split_order(&inst, conf), vec![1, 0, 2]);
}

#[test]
fn without_scores_lower_index_comes_first() {
    let inst = Instance {
        preds: vec![pred(None)],
        clauses: vec![
            clause(vec![0], None, false, false),
            clause(vec![], Some(0), false, false),
            clause(vec![0], None, false, false),
            clause(vec![0], None, false, false),
        ],
    };
    let conf = SplitConf { split: true, split_sort: false };
    assert_eq!(split_order(&inst, conf), vec![3, 2, 0]);
    let mut s = Splitter::new(&inst, conf);
    let mut seen = vec![];
    loop {
        match s.next_instance() {
            SplitStep::Isolate { clause, excluded } => {
                assert_eq!(excluded, seen);
                seen.push(clause);
            },
            SplitStep::Done => break,
            SplitStep::Whole => panic!("driver should be active"),
        }
    }
    assert_eq!(seen, vec![0, 2, 3]);
}

#[test]
fn one_negative_clause_gives_whole_instance_once() {
    let inst = Instance {
        preds: vec![pred(None)],
        clauses: vec![clause(vec![], Some(0), false, false), clause(vec![0], None, true, false)],
    };
    let mut s = Splitter::new(&inst, SplitConf { split: true, split_sort: true });
    assert_eq!(s.info(), None);
    assert!(matches!(s.next_instance(), SplitStep::Whole));
    assert!(matches!(s.next_instance(), SplitStep::Done));
}

#[test]
fn splitting_off_gives_whole_instance_once() {
    let inst = strict_vs_score();
    let mut s = Splitter::new(&inst, SplitConf { split: false, split_sort: true });
    assert_eq!(s.info(), None);
    assert!(matches!(s.next_instance(), SplitStep::Whole));
    assert!(matches!(s.next_instance(), SplitStep::Done));
}
