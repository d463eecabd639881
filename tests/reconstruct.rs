use hoice::entry_points::ProofError;
use hoice::instance::{Clause, Instance, PredInfo, Val};
use hoice::reconstruct::{clauses_for, safe_fixpoint, ReconStep, Reconstr};
use hoice::sample::Sample;

fn pred(def: Option<Vec<usize>>) -> PredInfo {
    PredInfo { def, original_sig: vec![], sig_map: vec![] }
}

fn clause(lhs: Vec<usize>, rhs: Option<usize>) -> Clause {
    Clause { lhs_preds: lhs, rhs, strict_neg: false, from_unrolling: false }
}

fn query(step: Result<ReconStep, ProofError>) -> (usize, Vec<Val>, usize) {
    match step {
        Ok(ReconStep::Query { pred, args, clause }) => (pred, args, clause),
        other => panic!("unexpected step {:?}", other),
    }
}

fn done(step: Result<ReconStep, ProofError>) -> Vec<(usize, Vec<Val>)> {
    match step {
        Ok(ReconStep::Done(v)) => v.into_iter().map(|s| (s.pred, s.args)).collect(),
        other => panic!("unexpected step {:?}", other),
    }
}

#[test]
fn safe_fixpoint_is_least() {
    let inst = Instance {
        preds: vec![
            pred(Some(vec![])),
            pred(Some(vec![0])),
            pred(Some(vec![3])),
            pred(Some(vec![2])),
            pred(None),
            pred(Some(vec![1, 0])),
        ],
        clauses: vec![],
    };
    let (safe, pos) = safe_fixpoint(&inst);
    assert_eq!(safe, vec![true, true, false, false, false, true]);
    assert_eq!(pos, vec![true, false, false, false, false, false]);
}

#[test]
fn safe_fixpoint_needs_several_passes() {
    let inst = Instance {
        preds: vec![pred(Some(vec![1])), pred(Some(vec![2])), pred(Some(vec![]))],
        clauses: vec![],
    };
    let (safe, pos) = safe_fixpoint(&inst);
    assert_eq!(safe, vec![true, true, true]);
    assert_eq!(pos, vec![false, false, true]);
}

#[test]
fn clauses_for_splits_facts_and_usable() {
    let original = Instance {
        preds: vec![pred(None), pred(None), pred(None)],
        clauses: vec![
            clause(vec![1], Some(0)),
            clause(vec![], Some(0)),
            clause(vec![2], Some(0)),
            clause(vec![], Some(1)),
            clause(vec![1, 1], Some(0)),
            clause(vec![], Some(0)),
        ],
    };
    let safe = vec![false, true, false];
    assert_eq!(clauses_for(&original, &safe, 0), (vec![1, 5], vec![0, 4]));
    assert_eq!(clauses_for(&original, &safe, 2), (vec![], vec![]));
}

#[test]
fn fact_clause_witness_adds_nothing() {
    let inst = Instance { preds: vec![pred(None)], clauses: vec![clause(vec![], Some(0))] };
    let mut r = Reconstr::new(&inst, vec![Sample::new(0, vec![Val::Int(5)])]);
    assert!(!r.needs_definitions());
    assert_eq!(query(r.next_query(&inst)), (0, vec![Val::Int(5)], 0));
    r.on_witness(Some(vec![]));
    assert_eq!(done(r.next_query(&inst)), vec![]);
}

#[test]
fn witness_records_positive_applications_only() {
    // Working instance: P0 is a ground fact, P1 is defined through P0.
    let working = Instance {
        preds: vec![pred(Some(vec![])), pred(Some(vec![0])), pred(None)],
        clauses: vec![],
    };
    // Original: P2 <= P0 /\ P1 (clause 1), after a clause with an unsafe lhs.
    let original = Instance {
        preds: vec![pred(None), pred(None), pred(None)],
        clauses: vec![clause(vec![2], Some(2)), clause(vec![0, 1], Some(2))],
    };
    let mut r = Reconstr::new(&working, vec![Sample::new(2, vec![Val::Int(1)])]);
    assert!(r.needs_definitions());
    assert_eq!(query(r.next_query(&original)), (2, vec![Val::Int(1)], 1));
    r.on_witness(Some(vec![
        Sample::new(0, vec![Val::Int(3)]),
        Sample::new(1, vec![Val::Int(4)]),
        Sample::new(0, vec![Val::Int(3)]),
    ]));
    assert_eq!(done(r.next_query(&original)), vec![(0, vec![Val::Int(3)])]);
}

#[test]
fn facts_are_tried_before_usable_clauses() {
    let working = Instance { preds: vec![pred(Some(vec![])), pred(None)], clauses: vec![] };
    let original = Instance {
        preds: vec![pred(None), pred(None)],
        clauses: vec![clause(vec![0], Some(1)), clause(vec![], Some(1))],
    };
    let mut r = Reconstr::new(&working, vec![Sample::new(1, vec![Val::Bool(true)])]);
    assert_eq!(query(r.next_query(&original)).2, 1);
    r.on_witness(None);
    assert_eq!(query(r.next_query(&original)).2, 0);
    r.on_witness(None);
    assert_eq!(r.next_query(&original).err(), Some(ProofError::UnreconstructableSample));
}

#[test]
fn samples_are_taken_from_the_end() {
    let inst = Instance { preds: vec![pred(None)], clauses: vec![clause(vec![], Some(0))] };
    let mut r = Reconstr::new(&inst, vec![Sample::new(0, vec![Val::Int(1)]), Sample::new(0, vec![Val::Int(2)])]);
    assert_eq!(query(r.next_query(&inst)).1, vec![Val::Int(2)]);
    r.on_witness(Some(vec![]));
    assert_eq!(query(r.next_query(&inst)).1, vec![Val::Int(1)]);
    r.on_witness(Some(vec![]));
    assert_eq!(done(r.next_query(&inst)), vec![]);
}

#[test]
fn clause_without_rhs_is_illegal() {
    let inst = Instance {
        preds: vec![pred(None)],
        clauses: vec![clause(vec![], Some(0)), clause(vec![], Some(0))],
    };
    let changed = Instance {
        preds: vec![pred(None)],
        clauses: vec![clause(vec![], Some(0)), clause(vec![], None)],
    };
    let mut r = Reconstr::new(&inst, vec![Sample::new(0, vec![])]);
    assert_eq!(query(r.next_query(&inst)).2, 0);
    r.on_witness(None);
    assert_eq!(r.next_query(&changed).err(), Some(ProofError::IllegalClause(1)));
}

#[test]
fn sample_without_candidates_is_unreconstructable() {
    let inst = Instance { preds: vec![pred(None)], clauses: vec![clause(vec![0], Some(0))] };
    let mut r = Reconstr::new(&inst, vec![Sample::new(0, vec![])]);
    assert_eq!(r.next_query(&inst).err(), Some(ProofError::UnreconstructableSample));
}
