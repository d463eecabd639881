use hoice::entry_points::{Entry, EntryPoints, ProofError};
use hoice::instance::{Instance, PredInfo, Typ, Val};
use hoice::sample::{cmp_samples, Sample};
use std::cmp::Ordering;

fn s(pred: usize, args: Vec<i64>) -> Sample {
    Sample::new(pred, args.into_iter().map(Val::Int).collect())
}

fn keys(e: &Entry) -> Vec<(usize, Vec<Val>)> {
    let mut v: Vec<(usize, Vec<Val>)> = e.samples.iter().map(|x| (x.pred, x.args.clone())).collect();
    v.sort_by(|a, b| format!("{:?}", a).cmp(&format!("{:?}", b)));
    v
}

#[test]
fn dependency_on_real_sample() {
    let mut ep = EntryPoints::new();
    ep.register(s(0, vec![1]));
    assert!(ep.register_dep(s(1, vec![2]), &s(0, vec![1])).is_ok());
    let e = ep.entry_points_of(&s(1, vec![2])).unwrap();
    assert_eq!(keys(&e), vec![(0, vec![Val::Int(1)])]);
}

#[test]
fn real_sample_is_its_own_entry_point() {
    let mut ep = EntryPoints::new();
    ep.register(s(0, vec![1]));
    ep.register(s(0, vec![1]));
    let e = ep.entry_points_of(&s(0, vec![1])).unwrap();
    assert_eq!(keys(&e), vec![(0, vec![Val::Int(1)])]);
}

#[test]
fn dependencies_are_transitive() {
    let mut ep = EntryPoints::new();
    ep.register(s(0, vec![1]));
    ep.register_dep(s(1, vec![2]), &s(0, vec![1])).unwrap();
    ep.register_dep(s(2, vec![3]), &s(1, vec![2])).unwrap();
    let e = ep.entry_points_of(&s(2, vec![3])).unwrap();
    assert_eq!(keys(&e), vec![(0, vec![Val::Int(1)])]);
}

#[test]
fn dependency_on_unknown_sample_fails() {
    let mut ep = EntryPoints::new();
    ep.register(s(0, vec![1]));
    assert_eq!(ep.register_dep(s(1, vec![2]), &s(0, vec![5])), Err(ProofError::UnknownSample));
    assert_eq!(ep.entry_points_of(&s(1, vec![2])).err(), Some(ProofError::UnknownSample));
}

#[test]
fn entry_points_of_unknown_sample_fails() {
    let ep = EntryPoints::new();
    assert_eq!(ep.entry_points_of(&s(3, vec![])).err(), Some(ProofError::UnknownSample));
}

#[test]
fn re_registration_replaces_dependencies() {
    let mut ep = EntryPoints::new();
    ep.register(s(0, vec![1]));
    ep.register(s(0, vec![2]));
    ep.register_dep(s(1, vec![0]), &s(0, vec![1])).unwrap();
    ep.register_dep(s(1, vec![0]), &s(0, vec![2])).unwrap();
    let e = ep.entry_points_of(&s(1, vec![0])).unwrap();
    assert_eq!(keys(&e), vec![(0, vec![Val::Int(2)])]);
}

#[test]
fn entry_points_are_stable() {
    let mut ep = EntryPoints::new();
    ep.register(s(0, vec![1]));
    ep.register_dep(s(1, vec![2]), &s(0, vec![1])).unwrap();
    let first = keys(&ep.entry_points_of(&s(1, vec![2])).unwrap());
    let second = keys(&ep.entry_points_of(&s(1, vec![2])).unwrap());
    ep.register_dep(s(2, vec![2]), &s(0, vec![1])).unwrap();
    let third = keys(&ep.entry_points_of(&s(1, vec![2])).unwrap());
    assert_eq!(first, second);
    assert_eq!(first, third);
}

#[test]
fn rewrite_fills_unknown_positions() {
    let inst = Instance {
        preds: vec![PredInfo {
            def: None,
            original_sig: vec![Typ::Int, Typ::Bool, Typ::Int],
            sig_map: vec![2, 0],
        }],
        clauses: vec![],
    };
    let e = Entry::new(vec![s(0, vec![7, 9])]);
    let r = e.rewrite(&inst);
    assert_eq!(r.len(), 1);
    assert_eq!(r[0].pred, 0);
    assert_eq!(r[0].args, vec![Val::Int(9), Val::Unknown(Typ::Bool), Val::Int(7)]);
    let back: Vec<Val> = inst.preds[0].sig_map.iter().map(|&k| r[0].args[k]).collect();
    assert_eq!(back, vec![Val::Int(7), Val::Int(9)]);
}

#[test]
fn real_samples_are_kept_in_order() {
    let mut ep = EntryPoints::new();
    ep.register(s(1, vec![2]));
    ep.register(s(0, vec![5]));
    ep.register(s(0, vec![3, 1]));
    ep.register(s(0, vec![3]));
    ep.register(s(0, vec![5]));
    let got: Vec<(usize, Vec<Val>)> = ep.real_pos_samples().into_iter().map(|x| (x.pred, x.args)).collect();
    assert_eq!(
        got,
        vec![
            (0, vec![Val::Int(3)]),
            (0, vec![Val::Int(3), Val::Int(1)]),
            (0, vec![Val::Int(5)]),
            (1, vec![Val::Int(2)]),
        ]
    );
}

#[test]
fn dependencies_lists_registered_samples() {
    let mut ep = EntryPoints::new();
    ep.register(s(0, vec![1]));
    ep.register_dep(s(1, vec![2]), &s(0, vec![1])).unwrap();
    let deps = ep.dependencies();
    assert_eq!(deps.len(), 1);
    assert_eq!((deps[0].0.pred, deps[0].0.args.clone()), (1, vec![Val::Int(2)]));
    assert_eq!(deps[0].1.len(), 1);
    assert_eq!((deps[0].1[0].pred, deps[0].1[0].args.clone()), (0, vec![Val::Int(1)]));
}

#[test]
fn samples_compare_by_predicate_then_values() {
    let b = Sample::new(0, vec![Val::Bool(false)]);
    let u = Sample::new(0, vec![Val::Unknown(Typ::Int)]);
    assert_eq!(cmp_samples(&s(0, vec![9]), &b), Ordering::Less);
    assert_eq!(cmp_samples(&b, &u), Ordering::Less);
    assert_eq!(cmp_samples(&s(1, vec![]), &s(0, vec![1])), Ordering::Greater);
    assert_eq!(cmp_samples(&s(0, vec![1, 2]), &s(0, vec![1, 2])), Ordering::Equal);
    assert_eq!(cmp_samples(&s(0, vec![1]), &s(0, vec![1, 0])), Ordering::Less);
    assert_eq!(cmp_samples(&s(0, vec![-4]), &s(0, vec![-5])), Ordering::Greater);
}

#[test]
fn dependencies_are_listed_in_sample_order() {
    let mut ep = EntryPoints::new();
    ep.register(s(0, vec![1]));
    ep.register_dep(s(2, vec![0]), &s(0, vec![1])).unwrap();
    ep.register_dep(s(1, vec![7]), &s(0, vec![1])).unwrap();
    ep.register_dep(s(1, vec![3]), &s(2, vec![0])).unwrap();
    let order: Vec<(usize, Vec<Val>)> = ep.dependencies().into_iter().map(|(k, _)| (k.pred, k.args)).collect();
    assert_eq!(
        order,
        vec![(1, vec![Val::Int(3)]), (1, vec![Val::Int(7)]), (2, vec![Val::Int(0)])]
    );
}
